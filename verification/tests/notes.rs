use subvox::notes::{NoteKey, NoteName};

const ALL: [NoteName; 12] = [
    NoteName::C,
    NoteName::Db,
    NoteName::D,
    NoteName::Eb,
    NoteName::E,
    NoteName::F,
    NoteName::Gb,
    NoteName::G,
    NoteName::Ab,
    NoteName::A,
    NoteName::Bb,
    NoteName::B,
];

#[test]
fn numbers_run_from_c_to_b() {
    for (i, name) in ALL.iter().enumerate() {
        assert_eq!(name.number(), i as i8);
    }
}

#[test]
fn from_number_inverts_number() {
    for name in ALL {
        assert_eq!(NoteName::from_number(name.number()), Some(name));
    }
    assert_eq!(NoteName::from_number(12), None);
    assert_eq!(NoteName::from_number(-1), None);
    assert_eq!(NoteName::from_number(i8::MAX), None);
}

#[test]
fn names_are_written_with_flats() {
    let names: Vec<String> = ALL.iter().map(|n| n.to_string()).collect();
    assert_eq!(names, ["C", "Db", "D", "Eb", "E", "F", "Gb", "G", "Ab", "A", "Bb", "B"]);
}

#[test]
fn keys_are_written_with_octave() {
    assert_eq!(NoteKey::new(NoteName::A, 4).to_string(), "A4");
    assert_eq!(NoteKey::new(NoteName::Db, -1).to_string(), "Db-1");
    assert_eq!(NoteKey::new(NoteName::C, 10).to_string(), "C10");
    assert_eq!(NoteKey::new(NoteName::Bb, -128).to_string(), "Bb-128");
    assert_eq!(NoteKey::new(NoteName::G, 127).to_string(), "G127");
    assert_eq!(NoteKey::new(NoteName::E, 0).to_string(), "E0");
}

#[test]
fn semitones_count_from_c0() {
    assert_eq!(NoteKey::new(NoteName::A, 4).semitone_number(), 57);
    assert_eq!(NoteKey::new(NoteName::C, 0).semitone_number(), 0);
    assert_eq!(NoteKey::new(NoteName::B, -1).semitone_number(), -1);
}

#[test]
fn intervals_between_keys() {
    let a4 = NoteKey::new(NoteName::A, 4);
    let c5 = NoteKey::new(NoteName::C, 5);
    let e5 = NoteKey::new(NoteName::E, 5);
    assert_eq!(a4.interval_to(&c5).0, 3);
    assert_eq!(c5.interval_to(&a4).0, -3);
    assert_eq!(a4.interval_to(&a4).0, 0);
    assert_eq!(a4.interval_to(&c5).0 + c5.interval_to(&e5).0, a4.interval_to(&e5).0);
}

#[test]
fn key_accessors() {
    let k = NoteKey::new(NoteName::Gb, 3);
    assert_eq!(k.name(), NoteName::Gb);
    assert_eq!(k.octave(), 3);
    assert_eq!(k, NoteKey::new(NoteName::Gb, 3));
    assert_ne!(k, NoteKey::new(NoteName::Gb, 2));
}
