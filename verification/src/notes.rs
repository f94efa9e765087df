//! Note and interval representation.

use vstd::prelude::*;

verus! {

/// Named note, one per semitone of the octave.
#[derive(Clone, Copy, Debug, PartialEq, Eq, Structural, PartialOrd, Ord, Hash)]
pub enum NoteName {
    /// G# / Ab
    Ab,
    A,
    /// A# / Bb
    Bb,
    B,
    C,
    /// C# / Db
    Db,
    D,
    /// D# / Eb
    Eb,
    E,
    F,
    /// F# / Gb
    Gb,
    G,
}

impl NoteName {
    /// Position of the note in the octave, C = 0 up to B = 11.
    pub open spec fn spec_number(self) -> int {
        match self {
            NoteName::C => 0,
            NoteName::Db => 1,
            NoteName::D => 2,
            NoteName::Eb => 3,
            NoteName::E => 4,
            NoteName::F => 5,
            NoteName::Gb => 6,
            NoteName::G => 7,
            NoteName::Ab => 8,
            NoteName::A => 9,
            NoteName::Bb => 10,
            NoteName::B => 11,
        }
    }

    /// Note's position in the octave C = 0, B = 11
    pub fn number(self) -> (n: i8)
        ensures
            n == self.spec_number(),
            0 <= n < 12,
    {
        match self {
            NoteName::C => 0,
            NoteName::Db => 1,
            NoteName::D => 2,
            NoteName::Eb => 3,
            NoteName::E => 4,
            NoteName::F => 5,
            NoteName::Gb => 6,
            NoteName::G => 7,
            NoteName::Ab => 8,
            NoteName::A => 9,
            NoteName::Bb => 10,
            NoteName::B => 11,
        }
    }

    /// The note at the given position in the octave, if the position is one.
    pub open spec fn spec_from_number(n: int) -> Option<NoteName> {
        if n == 0 {
            Some(NoteName::C)
        } else if n == 1 {
            Some(NoteName::Db)
        } else if n == 2 {
            Some(NoteName::D)
        } else if n == 3 {
            Some(NoteName::Eb)
        } else if n == 4 {
            Some(NoteName::E)
        } else if n == 5 {
            Some(NoteName::F)
        } else if n == 6 {
            Some(NoteName::Gb)
        } else if n == 7 {
            Some(NoteName::G)
        } else if n == 8 {
            Some(NoteName::Ab)
        } else if n == 9 {
            Some(NoteName::A)
        } else if n == 10 {
            Some(NoteName::Bb)
        } else if n == 11 {
            Some(NoteName::B)
        } else {
            None
        }
    }

    /// The note at position `n` of the octave (C = 0, B = 11); `None` for any
    /// other `n`.
    pub fn from_number(n: i8) -> (r: Option<NoteName>)
        ensures
            r == Self::spec_from_number(n as int),
            r is Some <==> 0 <= n < 12,
            r matches Some(name) ==> name.spec_number() == n,
    {
        match n {
            0 => Some(NoteName::C),
            1 => Some(NoteName::Db),
            2 => Some(NoteName::D),
            3 => Some(NoteName::Eb),
            4 => Some(NoteName::E),
            5 => Some(NoteName::F),
            6 => Some(NoteName::Gb),
            7 => Some(NoteName::G),
            8 => Some(NoteName::Ab),
            9 => Some(NoteName::A),
            10 => Some(NoteName::Bb),
            11 => Some(NoteName::B),
            _ => None,
        }
    }

    /// The note's name as written: a letter, followed by `b` for a flat.
    pub open spec fn spec_name(self) -> Seq<char> {
        match self {
            NoteName::C => seq!['C'],
            NoteName::Db => seq!['D', 'b'],
            NoteName::D => seq!['D'],
            NoteName::Eb => seq!['E', 'b'],
            NoteName::E => seq!['E'],
            NoteName::F => seq!['F'],
            NoteName::Gb => seq!['G', 'b'],
            NoteName::G => seq!['G'],
            NoteName::Ab => seq!['A', 'b'],
            NoteName::A => seq!['A'],
            NoteName::Bb => seq!['B', 'b'],
            NoteName::B => seq!['B'],
        }
    }

    fn name_str(self) -> (s: &'static str)
        ensures
            s@ == self.spec_name(),
    {
        match self {
            NoteName::C => {
                proof {
                    reveal_strlit("C");
                }
                "C"
            },
            NoteName::Db => {
                proof {
                    reveal_strlit("Db");
                }
                "Db"
            },
            NoteName::D => {
                proof {
                    reveal_strlit("D");
                }
                "D"
            },
            NoteName::Eb => {
                proof {
                    reveal_strlit("Eb");
                }
                "Eb"
            },
            NoteName::E => {
                proof {
                    reveal_strlit("E");
                }
                "E"
            },
            NoteName::F => {
                proof {
                    reveal_strlit("F");
                }
                "F"
            },
            NoteName::Gb => {
                proof {
                    reveal_strlit("Gb");
                }
                "Gb"
            },
            NoteName::G => {
                proof {
                    reveal_strlit("G");
                }
                "G"
            },
            NoteName::Ab => {
                proof {
                    reveal_strlit("Ab");
                }
                "Ab"
            },
            NoteName::A => {
                proof {
                    reveal_strlit("A");
                }
                "A"
            },
            NoteName::Bb => {
                proof {
                    reveal_strlit("Bb");
                }
                "Bb"
            },
            NoteName::B => {
                proof {
                    reveal_strlit("B");
                }
                "B"
            },
        }
    }

    /// The note's name, such as `C` or `Db`.
    pub fn to_string(&self) -> (s: String)
        ensures
            s@ == self.spec_name(),
    {
        String::from_str(self.name_str())
    }
}

/// A note number maps back to its note.
pub proof fn lemma_number_roundtrip(name: NoteName)
    ensures
        NoteName::spec_from_number(name.spec_number()) == Some(name),
        0 <= name.spec_number() < 12,
{
}

/// Decimal digit character.
pub open spec fn digit_char(d: int) -> char {
    if d == 0 {
        '0'
    } else if d == 1 {
        '1'
    } else if d == 2 {
        '2'
    } else if d == 3 {
        '3'
    } else if d == 4 {
        '4'
    } else if d == 5 {
        '5'
    } else if d == 6 {
        '6'
    } else if d == 7 {
        '7'
    } else if d == 8 {
        '8'
    } else {
        '9'
    }
}

/// Decimal digits of a natural number, most significant first.
pub open spec fn decimal_digits(n: nat) -> Seq<char>
    decreases n,
{
    if n < 10 {
        seq![digit_char(n as int)]
    } else {
        decimal_digits(n / 10) + seq![digit_char((n % 10) as int)]
    }
}

/// Decimal representation of an integer, with a leading `-` when negative.
pub open spec fn decimal(n: int) -> Seq<char> {
    if n < 0 {
        seq!['-'] + decimal_digits((-n) as nat)
    } else {
        decimal_digits(n as nat)
    }
}

fn digit_str(d: u8) -> (s: &'static str)
    requires
        d < 10,
    ensures
        s@ == seq![digit_char(d as int)],
{
    match d {
        0 => {
            proof {
                reveal_strlit("0");
            }
            "0"
        },
        1 => {
            proof {
                reveal_strlit("1");
            }
            "1"
        },
        2 => {
            proof {
                reveal_strlit("2");
            }
            "2"
        },
        3 => {
            proof {
                reveal_strlit("3");
            }
            "3"
        },
        4 => {
            proof {
                reveal_strlit("4");
            }
            "4"
        },
        5 => {
            proof {
                reveal_strlit("5");
            }
            "5"
        },
        6 => {
            proof {
                reveal_strlit("6");
            }
            "6"
        },
        7 => {
            proof {
                reveal_strlit("7");
            }
            "7"
        },
        8 => {
            proof {
                reveal_strlit("8");
            }
            "8"
        },
        _ => {
            proof {
                reveal_strlit("9");
            }
            "9"
        },
    }
}

/// Appends the decimal representation of `n` to `s`.
fn push_decimal(s: &mut String, n: i8)
    ensures
        final(s)@ == old(s)@ + decimal(n as int),
{
    let ghost start = s@;
    let a: u8 = if n < 0 {
        proof {
            reveal_strlit("-");
        }
        s.append("-");
        (0 - (n as i16)) as u8
    } else {
        n as u8
    };
    let ghost sign = s@;
    if a >= 100 {
        s.append(digit_str(a / 100));
    }
    if a >= 10 {
        s.append(digit_str((a / 10) % 10));
    }
    s.append(digit_str(a % 10));
    proof {
        reveal_with_fuel(decimal_digits, 3);
        let an = a as nat;
        if a >= 100 {
            assert(decimal_digits(an / 10 / 10) == seq![digit_char((a / 100) as int)]);
            assert(decimal_digits(an / 10) =~= seq![digit_char((a / 100) as int)] + seq![
                digit_char(((a / 10) % 10) as int),
            ]);
        } else if a >= 10 {
            assert(decimal_digits(an / 10) == seq![digit_char(((a / 10) % 10) as int)]);
        }
        assert(s@ =~= sign + decimal_digits(an));
        if n < 0 {
            assert(sign =~= start + seq!['-']);
        }
    }
}

/// Minimal note representation that implements [`Hash`]
/// Meant to be used as a key in a `Hash*` container.
#[derive(Clone, Copy, Debug, PartialEq, Eq, Structural, PartialOrd, Ord, Hash)]
pub struct NoteKey(NoteName, i8);

/// Interval between two notes in semitones
pub struct Interval(pub i8);

impl NoteKey {
    /// The key of the given note in the given octave.
    pub fn new(name: NoteName, octave: i8) -> (k: NoteKey)
        ensures
            k.spec_name() == name,
            k.spec_octave() == octave,
    {
        NoteKey(name, octave)
    }

    pub closed spec fn spec_name(self) -> NoteName {
        self.0
    }

    pub closed spec fn spec_octave(self) -> i8 {
        self.1
    }

    /// Semitones above C0.
    pub open spec fn spec_semitone(self) -> int {
        self.spec_octave() * 12 + self.spec_name().spec_number()
    }

    pub fn name(&self) -> (n: NoteName)
        ensures
            n == self.spec_name(),
    {
        self.0
    }

    pub fn octave(&self) -> (o: i8)
        ensures
            o == self.spec_octave(),
    {
        self.1
    }

    /// Semitones above/below C0
    pub fn semitone_number(&self) -> (r: i8)
        requires
            i8::MIN <= self.spec_octave() * 12,
            self.spec_semitone() <= i8::MAX,
        ensures
            r == self.spec_semitone(),
    {
        self.1 * 12 + self.0.number()
    }

    /// Semitones from this note to the other note
    pub fn interval_to(&self, other: &NoteKey) -> (r: Interval)
        requires
            i8::MIN <= self.spec_octave() * 12,
            self.spec_semitone() <= i8::MAX,
            i8::MIN <= other.spec_octave() * 12,
            other.spec_semitone() <= i8::MAX,
            i8::MIN <= other.spec_semitone() - self.spec_semitone() <= i8::MAX,
        ensures
            r.0 == other.spec_semitone() - self.spec_semitone(),
    {
        Interval(other.semitone_number() - self.semitone_number())
    }

    /// The note name followed by the octave number, such as `A4` or `Db-1`.
    pub open spec fn spec_to_string(self) -> Seq<char> {
        self.spec_name().spec_name() + decimal(self.spec_octave() as int)
    }

    /// The note name followed by the octave number, such as `A4` or `Db-1`.
    pub fn to_string(&self) -> (s: String)
        ensures
            s@ == self.spec_to_string(),
    {
        let mut s = self.0.to_string();
        push_decimal(&mut s, self.1);
        s
    }
}

/// A key's semitone count gives the key back: divided by 12 it is the
/// key's octave, and its remainder is the position in the octave of the
/// key's note, as `NoteName::from_number` reads positions.
pub proof fn lemma_semitone_names_the_key(k: NoteKey)
    ensures
        k.spec_semitone() / 12 == k.spec_octave(),
        NoteName::spec_from_number(k.spec_semitone() % 12) == Some(k.spec_name()),
{
    let s = k.spec_semitone();
    let n = k.spec_name().spec_number();
    assert(0 <= n < 12);
    assert(s == k.spec_octave() * 12 + n);
    assert(s / 12 == k.spec_octave() && s % 12 == n) by (nonlinear_arith)
        requires
            s == k.spec_octave() * 12 + n,
            0 <= n < 12,
    ;
}

/// Within one octave, the interval between two keys is the distance
/// between their notes' positions (C = 0 up to B = 11); one octave up is
/// twelve semitones.
pub proof fn lemma_interval_by_position(a: NoteKey, b: NoteKey)
    ensures
        a.spec_octave() == b.spec_octave() ==> b.spec_semitone() - a.spec_semitone()
            == b.spec_name().spec_number() - a.spec_name().spec_number(),
        a.spec_name() == b.spec_name() && b.spec_octave() == a.spec_octave() + 1
            ==> b.spec_semitone() - a.spec_semitone() == 12,
{
}

/// The interval from a note to itself is zero.
pub proof fn lemma_interval_to_self(a: NoteKey)
    ensures
        a.spec_semitone() - a.spec_semitone() == 0,
{
}

/// Reversing an interval negates it.
pub proof fn lemma_interval_antisymmetric(a: NoteKey, b: NoteKey)
    ensures
        b.spec_semitone() - a.spec_semitone() == -(a.spec_semitone() - b.spec_semitone()),
{
}

/// Intervals add up along a chain of notes.
pub proof fn lemma_interval_additive(a: NoteKey, b: NoteKey, c: NoteKey)
    ensures
        (b.spec_semitone() - a.spec_semitone()) + (c.spec_semitone() - b.spec_semitone())
            == c.spec_semitone() - a.spec_semitone(),
{
}

/// Two keys are equal exactly when they stand for the same semitone.
pub proof fn lemma_semitone_injective(a: NoteKey, b: NoteKey)
    ensures
        a.spec_semitone() == b.spec_semitone() <==> a == b,
{
    if a.spec_semitone() == b.spec_semitone() {
        assert(a.0.spec_number() == b.0.spec_number());
        assert(a.1 == b.1);
    }
}

} // verus!
