use subvox::frames::frame_count;

#[test]
fn counts_whole_frames() {
    assert_eq!(frame_count(10, 4, 2), 4);
    assert_eq!(frame_count(11, 4, 2), 4);
    assert_eq!(frame_count(4, 4, 1), 1);
    assert_eq!(frame_count(16384 * 3, 16384, 2048), 17);
}

#[test]
fn frames_fit_and_no_more_would() {
    for len in 1usize..40 {
        for window in 1..=len {
            for hop in 1..6 {
                let n = frame_count(len, window, hop);
                assert!((n - 1) * hop + window <= len);
                assert!(n * hop + window > len);
            }
        }
    }
}
