use subvox::peaks::{
    cepstral_peaks, find_local_maxima, first_maximum_above, find_local_minima, hps_select, key_less,
    merge_close_peaks, rank_candidates, top_ranked, yin_select,
};

fn keys(v: &[i32]) -> Vec<Option<i32>> {
    v.iter().map(|&x| Some(x)).collect()
}

#[test]
fn key_comparison_ignores_incomparable_values() {
    assert!(key_less(Some(1), Some(2)));
    assert!(!key_less(Some(2), Some(2)));
    assert!(!key_less(None, Some(2)));
    assert!(!key_less(Some(1), None));
}

#[test]
fn finds_local_maxima_including_edges() {
    let data = keys(&[5, 1, 3, 2, 2, 4]);
    assert_eq!(find_local_maxima(&data, 0, 5), vec![0, 2, 5]);
    assert_eq!(find_local_maxima(&data, 1, 4), vec![2]);
    assert_eq!(find_local_maxima(&data, 3, 3), Vec::<usize>::new());
}

#[test]
fn finds_local_minima_including_edges() {
    let data = keys(&[5, 1, 3, 2, 2, 4]);
    assert_eq!(find_local_minima(&data, 0, 5), vec![1]);
    let data = keys(&[0, 1, 0]);
    assert_eq!(find_local_minima(&data, 0, 2), vec![0, 2]);
}

#[test]
fn incomparable_neighbours_block_extrema() {
    let data = vec![Some(1), None, Some(3), Some(1)];
    assert_eq!(find_local_maxima(&data, 0, 3), Vec::<usize>::new());
    assert_eq!(find_local_minima(&data, 0, 3), vec![3]);
}

#[test]
fn single_value_is_both_extrema() {
    let data = vec![None];
    assert_eq!(find_local_maxima(&data, 0, 0), vec![0]);
    assert_eq!(find_local_minima(&data, 0, 0), vec![0]);
}

#[test]
fn extrema_are_disjoint() {
    let data = keys(&[3, 1, 4, 1, 5, 9, 2, 6]);
    let maxima = find_local_maxima(&data, 0, 7);
    let minima = find_local_minima(&data, 0, 7);
    assert_eq!(maxima, vec![0, 2, 5, 7]);
    assert_eq!(minima, vec![1, 3, 6]);
    assert!(maxima.iter().all(|m| !minima.contains(m)));
}

#[test]
fn merges_close_peaks_keeping_higher() {
    let data = keys(&[0, 5, 0, 7, 0, 0, 0, 0, 2, 0, 9, 0]);
    assert_eq!(merge_close_peaks(vec![10, 1, 3, 8], &data, 3), vec![3, 10]);
    assert_eq!(merge_close_peaks(vec![1, 3, 8, 10], &data, 3), vec![3, 10]);
    assert_eq!(merge_close_peaks(vec![1, 3, 8, 10], &data, 0), vec![1, 3, 8, 10]);
    assert_eq!(merge_close_peaks(vec![], &data, 3), Vec::<usize>::new());
    assert_eq!(merge_close_peaks(vec![100, 0], &[Some(1)], 3), vec![0, 100]);
}

#[test]
fn merged_peaks_keep_earlier_on_tie() {
    let data = keys(&[4, 0, 4]);
    assert_eq!(merge_close_peaks(vec![0, 2], &data, 3), vec![0]);
}

#[test]
fn merged_peaks_are_spaced() {
    let rising = keys(&[1, 2, 3, 4, 5, 6, 7, 8, 9, 10]);
    assert_eq!(merge_close_peaks((0..10).collect(), &rising, 4), vec![9]);
    let flat = keys(&[1; 10]);
    let r = merge_close_peaks((0..10).collect(), &flat, 4);
    assert_eq!(r, vec![0, 4, 8]);
    assert!(r.windows(2).all(|w| w[1] - w[0] >= 4));
}

#[test]
fn ranks_highest_first_with_stable_ties() {
    let data = keys(&[1, 7, 3, 7, 5]);
    assert_eq!(rank_candidates(&[0, 1, 2, 3, 4], &data, true), vec![1, 3, 4, 2, 0]);
    assert_eq!(rank_candidates(&[0, 1, 2, 3, 4], &data, false), vec![0, 2, 4, 1, 3]);
    assert_eq!(top_ranked(&[0, 1, 2, 3, 4], &data, true, 2), vec![1, 3]);
    assert_eq!(top_ranked(&[1, 2], &data, true, 5), vec![1, 2]);
    assert_eq!(top_ranked(&[0, 1, 2, 3, 4], &data, true, 0), Vec::<usize>::new());
}

#[test]
fn single_incomparable_candidate_is_kept() {
    let data = vec![None, Some(1)];
    assert_eq!(top_ranked(&[0], &data, true, 3), vec![0]);
}

#[test]
fn hps_picks_strongest_peaks() {
    let product = keys(&[0, 3, 1, 8, 2, 5, 4]);
    assert_eq!(hps_select(&product, 1, 6, 2), vec![3, 5]);
    assert_eq!(hps_select(&product, 1, 6, 10), vec![3, 5, 1]);
}

#[test]
fn yin_prefers_the_first_minimum_below_threshold() {
    let cmnd = keys(&[100, 40, 60, 20, 70, 30, 80]);
    assert_eq!(yin_select(&cmnd, 1, 6, Some(50), 2), vec![1, 3]);
    assert_eq!(yin_select(&cmnd, 1, 6, Some(50), 3), vec![1, 3, 5]);
    assert_eq!(yin_select(&cmnd, 1, 6, Some(25), 2), vec![3, 5]);
    assert_eq!(yin_select(&cmnd, 1, 6, Some(35), 3), vec![3, 5, 1]);
    assert_eq!(yin_select(&cmnd, 1, 6, Some(100), 1), vec![1]);
    assert_eq!(yin_select(&cmnd, 1, 6, Some(50), 0), Vec::<usize>::new());
}

#[test]
fn yin_ranks_lowest_first_without_a_minimum_below_threshold() {
    let cmnd = keys(&[100, 40, 60, 20, 70, 30, 80]);
    assert_eq!(yin_select(&cmnd, 1, 6, None, 3), vec![3, 5, 1]);
    assert_eq!(yin_select(&cmnd, 1, 6, Some(0), 1), vec![3]);
    assert_eq!(yin_select(&cmnd, 1, 6, Some(20), 2), vec![3, 5]);
}

#[test]
fn yin_leads_with_the_shortest_lag_not_the_lowest_value() {
    let cmnd = keys(&[100, 50, 70, 10, 90]);
    assert_eq!(yin_select(&cmnd, 1, 4, Some(60), 2), vec![1, 3]);
}

#[test]
fn cepstral_peaks_are_merged_maxima() {
    let log_cepstrum = keys(&[9, 0, 5, 0, 6, 0, 0, 0, 4, 0]);
    assert_eq!(cepstral_peaks(&log_cepstrum, 1, 9), vec![4, 8]);
    assert_eq!(cepstral_peaks(&log_cepstrum, 1, 3), vec![2]);
}

#[test]
fn first_maximum_above_floor() {
    let data = vec![Some(9), Some(5), None, Some(7), Some(7), Some(2)];
    assert_eq!(first_maximum_above(&data, 1, 5, Some(i32::MIN)), Some(3));
    assert_eq!(first_maximum_above(&data, 0, 5, Some(0)), Some(0));
    assert_eq!(first_maximum_above(&data, 1, 5, Some(7)), None);
    assert_eq!(first_maximum_above(&data, 2, 2, Some(i32::MIN)), None);
    assert_eq!(first_maximum_above(&data, 0, 5, None), None);
}

#[test]
fn fewer_candidates_give_a_prefix() {
    let data = keys(&[4, 9, 1, 9, 6, 3, 8]);
    let items = [0, 1, 2, 3, 4, 5, 6];
    let all = top_ranked(&items, &data, true, 7);
    assert_eq!(all, vec![1, 3, 6, 4, 0, 5, 2]);
    for k in 0..=7 {
        assert_eq!(top_ranked(&items, &data, true, k), all[..k].to_vec());
    }
}
