use divisor_db::search::{
    candidate_passes, contains_zero, find_divisor, resolve_record, Claim, SearchEpisode,
    SearchError, SENTINEL,
};

#[test]
fn zero_hash_gives_sentinel_for_every_start() {
    let record = [12, 0, -7, 35];
    for div_start in [i32::MIN, -5, 0, 1, 2, 1000, i32::MAX] {
        assert_eq!(resolve_record(&record, div_start), Ok(SENTINEL));
    }
    assert_eq!(resolve_record(&[0], 1), Ok(0));
}

#[test]
fn contains_zero_scans_every_row() {
    assert!(!contains_zero(&[]));
    assert!(!contains_zero(&[1, -1, i32::MIN, i32::MAX]));
    assert!(contains_zero(&[1, 2, 3, 0]));
    assert!(contains_zero(&[0, 2, 3]));
}

#[test]
fn candidate_passes_when_it_divides_none() {
    assert!(candidate_passes(2, &[7, 9, -3]));
    assert!(!candidate_passes(3, &[7, 9, -3]));
    assert!(!candidate_passes(7, &[7]));
    assert!(!candidate_passes(7, &[-7]));
    assert!(!candidate_passes(1, &[5]));
    assert!(candidate_passes(1, &[]));
    assert!(!candidate_passes(2, &[i32::MIN]));
    assert!(candidate_passes(3, &[i32::MIN]));
    assert!(!candidate_passes(i32::MAX, &[i32::MAX]));
    assert!(!candidate_passes(i32::MAX, &[-i32::MAX]));
}

#[test]
fn single_worker_finds_least_divisor() {
    assert_eq!(find_divisor(&[7], 1), Some(2));
    assert_eq!(find_divisor(&[6], 1), Some(4));
    assert_eq!(find_divisor(&[12, 10], 1), Some(7));
    assert_eq!(find_divisor(&[12, 10], 8), Some(8));
    assert_eq!(find_divisor(&[-30], 1), Some(4));
    assert_eq!(find_divisor(&[], 1), Some(1));
    assert_eq!(find_divisor(&[], 17), Some(17));
}

#[test]
fn start_below_one_begins_at_one() {
    assert_eq!(find_divisor(&[7], 0), Some(2));
    assert_eq!(find_divisor(&[7], -100), Some(2));
    assert_eq!(find_divisor(&[], i32::MIN), Some(1));
}

#[test]
fn result_is_not_below_start_and_divides_none() {
    let records: [&[i32]; 4] = [&[7, 11, 13], &[60, 84], &[-2, 3, -5, 7], &[1]];
    for record in records {
        for div_start in [1, 2, 3, 10, 50] {
            let r = resolve_record(record, div_start).unwrap();
            assert!(r != 0);
            assert!(r >= div_start);
            for h in record {
                assert!(h % r != 0);
            }
        }
    }
}

#[test]
fn search_is_exhausted_at_the_largest_value() {
    assert_eq!(find_divisor(&[i32::MAX], i32::MAX), None);
    assert_eq!(resolve_record(&[i32::MAX], i32::MAX), Err(SearchError::Exhausted));
    assert_eq!(resolve_record(&[i32::MAX - 1], i32::MAX), Ok(i32::MAX));
    assert_eq!(resolve_record(&[i32::MAX, i32::MAX - 1], i32::MAX - 1), Err(SearchError::Exhausted));
}

#[test]
fn episode_hands_out_each_candidate_once() {
    let mut episode = SearchEpisode::new(5);
    assert_eq!(episode.claim(), Claim::Candidate(5));
    assert_eq!(episode.claim(), Claim::Candidate(6));
    assert_eq!(episode.claim(), Claim::Candidate(7));
    assert_eq!(episode.outcome(), None);
    episode.report_pass(6);
    assert_eq!(episode.claim(), Claim::Found);
    assert_eq!(episode.outcome(), Some(6));
}

#[test]
fn episode_keeps_the_last_store() {
    let mut episode = SearchEpisode::new(1);
    assert_eq!(episode.claim(), Claim::Candidate(1));
    assert_eq!(episode.claim(), Claim::Candidate(2));
    assert_eq!(episode.claim(), Claim::Candidate(3));
    episode.report_pass(3);
    episode.report_pass(2);
    assert_eq!(episode.outcome(), Some(2));
}

#[test]
fn episode_runs_out_after_the_largest_candidate() {
    let mut episode = SearchEpisode::new(i32::MAX - 1);
    assert_eq!(episode.claim(), Claim::Candidate(i32::MAX - 1));
    assert_eq!(episode.claim(), Claim::Candidate(i32::MAX));
    assert_eq!(episode.claim(), Claim::Exhausted);
    assert_eq!(episode.claim(), Claim::Exhausted);
    assert_eq!(episode.outcome(), None);
}

#[test]
fn episode_with_start_below_one_begins_at_one() {
    let mut episode = SearchEpisode::new(-3);
    assert_eq!(episode.claim(), Claim::Candidate(1));
    let mut episode = SearchEpisode::new(0);
    assert_eq!(episode.claim(), Claim::Candidate(1));
}

#[test]
fn racing_workers_settle_on_a_qualifying_divisor() {
    let record = [7, 11, 13, 61];
    let mut episode = SearchEpisode::new(2);
    let mut claimed = Vec::new();
    for _ in 0..4 {
        if let Claim::Candidate(c) = episode.claim() {
            claimed.push(c);
        }
    }
    assert_eq!(claimed, vec![2, 3, 4, 5]);
    for c in claimed {
        if candidate_passes(c, &record) {
            episode.report_pass(c);
        }
    }
    assert_eq!(episode.claim(), Claim::Found);
    let r = episode.outcome().unwrap();
    assert_eq!(r, 5);
    assert!(r >= 2);
    for h in record {
        assert!(h % r != 0);
    }
}
