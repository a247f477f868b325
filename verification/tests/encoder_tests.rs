use divisor_db::encoder::{
    encode_results, encode_tracked, rebase, rebase_results, track_results, EncodeError, MinMax,
};

#[test]
fn least_result_maps_to_one() {
    assert_eq!(encode_results(&[5, 9, 7]), Ok(vec![1, 5, 3]));
    assert_eq!(encode_results(&[9, 7, 5]), Ok(vec![5, 3, 1]));
}

#[test]
fn sentinel_maps_to_zero() {
    assert_eq!(encode_results(&[0, 5, 0, 9]), Ok(vec![0, 1, 0, 5]));
    assert_eq!(encode_results(&[0, 0, 0]), Ok(vec![0, 0, 0]));
    assert_eq!(encode_results(&[]), Ok(vec![]));
}

#[test]
fn every_other_result_maps_to_distance_plus_one() {
    let results = [100, 0, 250, 100, 101, 65634];
    let table = encode_results(&results).unwrap();
    let min = 100;
    for (r, e) in results.iter().zip(table.iter()) {
        if *r == 0 {
            assert_eq!(*e, 0);
        } else {
            assert_eq!(*e as i32, r - min + 1);
        }
    }
    assert_eq!(table[5], 65535);
}

#[test]
fn encoder_fails_above_sixteen_bits() {
    assert_eq!(encode_results(&[1, 65535]), Ok(vec![1, 65535]));
    assert_eq!(encode_results(&[1, 65536]), Err(EncodeError::OutOfBand { index: 1 }));
    assert_eq!(encode_results(&[65536, 0, 1]), Err(EncodeError::OutOfBand { index: 0 }));
    assert_eq!(encode_results(&[2, 3, 70000, 80000]), Err(EncodeError::OutOfBand { index: 2 }));
}

#[test]
fn encoder_handles_the_widest_band() {
    assert_eq!(encode_results(&[i32::MIN, i32::MAX]), Err(EncodeError::OutOfBand { index: 1 }));
    assert_eq!(encode_results(&[i32::MAX, i32::MAX]), Ok(vec![1, 1]));
    assert_eq!(encode_results(&[-3, -1]), Ok(vec![1, 3]));
}

#[test]
fn rebase_one_value() {
    assert_eq!(rebase(0, 17), Some(0));
    assert_eq!(rebase(17, 17), Some(1));
    assert_eq!(rebase(20, 17), Some(4));
    assert_eq!(rebase(17 + 65534, 17), Some(65535));
    assert_eq!(rebase(17 + 65535, 17), None);
    assert_eq!(rebase(16, 17), None);
    assert_eq!(rebase(15, 17), None);
    assert_eq!(rebase(i32::MAX, i32::MIN), None);
}

#[test]
fn rebase_results_against_a_given_base() {
    assert_eq!(rebase_results(&[3, 0, 4], 3), Ok(vec![1, 0, 2]));
    assert_eq!(rebase_results(&[3, 0, 1], 3), Err(EncodeError::OutOfBand { index: 2 }));
}

#[test]
fn tracker_skips_sentinels() {
    let mut tracker = MinMax::new();
    assert_eq!(tracker.min(), None);
    assert_eq!(tracker.max(), None);
    tracker.observe(0);
    assert_eq!(tracker.min(), None);
    tracker.observe(9);
    assert_eq!((tracker.min(), tracker.max()), (Some(9), Some(9)));
    tracker.observe(4);
    tracker.observe(0);
    tracker.observe(12);
    assert_eq!((tracker.min(), tracker.max()), (Some(4), Some(12)));
}

#[test]
fn tracked_bounds_of_a_sequence() {
    let tracker = track_results(&[0, 8, 3, 0, 11, 3]);
    assert_eq!((tracker.min(), tracker.max()), (Some(3), Some(11)));
    assert_eq!(encode_tracked(&[0, 8, 3, 0, 11, 3], &tracker), Ok(vec![0, 6, 1, 0, 9, 1]));
    let none = track_results(&[0, 0]);
    assert_eq!((none.min(), none.max()), (None, None));
}

#[test]
fn band_is_decided_by_the_bounds() {
    for results in [vec![1, 65535], vec![1, 65536], vec![10, 0, 20], vec![5, 70000, 6]] {
        let tracker = track_results(&results);
        let within = tracker.max().unwrap() as i64 - tracker.min().unwrap() as i64 + 1 <= 65535;
        assert_eq!(encode_results(&results).is_ok(), within);
    }
}
