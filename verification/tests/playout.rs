use arp::playout::{spread, time_is_up, Pacer, PACE_SAMPLES};

#[test]
fn mono_goes_to_all_channels() {
    let mut data = [0i16; 6];
    spread(&[1, 2], 3, &mut data);
    assert_eq!(data, [1, 1, 1, 2, 2, 2]);
    let mut data = [0i16; 2];
    spread(&[1, 2], 1, &mut data);
    assert_eq!(data, [1, 2]);
    let mut none: [i16; 0] = [];
    spread(&[], 2, &mut none);
}

#[test]
fn pace_is_even_and_catches_up() {
    assert_eq!(PACE_SAMPLES, 480);
    let mut p = Pacer::new();
    assert_eq!(p.step(0), 10_000_000);
    assert_eq!(p.step(10_000_000), 10_000_000);
    assert_eq!(p.step(55_000_000), 0);
    assert_eq!(p.step(55_000_000), 0);
    assert_eq!(p.step(45_000_000), 5_000_000);
}

#[test]
fn duration_limits() {
    assert!(!time_is_up(0, u64::MAX));
    assert!(!time_is_up(2, 1_999_999_999));
    assert!(time_is_up(2, 2_000_000_000));
    assert!(!time_is_up(u64::MAX, u64::MAX));
}
