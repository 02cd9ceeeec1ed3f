use radio_track_splitter::detect::{find_peaks, quietest_frame, sides, snap_to_energy_minimum, Sides};
use radio_track_splitter::order::{order_key, sort, sort_pairs};

fn bits(x: &[f64]) -> Vec<u64> {
    x.iter().map(|v| v.to_bits()).collect()
}

fn peaks(x: &[f64], min_height: f64, distance: usize) -> Vec<usize> {
    find_peaks(&bits(x), min_height.to_bits(), distance)
}

fn ns(seconds: f64) -> i64 {
    (seconds * 1e9).round() as i64
}

#[test]
fn peaks_match_scipy() {
    // Expected values generated with scipy.signal.find_peaks.
    let x = [
        0.0, 0.3, 0.1, 0.9, 0.9, 0.2, 0.5, 0.4, 1.2, 0.3, 0.3, 0.8, 0.1, 0.6, 2.0, 0.6, 0.7, 0.1,
        0.0,
    ];
    assert_eq!(peaks(&x, 0.0, 1), vec![1, 3, 6, 8, 11, 14, 16]);
}

#[test]
fn distance_keeps_highest_first() {
    let mut x = vec![0.0; 40];
    x[5] = 1.0;
    x[10] = 3.0;
    x[14] = 2.0;
    x[30] = 1.5;
    assert_eq!(peaks(&x, 0.5, 8), vec![10, 30]);
    assert_eq!(peaks(&x, 1.6, 1), vec![10, 14]);
}

#[test]
fn snap_finds_quiet_gap() {
    let sr = 16000;
    let mut s = vec![16384i16; sr * 10];
    for v in &mut s[sr * 5..sr * 5 + 4000] {
        *v = 0;
    }
    let t = snap_to_energy_minimum(&s, sr, ns(5.5), ns(3.0)) as f64 / 1e9;
    assert!((t - 5.12).abs() < 0.2, "got {t}");
}

#[test]
fn of_equally_high_peaks_the_later_one_stays() {
    let x = [0.0, 1.0, 0.0, 1.0, 0.0];
    assert_eq!(peaks(&x, 0.0, 3), vec![3]);
    assert_eq!(peaks(&x, 0.0, 2), vec![1, 3]);
}

#[test]
fn a_dropped_peak_does_not_drop_others() {
    // The middle peak loses to the right one, so the left one stays.
    let mut x = vec![0.0; 20];
    x[4] = 1.0;
    x[8] = 2.0;
    x[12] = 3.0;
    assert_eq!(peaks(&x, 0.0, 5), vec![4, 12]);
}

#[test]
fn a_level_stretch_peaks_in_its_middle() {
    assert_eq!(peaks(&[0.0, 2.0, 2.0, 2.0, 2.0, 1.0], 0.0, 1), vec![2]);
    assert_eq!(peaks(&[0.0, 2.0, 2.0], 0.0, 1), Vec::<usize>::new());
    assert_eq!(peaks(&[2.0, 2.0, 0.0], 0.0, 1), Vec::<usize>::new());
    assert_eq!(peaks(&[1.0, 2.0], 0.0, 1), Vec::<usize>::new());
    assert_eq!(peaks(&[], 0.0, 1), Vec::<usize>::new());
}

#[test]
fn peaks_below_zero_and_numbers_that_are_none() {
    assert_eq!(peaks(&[-3.0, -1.0, -2.0], -1.5, 1), vec![1]);
    assert_eq!(peaks(&[-3.0, -1.0, -2.0], -0.5, 1), Vec::<usize>::new());
    assert_eq!(peaks(&[0.0, 1.0, f64::NAN, 1.0, 0.0], 0.0, 1), Vec::<usize>::new());
    assert_eq!(peaks(&[0.0, 1.0, 0.0], f64::NAN, 1), Vec::<usize>::new());
    assert_eq!(peaks(&[0.0, f64::INFINITY, 0.0], 5.0, 1), vec![1]);
}

#[test]
fn keys_are_ordered_as_numbers_are() {
    let numbers = [
        f64::NEG_INFINITY,
        -1e300,
        -2.5,
        -1.0,
        -f64::MIN_POSITIVE,
        -5e-324,
        0.0,
        5e-324,
        f64::MIN_POSITIVE,
        0.5,
        1.0,
        1.0000000000000002,
        1e300,
        f64::INFINITY,
    ];
    for pair in numbers.windows(2) {
        assert!(order_key(pair[0].to_bits()).unwrap() < order_key(pair[1].to_bits()).unwrap());
    }
    assert_eq!(order_key((-0.0f64).to_bits()), order_key(0.0f64.to_bits()));
    assert_eq!(order_key(f64::NAN.to_bits()), None);
    assert_eq!(order_key((-f64::NAN).to_bits()), None);
}

#[test]
fn sorting() {
    assert_eq!(sort(&vec![3, -1, 3, 2]), vec![-1, 2, 3, 3]);
    assert_eq!(
        sort_pairs(vec![(2, 0), (1, 1), (2, 2), (1, 0), (0, 9)]),
        vec![(0, 9), (1, 0), (1, 1), (2, 0), (2, 2)]
    );
}

#[test]
fn the_first_of_the_quietest_frames_is_taken() {
    assert_eq!(quietest_frame(&[0i16; 2000], 0, 2000), 0);
    let mut s = vec![100i16; 4096];
    for v in &mut s[1536..2560] {
        *v = 1;
    }
    assert_eq!(quietest_frame(&s, 0, 4096), 8);
}

#[test]
fn too_little_to_search_leaves_the_time() {
    let s = vec![1i16; 16000];
    assert_eq!(snap_to_energy_minimum(&s, 16000, ns(0.5), ns(0.01)), ns(0.5));
    assert_eq!(snap_to_energy_minimum(&s, 16000, ns(9.0), ns(1.0)), ns(9.0));
    assert_eq!(snap_to_energy_minimum(&s, 0, ns(9.0), ns(1.0)), ns(9.0));
    assert_eq!(snap_to_energy_minimum(&[], 16000, ns(1.0), ns(1.0)), ns(1.0));
}

#[test]
fn snapping_stays_in_the_window() {
    let mut s = vec![1000i16; 160_000];
    s[150_000..].fill(0);
    let t = snap_to_energy_minimum(&s, 16000, ns(5.0), ns(1.0));
    assert!(t >= ns(4.0) - 62_501 && t <= ns(6.0));
}

#[test]
fn sides_lie_inside() {
    assert_eq!(sides(10, 3, 2), None);
    assert_eq!(sides(10, 3, 3), Some(Sides { from: 0, at: 3, to: 6 }));
    assert_eq!(sides(10, 3, 6), Some(Sides { from: 3, at: 6, to: 9 }));
    assert_eq!(sides(10, 3, 7), None);
    assert_eq!(sides(10, 5, 5), None);
    assert_eq!(sides(3, 8, 1), None);
}
