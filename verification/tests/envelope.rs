use radio_track_splitter::envelope::{Envelope, FULL_SCALE, RATE};

const SAMPLE_RATE: usize = 16000;
const SECOND: i64 = 1_000_000_000;

fn amplitudes(columns: &[(i16, i16)]) -> Vec<(f32, f32)> {
    columns.iter().map(|&(lo, hi)| (lo as f32 / 32768.0, hi as f32 / 32768.0)).collect()
}

#[test]
fn columns_cover_min_and_max() {
    let mut s = vec![0i16; SAMPLE_RATE * 2];
    s[SAMPLE_RATE] = 16384;
    s[SAMPLE_RATE + 100] = -8192;
    let env = Envelope::from_samples(&s);
    let cols = amplitudes(&env.columns(0, 2 * SECOND, 2));
    assert_eq!(cols[0], (0.0, 0.0));
    assert_eq!(cols[1], (-0.25, 0.5));
}

#[test]
fn zoomed_in_columns_repeat_bins() {
    let s: Vec<i16> =
        (0..SAMPLE_RATE).map(|i| ((i as f32 / 100.0).sin() * 20000.0) as i16).collect();
    let env = Envelope::from_samples(&s);
    assert_eq!(env.columns(0, SECOND / 100, 50).len(), 50);
}

#[test]
fn no_samples_and_no_columns() {
    let env = Envelope::from_samples(&[]);
    assert_eq!(env.gain_ref, FULL_SCALE);
    assert!(env.columns(0, SECOND, 10).is_empty());
    let env = Envelope::from_samples(&[1, 2, 3]);
    assert!(env.columns(0, SECOND, 0).is_empty());
    assert_eq!((env.lo.clone(), env.hi.clone()), (vec![1], vec![3]));
}

#[test]
fn the_gain_is_the_swing_of_999_in_1000_bins() {
    // 2000 bins that swing by 0, 1, 2, ...: place 1997 of the order.
    let mut s = vec![0i16; 2000 * 32];
    for i in 0..2000 {
        s[i * 32 + 5] = -(i as i16);
    }
    let env = Envelope::from_samples(&s);
    assert_eq!(env.lo.len(), 2000);
    assert_eq!(env.gain_ref, 1997 * 1000);
}

#[test]
fn the_gain_is_a_thousandth_at_least() {
    let env = Envelope::from_samples(&[3i16; 100]);
    assert_eq!(env.gain_ref, 32768);
    assert_eq!(env.gain_ref as f32 / FULL_SCALE as f32, 1e-3);
    let env = Envelope::from_samples(&[i16::MIN; 10]);
    assert_eq!(env.gain_ref, FULL_SCALE);
}

#[test]
fn columns_outside_of_the_recording_repeat_its_ends() {
    let s: Vec<i16> = (0..3200).map(|i| (i / 32) as i16).collect();
    let env = Envelope::from_samples(&s);
    assert_eq!(env.columns(-2 * SECOND, -SECOND, 1), vec![(0, 0)]);
    assert_eq!(env.columns(5 * SECOND, 6 * SECOND, 2), vec![(99, 99), (99, 99)]);
    assert_eq!(env.columns(0, 20_000_000, 5), vec![(0, 1), (2, 3), (4, 5), (6, 7), (8, 9)]);
    assert_eq!(env.columns(20_000_000, 0, 2), vec![(10, 10), (5, 5)]);
    assert_eq!(RATE, 500);
}

#[test]
fn every_sample_is_inside_of_the_outline() {
    let s: Vec<i16> = (0..1000i32).map(|i| ((i * 7919) % 60000 - 30000) as i16).collect();
    let env = Envelope::from_samples(&s);
    for (i, &v) in s.iter().enumerate() {
        assert!(env.lo[i / 32] <= v && v <= env.hi[i / 32]);
    }
}

#[test]
fn the_last_column_reaches_the_end_of_the_recording() {
    let mut s = vec![0i16; 64];
    s[63] = 16384;
    let env = Envelope::from_samples(&s);
    assert_eq!(amplitudes(&env.columns(0, 4_000_000, 1)), vec![(0.0, 0.5)]);
    assert_eq!(env.columns(0, 9_000_000, 1), vec![(0, 16384)]);
    assert_eq!(env.columns(0, 4_000_000, 2), vec![(0, 0), (0, 16384)]);
    assert_eq!(env.columns(0, 2_000_000, 1), vec![(0, 0)]);
    // A recording that ends inside of its last bin.
    let mut s = vec![0i16; 45];
    s[44] = -7;
    let env = Envelope::from_samples(&s);
    assert_eq!(env.columns(0, 45 * 62_500, 1), vec![(-7, 0)]);
}
