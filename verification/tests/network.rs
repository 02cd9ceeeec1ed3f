use radio_track_splitter::detect::snap_to_energy_minimum;
use radio_track_splitter::pipeline::{default_scales, find_candidates, scale_window};
use radio_track_splitter::vggish::{
    band_range, batches, choose_weights, convolutions, dense, example_count, frame_count,
    weights_places, Batch, WeightsError, WeightsStep, HOP_TIME,
};

#[test]
fn frames_and_examples_of_samples() {
    assert_eq!(frame_count(0), 0);
    assert_eq!(frame_count(399), 0);
    assert_eq!(frame_count(400), 1);
    assert_eq!(frame_count(559), 1);
    assert_eq!(frame_count(560), 2);
    assert_eq!(example_count(95), 0);
    assert_eq!(example_count(96), 1);
    assert_eq!(example_count(191), 1);
    assert_eq!(example_count(192), 2);
}

#[test]
fn batches_hold_every_example_once() {
    assert!(batches(0).is_empty());
    assert_eq!(batches(32), [Batch { start: 0, count: 32 }]);
    assert_eq!(
        batches(70),
        [
            Batch { start: 0, count: 32 },
            Batch { start: 32, count: 32 },
            Batch { start: 64, count: 6 },
        ]
    );
}

#[test]
fn layers_fit_together() {
    let convs = convolutions();
    let (mut planes, mut h, mut w) = (1, 96, 64);
    for c in &convs {
        assert_eq!(c.inputs, planes);
        planes = c.outputs;
        if c.pooled {
            h /= 2;
            w /= 2;
        }
    }
    let mut width = planes * h * w;
    assert_eq!(width, 512 * 4 * 6);
    for d in &dense() {
        assert_eq!(d.inputs, width);
        width = d.outputs;
    }
    assert_eq!(width, 128);
    assert_eq!(convs.iter().map(|c| c.index).collect::<Vec<_>>(), [0, 3, 6, 8, 11, 13]);
}

#[test]
fn bands_are_the_frequencies_that_count() {
    assert_eq!(band_range(&vec![false, true, false, true, false]), (1, 4));
    assert_eq!(band_range(&vec![false; 5]), (0, 0));
    assert_eq!(band_range(&vec![true]), (0, 1));
}

fn text(s: &str) -> Option<String> {
    Some(s.to_string())
}

#[test]
fn weights_are_looked_for_in_order() {
    let p = weights_places(text("exe"), text("user"), text("home"), text("local"));
    let name = "vggish-10086976.pth";
    assert_eq!(
        p.candidates,
        vec![
            vec!["exe", name],
            vec!["user", ".cache/torch/hub/checkpoints", name],
            vec!["local", "radio-track-splitter", name],
            vec!["local", "split_radio", name],
        ]
    );
    let d = p.download.unwrap();
    assert_eq!(d.folder, ["local", "radio-track-splitter"]);
    assert_eq!(d.own, ["local", "radio-track-splitter", name]);
    assert_eq!(d.partial, ["local", "radio-track-splitter", "vggish-10086976.partial"]);

    let p = weights_places(None, None, text("home"), None);
    assert_eq!(p.candidates[0], ["home", ".cache/torch/hub/checkpoints", name]);
    assert_eq!(p.candidates[1], ["home", ".cache", "radio-track-splitter", name]);
    let p = weights_places(text("exe"), None, None, None);
    assert_eq!(p.candidates, vec![vec!["exe", name]]);
    assert!(p.download.is_none());
    assert!(weights_places(None, None, None, None).candidates.is_empty());
}

#[test]
fn weights_are_taken_or_downloaded() {
    assert_eq!(choose_weights(Some(true), &vec![true], true), Ok(WeightsStep::Given));
    assert_eq!(choose_weights(Some(false), &vec![true], true), Err(WeightsError::NotFound));
    assert_eq!(choose_weights(None, &vec![false, true, true], true), Ok(WeightsStep::Take(1)));
    assert_eq!(choose_weights(None, &vec![true], false), Ok(WeightsStep::Take(0)));
    assert_eq!(choose_weights(None, &vec![false, false], true), Ok(WeightsStep::Download));
    assert_eq!(choose_weights(None, &vec![false, false], false), Err(WeightsError::NoFolder));
}

#[test]
fn scales_in_embeddings() {
    let s = default_scales();
    assert_eq!(s, [8_000_000_000, 15_000_000_000, 25_000_000_000]);
    let windows: Vec<u64> = s.iter().map(|&t| scale_window(t, HOP_TIME)).collect();
    assert_eq!(windows, [8, 16, 26]);
    assert_eq!(scale_window(0, HOP_TIME), 1);
    assert_eq!(scale_window(-5, HOP_TIME), 1);
    assert_eq!(scale_window(5, 2), 2);
    assert_eq!(scale_window(7_000_000_000, 2_000_000_000), 4);
}

#[test]
fn candidates_are_peaks_and_the_quiet_spots_beside_them() {
    let mut score = vec![0.0f64; 30];
    score[5] = 2.0;
    score[7] = 3.0;
    score[20] = 1.6;
    score[25] = 1.4;
    let bits: Vec<u64> = score.iter().map(|v| v.to_bits()).collect();
    let mut samples = vec![5000i16; 16000 * 30];
    samples[16000 * 7..16000 * 7 + 2000].fill(0);
    let found = find_candidates(
        &bits,
        HOP_TIME,
        &samples,
        1.5f64.to_bits(),
        4_800_000_000,
        3_000_000_000,
    );
    assert_eq!(found.iter().map(|c| c.raw).collect::<Vec<_>>(), [7 * HOP_TIME, 20 * HOP_TIME]);
    assert_eq!(found[0].score, 3.0f64.to_bits());
    for c in &found {
        assert_eq!(c.snapped, snap_to_energy_minimum(&samples, 16000, c.raw, 3_000_000_000));
    }
    assert!((found[0].snapped - 7_062_500_000).abs() < 100_000_000);
}

#[test]
fn candidates_lie_apart_by_the_length_of_a_track() {
    let mut score = vec![0.0f64; 300];
    score[1] = 2.0;
    score[127] = 3.0;
    score[254] = 2.0;
    let bits: Vec<u64> = score.iter().map(|v| v.to_bits()).collect();
    let find = |length: i64| -> Vec<i64> {
        find_candidates(&bits, HOP_TIME, &[], 1.5f64.to_bits(), length, 0)
            .iter()
            .map(|c| c.raw / HOP_TIME)
            .collect()
    };
    // 126 embeddings are 120.96 seconds.
    assert_eq!(find(120_960_000_000), [1, 127, 254]);
    assert_eq!(find(121_000_000_000), [127, 254]);
    assert_eq!(find(120_000_000_000), [1, 127, 254]);
    assert_eq!(find(-5), [1, 127, 254]);
}
