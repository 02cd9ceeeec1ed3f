use radio_track_splitter::audio::{
    default_output_dir, default_prefix, duration_of, existing_tracks, is_named_like, mix_down,
    output_extension, probed_duration, read_wav, segments, tail, tail_of, to_mono, Wav, WavError,
};
use radio_track_splitter::paths::{extension, file_name, file_stem};

fn text(s: &str) -> Option<String> {
    Some(s.to_string())
}

#[test]
fn default_output_dir_is_music_splitter() {
    let dir = default_output_dir(text("user"), text("home"));
    assert!(dir.ends_with(&["Music".to_string(), "Splitter".to_string()]), "{dir:?}");
    assert_eq!(dir[0], "user");
    assert_eq!(default_output_dir(None, text("home")), ["home", "Music", "Splitter"]);
    let dir = default_output_dir(None, None);
    assert!(dir == ["tracks"], "{dir:?}");
}

#[test]
fn default_prefix_uses_the_input_name() {
    assert_eq!(default_prefix(r"C:\rec\Morning Show 2026-09-20.mp3"), "Morning Show 2026-09-20_track_");
    assert_eq!(default_prefix("a.b.mp3"), "a.b_track_");
}

#[test]
fn the_folder_does_not_matter_for_the_prefix() {
    let folders =
        ["", "a/", r"C:\", "C:", r"D:\rec\", r"\\server\share\", r"\\?\C:\rec\", r"..\.\", "/"];
    for folder in folders {
        assert_eq!(default_prefix(&format!("{folder}show.1.mp3")), "show.1_track_", "{folder}");
    }
    assert_eq!(default_prefix(r"C:\"), "_track_");
    // The name of a share is none of a file.
    assert_eq!(default_prefix(r"\\server\show.mp3"), "_track_");
}

#[test]
fn names_in_paths() {
    assert_eq!(file_name("/a/b/c.txt").as_deref(), Some("c.txt"));
    assert_eq!(file_name(r"C:\x\y.mp3").as_deref(), Some("y.mp3"));
    assert_eq!(file_name(r"C:\"), None);
    assert_eq!(file_name("a/b/").as_deref(), Some("b"));
    assert_eq!(file_name("a/.."), None);
    assert_eq!(file_name("a/.").as_deref(), Some("a"));
    assert_eq!(file_name("a/././").as_deref(), Some("a"));
    assert_eq!(file_name("."), None);
    assert_eq!(file_name("./x").as_deref(), Some("x"));
    assert_eq!(file_name(".."), None);
    assert_eq!(file_name("C:x.mp3").as_deref(), Some("x.mp3"));
    assert_eq!(file_name(r"\\server\share\x.mp3").as_deref(), Some("x.mp3"));
    assert_eq!(file_name(r"\\server\share"), None);
    assert_eq!(file_name("/"), None);
    assert_eq!(file_name(r"\\?\UNC\server\share"), None);
    assert_eq!(file_name(r"\\?\UNC\server"), None);
    assert_eq!(file_name(r"\\?\UNC\server\share\x.mp3").as_deref(), Some("x.mp3"));
    assert_eq!(file_name(r"\\?\C:\rec\x.mp3").as_deref(), Some("x.mp3"));
    assert_eq!(file_name(r"\\?\C:\rec/x.mp3").as_deref(), Some("rec/x.mp3"));
    assert_eq!(file_name(r"\\?\C:\rec\."), None);
    assert_eq!(file_name(r"\\?\C:\"), None);
    assert_eq!(file_name(r"\\?\volume"), None);
    assert_eq!(file_name(r"\\?\volume\x.mp3").as_deref(), Some("x.mp3"));
    assert_eq!(file_name(r"\\.\COM1"), None);
    assert_eq!(file_stem(".."), None);
    assert_eq!(file_stem("...").as_deref(), Some(".."));
    assert_eq!(file_name(""), None);
    assert_eq!(file_stem(".hidden").as_deref(), Some(".hidden"));
    assert_eq!(file_stem("x.tar.gz").as_deref(), Some("x.tar"));
    assert_eq!(extension("x.tar.gz").as_deref(), Some("gz"));
    assert_eq!(extension("x."), text(""));
    assert_eq!(extension("x"), None);
    assert_eq!(extension(".x"), None);
}

#[test]
fn tracks_keep_the_format_of_the_recording() {
    assert_eq!(output_extension(r"D:\rec\show.FLAC"), "FLAC");
    assert_eq!(output_extension("show"), "mp3");
}

#[test]
fn tracks_are_numbered_and_cover_the_recording() {
    let s = segments(&vec![100, 250], 400, "show_track_", "mp3");
    let all: Vec<(&str, i64, i64)> = s.iter().map(|s| (s.name.as_str(), s.start, s.end)).collect();
    assert_eq!(
        all,
        vec![
            ("show_track_001.mp3", 0, 100),
            ("show_track_002.mp3", 100, 250),
            ("show_track_003.mp3", 250, 400),
        ]
    );
    let many = segments(&vec![0; 999], 1, "t", "ogg");
    assert_eq!(many.len(), 1000);
    assert_eq!(many[0].name, "t0001.ogg");
    assert_eq!(many[999].name, "t1000.ogg");
}

#[test]
fn tracks_of_an_earlier_export_are_counted() {
    let names: Vec<String> =
        ["show_track_001.mp3", "show_track_002.MP3", "show_track_x.flac", "other_track_001.mp3", "show_track_mp3"]
            .iter()
            .map(|s| s.to_string())
            .collect();
    assert_eq!(existing_tracks(&names, "show_track_", "Mp3"), 2);
    assert_eq!(existing_tracks(&names, "show_track_", "flac"), 1);
    assert_eq!(existing_tracks(&Vec::new(), "show_track_", "mp3"), 0);
    assert!(is_named_like("Show.MP3", "show.mp3", "Sh", "mp3"));
    assert!(!is_named_like("Show.MP3", "show.mp3", "sh", "mp3"));
    assert!(!is_named_like("Show.MP3", "show.mp3", "Sh", "flac"));
}

fn wav(channels: u16, bits: u16, format: hound::SampleFormat, samples: &[i32]) -> Vec<u8> {
    let spec = hound::WavSpec { channels, sample_rate: 16000, bits_per_sample: bits, sample_format: format };
    let mut buffer = std::io::Cursor::new(Vec::new());
    let mut writer = hound::WavWriter::new(&mut buffer, spec).unwrap();
    for &s in samples {
        if format == hound::SampleFormat::Float {
            writer.write_sample(s as f32).unwrap();
        } else {
            writer.write_sample(s).unwrap();
        }
    }
    writer.finalize().unwrap();
    buffer.into_inner()
}

#[test]
fn wav_files_are_mixed_to_one_channel() {
    let whole = hound::SampleFormat::Int;
    assert_eq!(read_wav(&wav(1, 16, whole, &[1, -2, 3])), Ok(vec![1, -2, 3]));
    assert_eq!(read_wav(&wav(2, 16, whole, &[10, 13, -10, -13, 32767, 32767])), Ok(vec![11, -11, 32767]));
    assert_eq!(read_wav(&wav(1, 16, whole, &[])), Ok(vec![]));
}

#[test]
fn other_files_are_refused() {
    let whole = hound::SampleFormat::Int;
    assert_eq!(read_wav(b"no wav file at all"), Err(WavError::CouldNotOpen));
    assert_eq!(read_wav(&wav(1, 24, whole, &[1, 2])), Err(WavError::NotPcm16));
    assert_eq!(read_wav(&wav(1, 32, hound::SampleFormat::Float, &[1, 2])), Err(WavError::NotPcm16));
    let mut cut = wav(1, 16, whole, &[1, 2, 3]);
    cut.truncate(cut.len() - 1);
    assert_eq!(read_wav(&cut), Err(WavError::BadSample));
}

#[test]
fn decoded_files_are_judged_by_their_contents() {
    let good = Wav { channels: 3, bits: 16, integer: true, samples: Some(vec![1, 2, 4, -1, -2, -4, 9]) };
    assert_eq!(to_mono(Some(good)), Ok(vec![2, -2]));
    let float = Wav { channels: 1, bits: 16, integer: false, samples: Some(vec![]) };
    assert_eq!(to_mono(Some(float)), Err(WavError::NotPcm16));
    let broken = Wav { channels: 1, bits: 16, integer: true, samples: None };
    assert_eq!(to_mono(Some(broken)), Err(WavError::BadSample));
    assert_eq!(to_mono(None), Err(WavError::CouldNotOpen));
    assert_eq!(mix_down(&vec![-3, -4, 5, 6], 2), vec![-3, 5]);
}

#[test]
fn the_end_of_what_a_tool_printed() {
    assert_eq!(tail(b"  error: no such file\n\n"), "error: no such file");
    let long = format!("start{}", "x".repeat(500));
    assert_eq!(tail(long.as_bytes()), "x".repeat(500));
    let wide = "\u{20ac}".repeat(200);
    assert_eq!(tail(wide.as_bytes()), "\u{20ac}".repeat(166));
    assert_eq!(tail(b"a\xffb"), "a\u{fffd}b");
    assert_eq!(tail_of("\u{3000} x y \n"), "x y");
}

#[test]
fn the_duration_that_was_printed() {
    assert_eq!(probed_duration(b"3723.456000\r\n"), Some(3_723_456_000_000));
    assert_eq!(probed_duration(b"N/A\n"), None);
    assert_eq!(probed_duration(b"12\xff"), None);
    assert_eq!(duration_of(" 0.5 "), Some(500_000_000));
    assert_eq!(duration_of(""), None);
    assert_eq!(duration_of("2e308"), Some(i64::MAX));
    assert_eq!(duration_of("inf"), Some(i64::MAX));
    assert_eq!(duration_of("+InFiNiTy"), Some(i64::MAX));
    assert_eq!(duration_of("-inf"), Some(i64::MIN));
    assert_eq!(duration_of("NaN"), Some(0));
    assert_eq!(duration_of("infinit"), None);
}
