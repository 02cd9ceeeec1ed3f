use radio_track_splitter::title::{title_update, window_title, APP_NAME};

#[test]
fn title_is_the_program_name_and_the_file_name_without_its_folder() {
    assert_eq!(window_title(None), "Radio Track Splitter");
    assert_eq!(
        window_title(Some(r"C:\Users\anton\Music\Morning Show 2026.mp3")),
        "Radio Track Splitter - Morning Show 2026.mp3"
    );
    // The extension stays; only the folder is dropped.
    assert_eq!(window_title(Some("clip.m4a")), "Radio Track Splitter - clip.m4a");
    // A path with no file name (e.g. a drive root) falls back to the plain name.
    assert_eq!(window_title(Some(r"C:\")), "Radio Track Splitter");
}

#[test]
fn the_title_is_only_sent_when_it_changes() {
    let mut current = APP_NAME.to_string();
    assert_eq!(title_update(&mut current, None), None, "nothing open: already correct");

    let a = r"D:\rec\a.mp3";
    assert_eq!(
        title_update(&mut current, Some(a)).as_deref(),
        Some("Radio Track Splitter - a.mp3")
    );
    assert_eq!(title_update(&mut current, Some(a)), None, "same file: no repeat");

    let b = r"D:\rec\b.flac";
    assert_eq!(
        title_update(&mut current, Some(b)).as_deref(),
        Some("Radio Track Splitter - b.flac")
    );
    assert_eq!(current, "Radio Track Splitter - b.flac");
}
