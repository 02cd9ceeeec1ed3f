use radio_track_splitter::cache::{
    file_name_for, hash, load, load_for, locations, save, CacheError, Embeddings,
};

fn sample() -> Embeddings {
    Embeddings { data: vec![0.5f32.to_bits(); 6], n: 3, dim: 2, hop: 0.96f64.to_bits() }
}

#[test]
fn round_trip_rejects_a_different_file_key() {
    let bytes = save((10, 20), &sample()).unwrap();
    let loaded = load(&bytes, (10, 20)).unwrap();
    assert_eq!((loaded.n, loaded.dim, loaded.data.len()), (3, 2, 6));
    assert!(load(&bytes, (10, 21)).is_none(), "modified file must miss");
    assert!(load(&bytes, (11, 20)).is_none(), "resized file must miss");
}

fn places(path: &str) -> Vec<Vec<String>> {
    locations(path, Some("exe".to_string()), None, Some("home".to_string()))
}

#[test]
fn each_input_gets_its_own_cache_file() {
    let a = places("a.mp3");
    let b = places("b.mp3");
    assert!(!a.is_empty());
    assert_ne!(a[0].last(), b[0].last());
    assert_eq!(a[0].last(), places("a.mp3")[0].last());
}

#[test]
fn the_file_has_a_fixed_layout() {
    let e = Embeddings { data: vec![0x04030201, 0xff], n: 1, dim: 2, hop: 0x3fee_b851_eb85_1eb8 };
    let bytes = save((1, 0x0102), &e).unwrap();
    let mut expected = b"VGGCACH1".to_vec();
    expected.extend([1, 0, 0, 0, 0, 0, 0, 0]);
    expected.extend([2, 1, 0, 0, 0, 0, 0, 0]);
    expected.extend([1, 0, 0, 0, 0, 0, 0, 0]);
    expected.extend([2, 0, 0, 0, 0, 0, 0, 0]);
    expected.extend([0xb8, 0x1e, 0x85, 0xeb, 0x51, 0xb8, 0xee, 0x3f]);
    expected.extend([1, 2, 3, 4, 0xff, 0, 0, 0]);
    assert_eq!(bytes, expected);
}

#[test]
fn what_is_saved_is_loaded() {
    let e = Embeddings { data: (0..12).collect(), n: 4, dim: 3, hop: 7 };
    let r = load(&save((5, 6), &e).unwrap(), (5, 6)).unwrap();
    assert_eq!((r.data, r.n, r.dim, r.hop), ((0..12).collect::<Vec<u32>>(), 4, 3, 7));
}

#[test]
fn a_wrong_size_is_not_saved() {
    let mut e = sample();
    e.n = 4;
    assert_eq!(save((1, 2), &e), Err(CacheError::WrongSize));
    e.n = usize::MAX;
    e.dim = usize::MAX;
    assert_eq!(save((1, 2), &e), Err(CacheError::WrongSize));
}

#[test]
fn damaged_files_are_not_loaded() {
    let bytes = save((1, 2), &sample()).unwrap();
    for len in 0..bytes.len() {
        assert!(load(&bytes[..len], (1, 2)).is_none());
    }
    let mut longer = bytes.clone();
    longer.push(0);
    assert!(load(&longer, (1, 2)).is_none());
    let mut other = bytes.clone();
    other[7] = b'2';
    assert!(load(&other, (1, 2)).is_none());
    let mut huge = bytes;
    huge[24..40].fill(0xff);
    assert!(load(&huge, (1, 2)).is_none());
}

#[test]
fn the_first_valid_file_is_taken() {
    let old = save((1, 1), &sample()).unwrap();
    let good = save((1, 2), &sample()).unwrap();
    let other = save((1, 2), &Embeddings { data: vec![], n: 0, dim: 2, hop: 0 }).unwrap();
    let found = load_for(&vec![None, Some(old.clone()), Some(good), Some(other)], (1, 2)).unwrap();
    assert_eq!(found.n, 3);
    assert!(load_for(&vec![Some(old), None], (1, 2)).is_none());
}

#[test]
fn the_hash_is_fnv1a() {
    assert_eq!(hash(b""), 0xcbf29ce484222325);
    assert_eq!(hash(b"a"), 0xaf63dc4c8601ec8c);
    assert_eq!(hash(b"foobar"), 0x85944171f73967e8);
    assert_eq!(file_name_for("foobar"), "vggish_cache_85944171f73967e8.bin");
}

#[test]
fn places_are_beside_the_program_and_in_the_folder_of_the_user() {
    let name = file_name_for("x");
    let text = |s: &str| Some(s.to_string());
    assert_eq!(
        locations("x", text("exe"), text("local"), text("home")),
        vec![
            vec!["exe".to_string(), name.clone()],
            vec!["local".to_string(), "radio-track-splitter".to_string(), name.clone()],
        ]
    );
    assert_eq!(
        locations("x", None, None, text("home")),
        vec![vec![
            "home".to_string(),
            ".cache".to_string(),
            "radio-track-splitter".to_string(),
            name,
        ]]
    );
    assert!(locations("x", None, None, None).is_empty());
}
