use radio_track_splitter::pickle::{Cursor, Obj, PickleError};
use radio_track_splitter::torch_legacy::{is_legacy, read_header, Claim, LoadError, StateDict};
use radio_track_splitter::unpickle::run_pickle;

fn run(bytes: &[u8]) -> Result<Obj, PickleError> {
    let mut c = Cursor { bytes, pos: 0 };
    run_pickle(&mut c)
}

fn fault(bytes: &[u8]) -> PickleError {
    match run(bytes) {
        Err(e) => e,
        Ok(_) => panic!("read"),
    }
}

/// Where the cursor stands behind a pickle that could not be read.
fn stop(bytes: &[u8]) -> usize {
    let mut c = Cursor { bytes, pos: 0 };
    assert!(run_pickle(&mut c).is_err());
    c.pos
}

#[test]
fn the_cursor_stays_where_reading_failed() {
    assert_eq!(stop(b"J\x01"), 1);
    assert_eq!(stop(b"X\x05\0\0\0ab"), 5);
    assert_eq!(stop(b"X\x01\0\0\0\xff."), 6);
    assert_eq!(stop(b"cab\nc"), 4);
    assert_eq!(stop(b"\x8a\x05ab"), 2);
    assert_eq!(stop(b"NN\xfe"), 3);
    assert_eq!(stop(b"K\x01tN"), 3);
    assert_eq!(stop(b"."), 1);
}

fn integer(o: &Obj) -> i64 {
    match o {
        Obj::Int(v) => *v,
        _ => panic!("no integer"),
    }
}

#[test]
fn numbers_are_read() {
    assert_eq!(integer(&run(b"K\xff.").ok().unwrap()), 255);
    assert_eq!(integer(&run(b"M\x01\x02.").ok().unwrap()), 0x0201);
    assert_eq!(integer(&run(b"J\xfe\xff\xff\xff.").ok().unwrap()), -2);
    assert_eq!(integer(&run(b"\x80\x02\x8a\x02\x01\x80.").ok().unwrap()), 0x8001);
    assert_eq!(integer(&run(b"\x8a\x0a\x01\0\0\0\0\0\0\x80\x05\x06.").ok().unwrap()), i64::MIN + 1);
    assert_eq!(integer(&run(b"\x8a\x00.").ok().unwrap()), 0);
}

#[test]
fn containers_are_built() {
    match run(b"(K\x01K\x02K\x03t.") {
        Ok(Obj::Tuple(items)) => assert_eq!(items.iter().map(integer).collect::<Vec<_>>(), [1, 2, 3]),
        _ => panic!("no tuple"),
    }
    match run(b"](K\x01K\x02eK\x03a.") {
        Ok(Obj::List(items)) => assert_eq!(items.iter().map(integer).collect::<Vec<_>>(), [1, 2, 3]),
        _ => panic!("no list"),
    }
    match run(b"}(K\x01K\x02K\x03K\x04K\x05uK\x06K\x07s.") {
        Ok(Obj::Dict(pairs)) => {
            let all: Vec<(i64, i64)> = pairs.iter().map(|(k, v)| (integer(k), integer(v))).collect();
            assert_eq!(all, [(1, 2), (3, 4), (6, 7)]);
        }
        _ => panic!("no dict"),
    }
    match run(b"K\x01\x85K\x02K\x03\x86K\x04\x87.") {
        Ok(Obj::Tuple(items)) => {
            assert_eq!(items.len(), 3);
            assert!(matches!(&items[0], Obj::Tuple(one) if one.len() == 1 && integer(&one[0]) == 1));
            assert!(matches!(&items[1], Obj::Tuple(two) if two.len() == 2 && integer(&two[1]) == 3));
            assert_eq!(integer(&items[2]), 4);
        }
        _ => panic!("no tuple"),
    }
}

#[test]
fn the_memo_gives_copies() {
    match run(b"K\x07q\x05K\x08r\x06\0\0\0h\x05j\x06\0\0\0\x87.") {
        Ok(Obj::Tuple(items)) => assert_eq!(items.iter().map(integer).collect::<Vec<_>>(), [8, 7, 8]),
        _ => panic!("no tuple"),
    }
}

#[test]
fn strings_and_globals() {
    match run(b"X\x02\0\0\0ab.") {
        Ok(Obj::Str(s)) => assert_eq!(s, "ab"),
        _ => panic!("no text"),
    }
    match run(b"\x8c\x03\xe2\x82\xac.") {
        Ok(Obj::Str(s)) => assert_eq!(s, "\u{20ac}"),
        _ => panic!("no text"),
    }
    match run(b"ca\xffb\nc\n.") {
        Ok(Obj::Global(s)) => assert_eq!(s, "a\u{fffd}b.c"),
        _ => panic!("no global"),
    }
    match run(b"ccollections\nOrderedDict\n)RNb.") {
        Ok(Obj::Dict(pairs)) => assert!(pairs.is_empty()),
        _ => panic!("no dict"),
    }
}

fn storage(key: &str) -> Vec<u8> {
    let mut out = b"(X\x07\0\0\0storagectorch\nFloatStorage\n".to_vec();
    out.extend(b"X");
    out.extend((key.len() as u32).to_le_bytes());
    out.extend(key.as_bytes());
    out.extend(b"X\x03\0\0\0cpuK\x06Nt");
    out
}

fn rebuild(args: &[u8]) -> Vec<u8> {
    let mut out = b"ctorch._utils\n_rebuild_tensor_v2\n".to_vec();
    out.extend(args);
    out.extend(b"R");
    out
}

fn tensor(key: &str, offset: u8, shape: (u8, u8), stride: (u8, u8)) -> Vec<u8> {
    let mut args = b"(".to_vec();
    args.extend(storage(key));
    args.extend(b"Q");
    args.extend([b'K', offset, b'K', shape.0, b'K', shape.1, 0x86]);
    args.extend([b'K', stride.0, b'K', stride.1, 0x86]);
    args.extend(b"\x89ccollections\nOrderedDict\n)Rt");
    rebuild(&args)
}

#[test]
fn each_fault_has_its_error() {
    assert_eq!(fault(b""), PickleError::UnexpectedEnd);
    assert_eq!(fault(b"J\x01"), PickleError::UnexpectedEnd);
    assert_eq!(fault(b"cabc"), PickleError::UnterminatedLine);
    assert_eq!(fault(b"X\x01\0\0\0\xff."), PickleError::InvalidText);
    assert_eq!(fault(b"K\x01t."), PickleError::MarkMissing);
    assert_eq!(fault(b"."), PickleError::StackUnderflow);
    assert_eq!(fault(b"q\x01."), PickleError::EmptyStack);
    assert_eq!(fault(b"NK\x01K\x02s."), PickleError::SetItemOnNonDict);
    assert_eq!(fault(b"NK\x01a."), PickleError::AppendOnNonList);
    assert_eq!(fault(b"K\x01a."), PickleError::AppendOnNonList);
    assert_eq!(fault(b"h\x01."), PickleError::BadMemoIndex);
    assert_eq!(fault(b"\xfe"), PickleError::UnsupportedOpcode(0xfe));
    assert_eq!(fault(b"N)R."), PickleError::ReduceOnNonGlobal);
    assert_eq!(fault(b"ca\nb\nNR."), PickleError::ReduceArgsNotTuple);
    assert_eq!(fault(b"ca\nb\n)R."), PickleError::UnsupportedCallable);
    assert_eq!(fault(&rebuild(b")")), PickleError::TensorWithoutStorage);
    assert_eq!(fault(&rebuild(b"NQ\x85")), PickleError::BadStorageId);
    assert_eq!(fault(&rebuild(b")Q\x85")), PickleError::UnsupportedStorage);
    let pid = storage("0");
    let with = |rest: &[u8]| {
        let mut args = b"(".to_vec();
        args.extend(&pid);
        args.extend(b"Q");
        args.extend(rest);
        args.extend(b"t");
        fault(&rebuild(&args))
    };
    assert_eq!(with(b""), PickleError::BadOffset);
    assert_eq!(with(b"K\0"), PickleError::NoShape);
    assert_eq!(with(b"K\0N"), PickleError::NotATuple);
    assert_eq!(with(b"K\0J\xff\xff\xff\xff\x85"), PickleError::NotASize);
    assert_eq!(with(b"K\0)"), PickleError::NoStride);
}

/// A file of five pickles: three that are ignored, the state dict and the storage keys.
fn file(entries: &[(&str, Vec<u8>)], keys: &[&str]) -> Vec<u8> {
    let mut out = b"K\x01.K\x02.}.".to_vec();
    out.extend(b"}(");
    for (name, value) in entries {
        out.push(0x8c);
        out.push(name.len() as u8);
        out.extend(name.as_bytes());
        out.extend(value);
    }
    out.extend(b"u.](");
    for key in keys {
        out.push(0x8c);
        out.push(key.len() as u8);
        out.extend(key.as_bytes());
    }
    out.extend(b"e.");
    out
}

fn open(bytes: &[u8]) -> StateDict {
    match read_header(bytes) {
        Ok(d) => d,
        Err(_) => panic!("refused"),
    }
}

#[test]
fn a_state_dict_hands_its_storages_out() {
    let bytes = file(
        &[
            ("w", tensor("k1", 0, (2, 3), (3, 1))),
            ("ignored", b"K\x05".to_vec()),
            ("a", tensor("k2", 0, (1, 2), (9, 1))),
            ("b", tensor("k2", 2, (2, 1), (1, 1))),
        ],
        &["k1", "unused", "k2"],
    );
    let mut with_data = bytes.clone();
    with_data.extend([1, 2, 3]);
    let mut d = open(&with_data);
    assert_eq!(d.data_start, bytes.len());
    let names: Vec<&str> = d.tensors.iter().map(|t| t.name.as_str()).collect();
    assert_eq!(names, ["w", "a", "b"]);

    let key = d.next_key().ok().unwrap().unwrap();
    assert_eq!(key, "k1");
    match d.claim(&key, 6) {
        Ok(Claim::Load(pieces)) => {
            assert_eq!(pieces.len(), 1);
            assert_eq!((pieces[0].name.as_str(), pieces[0].start, pieces[0].end), ("w", 0, 6));
            assert_eq!(pieces[0].shape, [2, 3]);
        }
        _ => panic!("not loaded"),
    }
    let key = d.next_key().ok().unwrap().unwrap();
    match d.claim(&key, 10) {
        Ok(Claim::Skip(n)) => assert_eq!(n, 40),
        _ => panic!("not skipped"),
    }
    let key = d.next_key().ok().unwrap().unwrap();
    match d.claim(&key, 4) {
        Ok(Claim::Load(pieces)) => {
            let all: Vec<(&str, usize, usize)> =
                pieces.iter().map(|p| (p.name.as_str(), p.start, p.end)).collect();
            assert_eq!(all, [("a", 0, 2), ("b", 2, 4)]);
        }
        _ => panic!("not loaded"),
    }
    match d.claim(&key, 4) {
        Ok(Claim::Skip(n)) => assert_eq!(n, 16),
        _ => panic!("claimed twice"),
    }
    assert!(d.next_key().ok().unwrap().is_none());
}

#[test]
fn files_that_cannot_be_loaded() {
    assert!(matches!(read_header(b"K\x01."), Err(LoadError::Pickle(PickleError::UnexpectedEnd))));
    assert!(matches!(read_header(b"N.N.N.N.N."), Err(LoadError::RootNotDict)));
    assert!(matches!(read_header(b"N.N.N.}.N."), Err(LoadError::KeysMissing)));
    let gap = file(&[("w", tensor("k", 0, (2, 3), (4, 1)))], &["k"]);
    assert!(matches!(read_header(&gap), Err(LoadError::NotContiguous(name)) if name == "w"));
    let mut d = open(&file(&[("w", tensor("k", 1, (2, 3), (3, 1)))], &["k"]));
    let key = d.next_key().ok().unwrap().unwrap();
    assert!(matches!(d.claim(&key, 6), Err(LoadError::ExceedsStorage(name)) if name == "w"));
    let mut d = open(b"N.N.N.}.](K\x01e.");
    assert!(matches!(d.next_key(), Err(LoadError::BadStorageKey)));
}

#[test]
fn zip_files_are_not_legacy() {
    assert!(!is_legacy([b'P', b'K']));
    assert!(is_legacy([0x80, 0x02]));
    assert!(is_legacy([b'P', 0]));
}
