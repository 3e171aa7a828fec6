use better_remove::store::RecordStore;

#[test]
fn empty_store_serializes_to_nothing() {
    let s = RecordStore::new();
    assert_eq!(s.serialize(), b"".to_vec());
}

#[test]
fn serialize_exact_line() {
    let mut s = RecordStore::new();
    s.append_record(
        b"report.txt1".to_vec(),
        b"/original/absolute/path/report.txt".to_vec(),
    );
    assert_eq!(
        s.serialize(),
        b"report.txt1 = '/original/absolute/path/report.txt'\n".to_vec()
    );
}

#[test]
fn lookup_finds_appended_record() {
    let mut s = RecordStore::new();
    s.append_record(b"a.txt".to_vec(), b"/home/a.txt".to_vec());
    s.append_record(b"b.txt".to_vec(), b"/home/b.txt".to_vec());
    assert_eq!(s.lookup(&b"a.txt".to_vec()), Some(b"/home/a.txt".to_vec()));
    assert_eq!(s.lookup(&b"b.txt".to_vec()), Some(b"/home/b.txt".to_vec()));
    assert_eq!(s.lookup(&b"c.txt".to_vec()), None);
}

#[test]
fn remove_consumes_exactly_one_record() {
    let mut s = RecordStore::new();
    s.append_record(b"a.txt".to_vec(), b"/home/a.txt".to_vec());
    s.append_record(b"b.txt".to_vec(), b"/home/b.txt".to_vec());
    assert!(s.remove_record(&b"a.txt".to_vec()));
    assert_eq!(s.lookup(&b"a.txt".to_vec()), None);
    assert_eq!(s.lookup(&b"b.txt".to_vec()), Some(b"/home/b.txt".to_vec()));
    assert!(!s.remove_record(&b"a.txt".to_vec()));
}

#[test]
fn load_round_trips_serialized_store() {
    let mut s = RecordStore::new();
    s.append_record(b"a.txt".to_vec(), b"/home/user/a.txt".to_vec());
    s.append_record(b"a.txt1".to_vec(), b"/tmp/a.txt".to_vec());
    s.append_record(b"notes".to_vec(), b"/home/user/notes".to_vec());
    let text = s.serialize();
    let loaded = RecordStore::load(&text).expect("serialized store must parse");
    assert_eq!(loaded.entries.len(), 3);
    assert_eq!(loaded.entries[0].name, b"a.txt".to_vec());
    assert_eq!(loaded.entries[0].original_path, b"/home/user/a.txt".to_vec());
    assert_eq!(loaded.entries[1].name, b"a.txt1".to_vec());
    assert_eq!(loaded.entries[1].original_path, b"/tmp/a.txt".to_vec());
    assert_eq!(loaded.entries[2].name, b"notes".to_vec());
    assert_eq!(loaded.entries[2].original_path, b"/home/user/notes".to_vec());
    assert_eq!(loaded.serialize(), text);
}

#[test]
fn load_empty_text_is_empty_store() {
    let loaded = RecordStore::load(&b"".to_vec()).expect("empty text is an empty store");
    assert_eq!(loaded.entries.len(), 0);
}

#[test]
fn load_plain_line() {
    let text = b"report.txt1 = '/original/absolute/path/report.txt'\n".to_vec();
    let loaded = RecordStore::load(&text).expect("line must parse");
    assert_eq!(loaded.entries.len(), 1);
    assert_eq!(loaded.entries[0].name, b"report.txt1".to_vec());
    assert_eq!(
        loaded.entries[0].original_path,
        b"/original/absolute/path/report.txt".to_vec()
    );
}

#[test]
fn load_rejects_missing_final_newline() {
    assert!(RecordStore::load(&b"a = '/x'".to_vec()).is_none());
}

#[test]
fn load_rejects_malformed_line() {
    assert!(RecordStore::load(&b"just some text\n".to_vec()).is_none());
    assert!(RecordStore::load(&b"a = /x'\n".to_vec()).is_none());
    assert!(RecordStore::load(&b"a = 'x\n".to_vec()).is_none());
    assert!(RecordStore::load(&b" = 'x'\n".to_vec()).is_none());
}

#[test]
fn load_rejects_repeated_name() {
    let text = b"a = '/x'\na = '/y'\n".to_vec();
    assert!(RecordStore::load(&text).is_none());
}
