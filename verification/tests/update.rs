use kitchensync::digest::{sha1_hex, to_hex};
use kitchensync::store::{Store, StoreItem};
use kitchensync::update::{added_file, compare_file, is_hidden, match_files, needs_sha, update_store, Change, FileStat, UpdateOpts};

fn item(sha: &str, timestamp: i64, seen: bool) -> StoreItem {
    StoreItem { sha: sha.as_bytes().to_vec(), timestamp, seen }
}

fn file(name: &str, timestamp: i64) -> FileStat {
    FileStat { name: name.as_bytes().to_vec(), timestamp }
}

fn sample_store() -> Store {
    let mut store = Store::empty();
    store.files_mut().insert(b"same".to_vec(), item("s1", 10, false));
    store.files_mut().insert(b"touched".to_vec(), item("t1", 10, false));
    store.files_mut().insert(b"changed".to_vec(), item("c1", 10, false));
    store.files_mut().insert(b"gone".to_vec(), item("g1", 10, false));
    store
}

fn run(deleted: bool) -> (Store, Vec<(Vec<u8>, Change)>) {
    let files = vec![file("same", 10), file("touched", 11), file("changed", 12), file("new", 5)];
    let (pairs, remaining) = match_files(sample_store(), files);
    let shas: Vec<Option<Vec<u8>>> = pairs
        .iter()
        .map(|(f, found)| {
            if needs_sha(f, found) {
                let sha = match f.name.as_slice() {
                    b"touched" => "t1",
                    b"changed" => "c2",
                    _ => "n1",
                };
                Some(sha.as_bytes().to_vec())
            } else {
                None
            }
        })
        .collect();
    assert_eq!(shas.iter().filter(|s| s.is_some()).count(), 3);
    update_store(&UpdateOpts { deleted }, pairs, shas, remaining)
}

#[test]
fn update_reports_each_change() {
    let (store, changes) = run(true);
    let codes: Vec<(Vec<u8>, u8)> = changes.iter().map(|(n, c)| (n.clone(), c.code())).collect();
    assert_eq!(
        codes,
        vec![
            (b"touched".to_vec(), b'T'),
            (b"changed".to_vec(), b'U'),
            (b"new".to_vec(), b'A'),
            (b"gone".to_vec(), b'D'),
        ]
    );
    let files = store.files();
    assert_eq!(files.len(), 4);
    assert!(files.get(b"gone").is_none());
    let same = files.get(b"same").unwrap();
    assert_eq!((same.sha.clone(), same.timestamp, same.seen), (b"s1".to_vec(), 10, true));
    let touched = files.get(b"touched").unwrap();
    assert_eq!((touched.sha.clone(), touched.timestamp), (b"t1".to_vec(), 11));
    let changed = files.get(b"changed").unwrap();
    assert_eq!((changed.sha.clone(), changed.timestamp), (b"c2".to_vec(), 12));
    let new = files.get(b"new").unwrap();
    assert_eq!((new.sha.clone(), new.timestamp, new.seen), (b"n1".to_vec(), 5, true));
}

#[test]
fn update_without_deleted_keeps_vanished_entries_unseen() {
    let (store, changes) = run(false);
    assert_eq!(changes.len(), 3);
    let gone = store.files().get(b"gone").unwrap();
    assert_eq!((gone.sha.clone(), gone.timestamp, gone.seen), (b"g1".to_vec(), 10, false));
    assert_eq!(String::from_utf8(store.write()).unwrap(), "c2 12 changed\nn1 5 new\ns1 10 same\nt1 11 touched\n");
}

#[test]
fn matching_takes_entries_out_of_the_store() {
    let (pairs, remaining) = match_files(sample_store(), vec![file("same", 1), file("same", 2), file("x", 3)]);
    assert!(pairs[0].1.is_some());
    assert!(pairs[1].1.is_none());
    assert!(pairs[2].1.is_none());
    assert_eq!(remaining.files().len(), 3);
    assert!(remaining.files().get(b"same").is_none());
}

#[test]
fn added_and_compared_files() {
    let (name, it) = added_file(file("f", 7), b"aa".to_vec());
    assert_eq!((name, it.sha, it.timestamp, it.seen), (b"f".to_vec(), b"aa".to_vec(), 7, true));
    let (_, it, change) = compare_file(item("aa", 7, false), file("f", 7), None);
    assert_eq!((it.timestamp, it.seen, change), (7, true, None));
    let (_, it, change) = compare_file(item("aa", 7, false), file("f", 8), Some(b"aa".to_vec()));
    assert_eq!((it.sha, it.timestamp, change), (b"aa".to_vec(), 8, Some(Change::Touched)));
    let (_, it, change) = compare_file(item("aa", 7, false), file("f", 8), Some(b"bb".to_vec()));
    assert_eq!((it.sha, it.timestamp, change), (b"bb".to_vec(), 8, Some(Change::Updated)));
}

#[test]
fn hidden_entries() {
    assert!(is_hidden(b".git"));
    assert!(is_hidden(b".kitchensync"));
    assert!(!is_hidden(b"."));
    assert!(!is_hidden(b"file"));
    assert!(!is_hidden(&[b'.', 0xff]));
}

#[test]
fn sha1_of_known_inputs() {
    assert_eq!(sha1_hex(b"abc"), b"a9993e364706816aba3e25717850c26c9cd0d89d".to_vec());
    assert_eq!(sha1_hex(b""), b"da39a3ee5e6b4b0d3255bfef95601890afd80709".to_vec());
    assert_eq!(to_hex(&[0x00, 0x0f, 0xa0, 0xff]), b"000fa0ff".to_vec());
}
