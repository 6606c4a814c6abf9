use kitchensync::decimal::{timestamp_from_str, timestamp_to_str};
use kitchensync::path_order::{compare_keys, KeyOrder};
use kitchensync::store::{read_one_line, Store, StoreItem, StoreMap};

fn item(sha: &str, timestamp: i64, seen: bool) -> StoreItem {
    StoreItem { sha: sha.as_bytes().to_vec(), timestamp, seen }
}

#[test]
fn parses_a_store_line() {
    let (name, it) = read_one_line(b"abc 1700000000 dir/file name.txt").unwrap();
    assert_eq!(name, b"dir/file name.txt".to_vec());
    assert_eq!(it.sha, b"abc".to_vec());
    assert_eq!(it.timestamp, 1700000000);
    assert!(!it.seen);
}

#[test]
fn malformed_store_lines() {
    assert!(read_one_line(b"abc").is_none());
    assert!(read_one_line(b"abc 12").is_none());
    assert!(read_one_line(b"abc x12 name").is_none());
    assert!(read_one_line(b"abc  name").is_none());
    let (name, it) = read_one_line(b" -5 ").unwrap();
    assert_eq!(name, Vec::<u8>::new());
    assert_eq!(it.sha, Vec::<u8>::new());
    assert_eq!(it.timestamp, -5);
}

#[test]
fn timestamps_read_and_write_like_i64() {
    assert_eq!(timestamp_from_str(b"0"), Some(0));
    assert_eq!(timestamp_from_str(b"+42"), Some(42));
    assert_eq!(timestamp_from_str(b"-9223372036854775808"), Some(i64::MIN));
    assert_eq!(timestamp_from_str(b"9223372036854775807"), Some(i64::MAX));
    assert_eq!(timestamp_from_str(b"9223372036854775808"), None);
    assert_eq!(timestamp_from_str(b"99999999999999999999999"), None);
    assert_eq!(timestamp_from_str(b"-"), None);
    assert_eq!(timestamp_from_str(b""), None);
    assert_eq!(timestamp_from_str(b"12a"), None);
    assert_eq!(timestamp_to_str(0), b"0".to_vec());
    assert_eq!(timestamp_to_str(-1203), b"-1203".to_vec());
    assert_eq!(timestamp_to_str(i64::MIN), b"-9223372036854775808".to_vec());
    for t in [0i64, 7, -7, 1700000000, i64::MAX, i64::MIN] {
        assert_eq!(timestamp_from_str(&timestamp_to_str(t)), Some(t));
        assert_eq!(timestamp_to_str(t), t.to_string().into_bytes());
    }
}

#[test]
fn store_file_parses_and_later_lines_win() {
    let text = b"s1 10 b\ns2 20 a\ns3 30 b\n";
    let store = Store::parse(text).unwrap();
    let files = store.files();
    assert_eq!(files.len(), 2);
    assert_eq!(files.get(b"a").unwrap().sha, b"s2".to_vec());
    assert_eq!(files.get(b"b").unwrap().sha, b"s3".to_vec());
    assert_eq!(files.get(b"b").unwrap().timestamp, 30);
    assert!(files.get(b"c").is_none());
}

#[test]
fn store_file_skips_invalid_utf8_and_refuses_malformed_lines() {
    let text: Vec<u8> = vec![0xff, b' ', b'1', b' ', b'x', b'\n', b's', b' ', b'1', b' ', b'y', b'\n'];
    let store = Store::parse(&text).unwrap();
    assert_eq!(store.files().len(), 1);
    assert!(store.files().get(b"y").is_some());
    assert!(Store::parse(b"good 1 a\nbad\n").is_none());
    assert!(Store::parse(b"").unwrap().files().len() == 0);
}

#[test]
fn write_lists_seen_entries_in_path_order() {
    let mut store = Store::empty();
    store.files_mut().insert(b"b.txt".to_vec(), item("bb", 2, true));
    store.files_mut().insert(b"a/z".to_vec(), item("az", 1, true));
    store.files_mut().insert(b"a.txt".to_vec(), item("at", 3, true));
    store.files_mut().insert(b"gone".to_vec(), item("gg", 4, false));
    assert!(store.is_writable());
    let text = store.write();
    assert_eq!(String::from_utf8(text).unwrap(), "az 1 a/z\nat 3 a.txt\nbb 2 b.txt\n");
}

#[test]
fn write_then_read_gives_the_seen_entries() {
    let mut store = Store::empty();
    store.files_mut().insert(b"x y".to_vec(), item("0123", -9, true));
    store.files_mut().insert(b"k".to_vec(), item("ab", 5, false));
    let back = Store::parse(&store.write()).unwrap();
    assert_eq!(back.files().len(), 1);
    let it = back.files().get(b"x y").unwrap();
    assert_eq!(it.sha, b"0123".to_vec());
    assert_eq!(it.timestamp, -9);
    assert!(!it.seen);
}

#[test]
fn map_insert_replace_remove() {
    let mut m = StoreMap::new();
    m.insert(b"a".to_vec(), item("1", 1, false));
    m.insert(b"a".to_vec(), item("2", 2, false));
    assert_eq!(m.len(), 1);
    assert_eq!(m.get(b"a").unwrap().sha, b"2".to_vec());
    let removed = m.remove(b"a").unwrap();
    assert_eq!(removed.timestamp, 2);
    assert!(m.remove(b"a").is_none());
    assert_eq!(m.len(), 0);
}

#[test]
fn map_extend_prefers_the_other_map() {
    let mut m = StoreMap::new();
    m.insert(b"a".to_vec(), item("1", 1, false));
    m.insert(b"b".to_vec(), item("1", 1, false));
    let mut o = StoreMap::new();
    o.insert(b"b".to_vec(), item("2", 2, false));
    o.insert(b"c".to_vec(), item("2", 2, false));
    m.extend(o);
    assert_eq!(m.len(), 3);
    assert_eq!(m.get(b"b").unwrap().sha, b"2".to_vec());
    let names: Vec<Vec<u8>> = m.entries().iter().map(|e| e.0.clone()).collect();
    assert_eq!(names, vec![b"a".to_vec(), b"b".to_vec(), b"c".to_vec()]);
}

#[test]
fn paths_order_by_component() {
    assert_eq!(compare_keys(b"a/b", b"a.b"), KeyOrder::Before);
    assert_eq!(compare_keys(b"a", b"a/b"), KeyOrder::Before);
    assert_eq!(compare_keys(b"b", b"a/z"), KeyOrder::After);
    assert_eq!(compare_keys(b"x", b"x"), KeyOrder::Same);
    assert_eq!(compare_keys(b"", b"x"), KeyOrder::Before);
}

#[test]
fn paths_compare_as_components() {
    assert_eq!(compare_keys(b"a/./c", b"a/b"), KeyOrder::After);
    assert_eq!(compare_keys(b"a/b", b"a//b"), KeyOrder::Same);
    assert_eq!(compare_keys(b"a/b/", b"a/b"), KeyOrder::Same);
    assert_eq!(compare_keys(b"a/./b", b"a/b"), KeyOrder::Same);
    assert_eq!(compare_keys(b"./a", b"a"), KeyOrder::Before);
    assert_eq!(compare_keys(b"./a", b"../a"), KeyOrder::Before);
    assert_eq!(compare_keys(b"../a", b"a"), KeyOrder::Before);
    assert_eq!(compare_keys(b"/a", b"./a"), KeyOrder::Before);
    assert_eq!(compare_keys(b"a/../b", b"a/b"), KeyOrder::Before);
    assert_eq!(compare_keys(b"a/.b", b"a/b"), KeyOrder::Before);
}

#[test]
fn one_key_keeps_the_name_it_was_first_stored_under() {
    let mut m = StoreMap::new();
    m.insert(b"a//b".to_vec(), item("1", 1, true));
    m.insert(b"a/b".to_vec(), item("2", 2, true));
    m.insert(b"a/./c".to_vec(), item("3", 3, true));
    assert_eq!(m.len(), 2);
    assert_eq!(m.get(b"a/b/").unwrap().sha, b"2".to_vec());
    let names: Vec<Vec<u8>> = m.entries().iter().map(|e| e.0.clone()).collect();
    assert_eq!(names, vec![b"a//b".to_vec(), b"a/./c".to_vec()]);
    assert_eq!(m.remove(b"a/c").unwrap().sha, b"3".to_vec());
    assert_eq!(m.len(), 1);
    let store = Store::from_map(m);
    assert_eq!(String::from_utf8(store.write()).unwrap(), "2 2 a//b\n");
}

#[test]
fn names_with_non_utf8_bytes_are_not_writable() {
    let mut store = Store::empty();
    store.files_mut().insert(vec![0xff], item("s", 1, true));
    assert!(!store.is_writable());
    let mut unseen = Store::empty();
    unseen.files_mut().insert(vec![0xff], item("s", 1, false));
    assert!(unseen.is_writable());
}

#[test]
fn insertion_order_does_not_change_the_file() {
    let mut one = Store::empty();
    one.files_mut().insert(b"b".to_vec(), item("2", 2, true));
    one.files_mut().insert(b"a".to_vec(), item("1", 1, true));
    one.files_mut().insert(b"c/d".to_vec(), item("3", 3, true));
    let mut two = Store::empty();
    two.files_mut().insert(b"c/d".to_vec(), item("3", 3, true));
    two.files_mut().insert(b"a".to_vec(), item("1", 1, true));
    two.files_mut().insert(b"b".to_vec(), item("9", 9, true));
    two.files_mut().insert(b"b".to_vec(), item("2", 2, true));
    assert_eq!(one.write(), two.write());
}

#[test]
fn canonical_timestamp_text_round_trips() {
    for s in ["0", "7", "-7", "1700000000", "-9223372036854775808", "9223372036854775807"] {
        assert_eq!(timestamp_to_str(timestamp_from_str(s.as_bytes()).unwrap()), s.as_bytes().to_vec());
    }
    assert_eq!(timestamp_to_str(timestamp_from_str(b"+42").unwrap()), b"42".to_vec());
    assert_eq!(timestamp_to_str(timestamp_from_str(b"007").unwrap()), b"7".to_vec());
    assert_eq!(timestamp_to_str(timestamp_from_str(b"-0").unwrap()), b"0".to_vec());
}
