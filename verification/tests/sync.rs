use kitchensync::commands::{fetch_remote_store, finish_steps, plan_actions, select_target, transfer_outcome, SyncError, SyncStep};
use kitchensync::config::{Config, Destination};
use kitchensync::logging::{format_log_line, LogLevel};
use kitchensync::remote::{from_location, s3_key, s3_prefix, RemoteError, RemoteLocation};
use kitchensync::store::{Store, StoreItem};
use kitchensync::sync::{compare_items, get_actions, show_actions, Action, PullStep, PushStep};

fn item(sha: &str, timestamp: i64) -> StoreItem {
    StoreItem { sha: sha.as_bytes().to_vec(), timestamp, seen: false }
}

fn store(entries: &[(&str, &str, i64)]) -> Store {
    let mut s = Store::empty();
    for (name, sha, ts) in entries {
        s.files_mut().insert(name.as_bytes().to_vec(), item(sha, *ts));
    }
    s
}

fn names(actions: &[(Vec<u8>, i64, Action)]) -> Vec<(String, i64, char)> {
    actions.iter().map(|(n, t, a)| (String::from_utf8(n.clone()).unwrap(), *t, a.get_code())).collect()
}

#[test]
fn action_codes() {
    assert_eq!(Action::Add.get_code(), 'A');
    assert_eq!(Action::Remove.get_code(), 'R');
    assert_eq!(Action::Touch.get_code(), 'T');
    assert_eq!(Action::Update.get_code(), 'U');
}

#[test]
fn comparing_items() {
    assert_eq!(compare_items(&item("a", 1), &item("b", 1)), Some(Action::Update));
    assert_eq!(compare_items(&item("a", 1), &item("b", 2)), Some(Action::Update));
    assert_eq!(compare_items(&item("a", 1), &item("a", 2)), Some(Action::Touch));
    assert_eq!(compare_items(&item("a", 1), &item("a", 1)), None);
}

#[test]
fn actions_between_stores() {
    let dest = store(&[("same", "x", 1), ("touch", "t", 1), ("upd", "u", 1), ("old", "o", 1)]);
    let src = store(&[("same", "x", 1), ("touch", "t", 2), ("upd", "v", 3), ("new", "n", 4)]);
    let (actions, removes) = get_actions(dest, src);
    assert_eq!(
        names(&actions),
        vec![("new".to_string(), 4, 'A'), ("touch".to_string(), 2, 'T'), ("upd".to_string(), 3, 'U')]
    );
    assert_eq!(names(&removes), vec![("old".to_string(), 0, 'R')]);
    let lines = show_actions(&actions);
    assert_eq!(lines[0], b"A new".to_vec());
    assert_eq!(lines[2], b"U upd".to_vec());
}

#[test]
fn planned_actions_follow_the_direction() {
    let local = || store(&[("a", "1", 1), ("l", "1", 1)]);
    let remote = || store(&[("a", "2", 1), ("r", "1", 1)]);
    assert_eq!(names(&plan_actions(true, false, local(), remote())), vec![("a".to_string(), 1, 'U'), ("l".to_string(), 1, 'A')]);
    assert_eq!(
        names(&plan_actions(true, true, local(), remote())),
        vec![("a".to_string(), 1, 'U'), ("l".to_string(), 1, 'A'), ("r".to_string(), 0, 'R')]
    );
    assert_eq!(
        names(&plan_actions(false, true, local(), remote())),
        vec![("a".to_string(), 1, 'U'), ("r".to_string(), 1, 'A'), ("l".to_string(), 0, 'R')]
    );
}

#[test]
fn steps_of_each_kind_of_sync() {
    assert_eq!(finish_steps(true, true, true), vec![SyncStep::ShowActions, SyncStep::RemoveRemoteCopy]);
    assert_eq!(finish_steps(true, false, true), vec![SyncStep::PushActions, SyncStep::UploadStore, SyncStep::RemoveRemoteCopy]);
    assert_eq!(finish_steps(true, false, false), vec![SyncStep::PushActions, SyncStep::UploadStore]);
    assert_eq!(finish_steps(false, false, true), vec![SyncStep::PullActions, SyncStep::ReplaceLocalStore]);
    assert_eq!(fetch_remote_store(false, false), Err(SyncError::RemoteStoreMissing));
    assert_eq!(fetch_remote_store(true, false), Ok(false));
    assert_eq!(fetch_remote_store(false, true), Ok(true));
    assert_eq!(transfer_outcome(true, &vec![true, false]), Err(SyncError::UploadFailed));
    assert_eq!(transfer_outcome(false, &vec![false]), Err(SyncError::DownloadFailed));
    assert_eq!(transfer_outcome(false, &vec![]), Ok(()));
    assert_eq!(Action::Touch.pull_step(), PullStep::SetTime);
    assert_eq!(Action::Update.push_step(), PushStep::Upload);
    assert_eq!(Action::Remove.push_step(), PushStep::DeleteRemote);
}

#[test]
fn target_from_command_line_or_config() {
    let config = Config {
        destination: vec![
            Destination { name: "backup".to_string(), target: "s3://b/x".to_string() },
            Destination { name: "default".to_string(), target: "../mirror".to_string() },
            Destination { name: "default".to_string(), target: "second".to_string() },
        ],
    };
    assert_eq!(select_target(Some("cli".to_string()), &config), Ok("cli".to_string()));
    assert_eq!(select_target(None, &config), Ok("../mirror".to_string()));
    assert_eq!(select_target(None, &Config::default()), Err(SyncError::NoTarget));
}

#[test]
fn locations() {
    match from_location("../mirror").unwrap().unwrap() {
        RemoteLocation::File { root } => assert_eq!(root, b"../mirror".to_vec()),
        other => panic!("unexpected {:?}", other),
    }
    match from_location("file:///srv/data").unwrap().unwrap() {
        RemoteLocation::File { root } => assert_eq!(root, b"/srv/data".to_vec()),
        other => panic!("unexpected {:?}", other),
    }
    match from_location("s3://bucket/some/prefix").unwrap().unwrap() {
        RemoteLocation::S3 { bucket, prefix } => {
            assert_eq!(bucket, b"bucket".to_vec());
            assert_eq!(prefix, b"some/prefix".to_vec());
        }
        other => panic!("unexpected {:?}", other),
    }
    match from_location("s3://mybucket/some/prefix/").unwrap().unwrap() {
        RemoteLocation::S3 { bucket, prefix } => {
            assert_eq!(bucket, b"mybucket".to_vec());
            assert_eq!(prefix, b"some/prefix".to_vec());
        }
        other => panic!("unexpected {:?}", other),
    }
    match from_location("s3://mybucket/").unwrap().unwrap() {
        RemoteLocation::S3 { prefix, .. } => assert_eq!(prefix, Vec::<u8>::new()),
        other => panic!("unexpected {:?}", other),
    }
    assert!(from_location("s3://mybucket").is_none());
    match from_location("http://example.com/x").unwrap() {
        Err(RemoteError::UnsupportedScheme(s)) => assert_eq!(s, b"http".to_vec()),
        other => panic!("unexpected {:?}", other),
    }
    match from_location("s3:nobucket").unwrap() {
        Err(RemoteError::MissingBucket) => {}
        other => panic!("unexpected {:?}", other),
    }
    match from_location("http://[::1").unwrap() {
        Err(RemoteError::InvalidUrl(e)) => assert_eq!(e, url::ParseError::InvalidIpv6Address),
        other => panic!("unexpected {:?}", other),
    }
}

#[test]
fn s3_prefixes_drop_the_root_and_empty_segments() {
    assert_eq!(s3_prefix(b"/some/prefix"), Some(b"some/prefix".to_vec()));
    assert_eq!(s3_prefix(b"/a/./b/"), Some(b"a/./b".to_vec()));
    assert_eq!(s3_prefix(b"//./x//."), Some(b"x".to_vec()));
    assert_eq!(s3_prefix(b"/"), Some(Vec::new()));
    assert_eq!(s3_prefix(b"/./"), Some(Vec::new()));
    assert_eq!(s3_prefix(b"/../a"), Some(b"../a".to_vec()));
    assert_eq!(s3_prefix(b""), None);
    assert_eq!(s3_prefix(b"a/b"), None);
}

#[test]
fn s3_keys_join_prefix_and_name() {
    assert_eq!(s3_key(b"some/prefix", b"a/b.txt"), Some(b"some/prefix/a/b.txt".to_vec()));
    assert_eq!(s3_key(b"", b"a"), Some(b"a".to_vec()));
    assert_eq!(s3_key(b"p/", b"a"), Some(b"p/a".to_vec()));
    assert_eq!(s3_key(b"p", b"/abs"), Some(b"/abs".to_vec()));
    assert_eq!(s3_key(b"p", b""), Some(b"p/".to_vec()));
    assert_eq!(s3_key(b"p", &[0xff]), None);
}

#[test]
fn names_with_the_same_components_are_one_file() {
    let dest = store(&[("a/c", "s", 1), ("a/b", "t", 2)]);
    let src = store(&[("a/./c", "s", 1), ("a//b", "t", 3), ("a/./d", "u", 4)]);
    let (actions, removes) = get_actions(dest, src);
    assert_eq!(names(&actions), vec![("a//b".to_string(), 3, 'T'), ("a/./d".to_string(), 4, 'A')]);
    assert!(removes.is_empty());
}

#[test]
fn actions_follow_path_order() {
    let dest = store(&[]);
    let src = store(&[("a/./c", "s", 1), ("a/b", "t", 2), ("a.b", "u", 3)]);
    let (actions, _) = get_actions(dest, src);
    assert_eq!(
        names(&actions),
        vec![("a/b".to_string(), 2, 'A'), ("a/./c".to_string(), 1, 'A'), ("a.b".to_string(), 3, 'A')]
    );
}

#[test]
fn log_lines() {
    assert_eq!(format_log_line(LogLevel::Error, Some(b"m"), b"boom"), b"[ERROR] m: boom".to_vec());
    assert_eq!(format_log_line(LogLevel::Warn, None, b"careful"), b"[WARN] ROOT: careful".to_vec());
    assert_eq!(format_log_line(LogLevel::Info, Some(b"m"), b"hello"), b"hello".to_vec());
}

fn perform(dest: &Store, src: &Store, actions: &[(Vec<u8>, i64, Action)]) -> Vec<(Vec<u8>, Vec<u8>, i64)> {
    let mut files: std::collections::BTreeMap<Vec<u8>, (Vec<u8>, i64)> = dest
        .files()
        .entries()
        .iter()
        .map(|(n, it)| (n.clone(), (it.sha.clone(), it.timestamp)))
        .collect();
    for (name, ts, action) in actions {
        match action {
            Action::Add | Action::Update => {
                let it = src.files().get(name).unwrap();
                files.insert(name.clone(), (it.sha.clone(), *ts));
            }
            Action::Touch => {
                files.get_mut(name).unwrap().1 = *ts;
            }
            Action::Remove => {
                files.remove(name);
            }
        }
    }
    files.into_iter().map(|(n, (s, t))| (n, s, t)).collect()
}

#[test]
fn performing_the_actions_makes_the_destination_like_the_source() {
    let entries_dest = [("same", "x", 1), ("touch", "t", 1), ("upd", "u", 1), ("old", "o", 1)];
    let entries_src = [("same", "x", 1), ("touch", "t", 2), ("upd", "v", 3), ("new", "n", 4)];
    let (actions, removes) = get_actions(store(&entries_dest), store(&entries_src));
    let mut all = actions.clone();
    all.extend(removes);
    let result = perform(&store(&entries_dest), &store(&entries_src), &all);
    let expected: Vec<(Vec<u8>, Vec<u8>, i64)> = store(&entries_src)
        .files()
        .entries()
        .iter()
        .map(|(n, it)| (n.clone(), it.sha.clone(), it.timestamp))
        .collect();
    let mut expected_sorted = expected.clone();
    expected_sorted.sort();
    let mut result_sorted = result.clone();
    result_sorted.sort();
    assert_eq!(result_sorted, expected_sorted);

    let kept = perform(&store(&entries_dest), &store(&entries_src), &actions);
    assert!(kept.iter().any(|(n, s, t)| n == b"old" && s == b"o" && *t == 1));
    assert_eq!(kept.len(), 5);
}
