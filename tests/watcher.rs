use async_log_watch::{ErrorKind, LogError};
use async_log_watch::lines::{find_last_line, take_line};
use async_log_watch::paths::make_absolute_path;
use async_log_watch::watcher::{
    paths_to_dispatch, ChangeKind, Delivery, LogWatcher, ReadOutcome, ReadStart, WatchOptions,
};

const BASE: &str = "/var/log/app";

/// Runs one dispatch of `key` against a file holding `file`, as the caller's I/O would.
fn dispatch(w: &mut LogWatcher<u32>, key: &str, file: &[u8]) -> Option<(u32, Delivery)> {
    let start = w.begin_dispatch(key)?;
    let sink = *w.sink_of(key).unwrap();
    let bytes = match start {
        ReadStart::FromStart => file.to_vec(),
        ReadStart::At(o) => file[(o as usize).min(file.len())..].to_vec(),
    };
    Some((sink, w.complete_dispatch(key, start, ReadOutcome::Read(bytes))))
}

fn line(text: &str) -> Delivery {
    Delivery::Line(text.to_string())
}

fn is_watched(w: &LogWatcher<u32>, key: &str) -> bool {
    w.watched_paths().iter().any(|p| p == key)
}

#[test]
fn test_find_last_line() {
    let file = b"0\n1\n2\n3\n";
    let position = find_last_line(file);
    assert_eq!(position, 6);
    let (text, n) = take_line(file, position as usize).unwrap();
    assert_eq!(text, b"3".to_vec());
    assert_eq!(n, 2);
}

#[test]
fn test_log_watcher() {
    let mut w: LogWatcher<u32> = LogWatcher::new(BASE);
    let log_file_1 = "test-log1.txt";
    let log_file_2 = "test-log2.txt";
    let log_file_3 = "test-log3.txt";
    let key_1 = w.register(log_file_1, 1, None);
    let key_2 = w.register(log_file_2, 2, None);
    assert_eq!(dispatch(&mut w, &key_1, b"line 1\n"), Some((1, line("line 1"))));
    assert_eq!(dispatch(&mut w, &key_2, b"line 2\n"), Some((2, line("line 2"))));

    w.stop_monitoring_file(log_file_1);
    let rekey = w.change_file_path(log_file_2, log_file_3);
    assert!(rekey.moved);
    let key_3 = rekey.to.clone();

    assert_eq!(dispatch(&mut w, &key_1, b"line 1\nline 3\n"), None);
    assert_eq!(dispatch(&mut w, &key_3, b"line 2\nline 4\n"), Some((2, line("line 4"))));

    assert!(!is_watched(&w, &key_1));
    assert!(!is_watched(&w, &key_2));
    assert!(is_watched(&w, &key_3));
    assert_eq!(key_3, "/var/log/app/test-log3.txt");
}

#[test]
fn log_watcher_test() {
    let mut w: LogWatcher<u32> = LogWatcher::new(BASE);
    let key = w.register("test_log.txt", 7, None);
    let test_lines = vec!["test 1\n", "test 2\n", "test 3\n", "test 4\n"];
    let mut file: Vec<u8> = Vec::new();
    let mut detected = 0;
    for l in &test_lines {
        file.extend_from_slice(l.as_bytes());
        if let Some((_, Delivery::Line(_))) = dispatch(&mut w, &key, &file) {
            detected += 1;
        }
    }
    assert_eq!(detected, test_lines.len());
}

#[test]
fn full_history_in_order_whatever_the_coalescing() {
    let mut w: LogWatcher<u32> = LogWatcher::new(BASE);
    let options = WatchOptions { skip_to_last_line: false };
    let key = w.register("full.log", 3, Some(options));
    assert_eq!(w.begin_dispatch(&key), Some(ReadStart::At(0)));
    // Three lines arrive before the first notification, then one more.
    let mut file: Vec<u8> = b"L1\nL2\nL3\n".to_vec();
    let mut delivered: Vec<Delivery> = Vec::new();
    for _ in 0..2 {
        delivered.push(dispatch(&mut w, &key, &file).unwrap().1);
    }
    file.extend_from_slice(b"L4\n");
    for _ in 0..3 {
        delivered.push(dispatch(&mut w, &key, &file).unwrap().1);
    }
    assert_eq!(
        delivered,
        vec![line("L1"), line("L2"), line("L3"), line("L4"), Delivery::Nothing]
    );
    assert_eq!(w.begin_dispatch(&key), Some(ReadStart::At(12)));
}

#[test]
fn tail_from_end_does_not_redeliver() {
    let mut w: LogWatcher<u32> = LogWatcher::new(BASE);
    let key = w.register("pre.log", 1, None);
    assert_eq!(w.begin_dispatch(&key), Some(ReadStart::FromStart));
    let file = b"0\n1\n2\n3\n4\n";
    assert_eq!(dispatch(&mut w, &key, file), Some((1, line("4"))));
    assert_eq!(dispatch(&mut w, &key, file), Some((1, Delivery::Nothing)));
    assert_eq!(w.begin_dispatch(&key), Some(ReadStart::At(10)));
}

#[test]
fn partial_write_waits_for_its_terminator() {
    let mut w: LogWatcher<u32> = LogWatcher::new(BASE);
    let key = w.register("partial.log", 1, Some(WatchOptions { skip_to_last_line: false }));
    assert_eq!(dispatch(&mut w, &key, b"partial"), Some((1, Delivery::Nothing)));
    assert_eq!(w.begin_dispatch(&key), Some(ReadStart::At(0)));
    assert_eq!(dispatch(&mut w, &key, b"partial-done\n"), Some((1, line("partial-done"))));
    assert_eq!(w.begin_dispatch(&key), Some(ReadStart::At(13)));
}

#[test]
fn unregistered_path_gets_nothing() {
    let mut w: LogWatcher<u32> = LogWatcher::new(BASE);
    let key = w.register("gone.log", 1, None);
    assert_eq!(dispatch(&mut w, &key, b"a\n"), Some((1, line("a"))));
    let removed = w.stop_monitoring_file("gone.log");
    assert_eq!(removed, key);
    assert_eq!(dispatch(&mut w, &key, b"a\nb\n"), None);
    assert!(w.sink_of(&key).is_none());
    // Unwatching a path that is not watched changes nothing.
    w.stop_monitoring_file("gone.log");
    assert!(w.watched_paths().is_empty());
}

#[test]
fn rename_keeps_sink_and_offset() {
    let mut w: LogWatcher<u32> = LogWatcher::new(BASE);
    let a = w.register("a.log", 5, None);
    assert_eq!(dispatch(&mut w, &a, b"x\ny\n"), Some((5, line("y"))));
    let rekey = w.change_file_path("a.log", "b.log");
    assert!(rekey.moved);
    assert_eq!(rekey.from, a);
    assert_eq!(rekey.to, "/var/log/app/b.log");
    assert_eq!(w.begin_dispatch(&rekey.to), Some(ReadStart::At(4)));
    assert_eq!(dispatch(&mut w, &rekey.to, b"x\ny\nz\n"), Some((5, line("z"))));
    assert_eq!(dispatch(&mut w, &a, b"x\ny\nz\nw\n"), None);
}

#[test]
fn rename_of_unwatched_path_changes_nothing() {
    let mut w: LogWatcher<u32> = LogWatcher::new(BASE);
    let k = w.register("kept.log", 1, None);
    let rekey = w.change_file_path("missing.log", "other.log");
    assert!(!rekey.moved);
    assert_eq!(w.watched_paths(), vec![k]);
}

#[test]
fn carriage_return_is_stripped() {
    let (text, n) = take_line(b"abc\r\n", 0).unwrap();
    assert_eq!(text, b"abc".to_vec());
    assert_eq!(n, 5);
    let mut w: LogWatcher<u32> = LogWatcher::new(BASE);
    let key = w.register("crlf.log", 1, Some(WatchOptions { skip_to_last_line: false }));
    assert_eq!(dispatch(&mut w, &key, b"abc\r\n"), Some((1, line("abc"))));
}

#[test]
fn lone_carriage_return_line_is_empty() {
    assert_eq!(take_line(b"\r\n", 0), Some((Vec::new(), 2)));
    assert_eq!(take_line(b"\n", 0), Some((Vec::new(), 1)));
    assert_eq!(take_line(b"a\rb\n", 0), Some((b"a\rb".to_vec(), 4)));
    assert_eq!(take_line(b"", 0), None);
    assert_eq!(take_line(b"x\ny", 2), None);
}

#[test]
fn end_to_end_two_lines() {
    let mut w: LogWatcher<u32> = LogWatcher::new(BASE);
    let key = w.register("p.log", 9, None);
    let mut file: Vec<u8> = Vec::new();
    let mut calls: Vec<(u32, Delivery)> = Vec::new();
    for l in ["test 1\n", "test 2\n"] {
        file.extend_from_slice(l.as_bytes());
        if let Some(d) = dispatch(&mut w, &key, &file) {
            calls.push(d);
        }
    }
    assert_eq!(calls, vec![(9, line("test 1")), (9, line("test 2"))]);
}

#[test]
fn locator_edge_cases() {
    assert_eq!(find_last_line(b""), 0);
    assert_eq!(find_last_line(b"no newline"), 0);
    assert_eq!(find_last_line(b"one\n"), 0);
    assert_eq!(find_last_line(b"one\ntwo"), 0);
    assert_eq!(find_last_line(b"one\ntwo\nthr"), 4);
    assert_eq!(find_last_line(b"\n\n"), 1);
}

#[test]
fn first_dispatch_of_file_without_complete_line_resolves_to_zero() {
    let mut w: LogWatcher<u32> = LogWatcher::new(BASE);
    let key = w.register("frag.log", 1, None);
    assert_eq!(dispatch(&mut w, &key, b"frag"), Some((1, Delivery::Nothing)));
    assert_eq!(w.begin_dispatch(&key), Some(ReadStart::At(0)));
    assert_eq!(dispatch(&mut w, &key, b"frag\n"), Some((1, line("frag"))));
}

#[test]
fn open_and_seek_failures_are_delivered() {
    let mut w: LogWatcher<u32> = LogWatcher::new(BASE);
    let key = w.register("err.log", 1, None);
    let d = w.complete_dispatch(&key, ReadStart::FromStart, ReadOutcome::OpenFailed("NotFound".to_string()));
    let expected = LogError { kind: ErrorKind::FileOpenError("NotFound".to_string()), path: key.clone() };
    assert_eq!(d, Delivery::Failed(expected.clone()));
    assert_eq!(w.begin_dispatch(&key), Some(ReadStart::FromStart));
    assert_eq!(expected.display_error(), "NotFound - /var/log/app/err.log");
    let d = w.complete_dispatch(&key, ReadStart::At(0), ReadOutcome::SeekFailed("Bad seek".to_string()));
    match d {
        Delivery::Failed(e) => {
            assert_eq!(e.kind, ErrorKind::FileSeekError("Bad seek".to_string()));
            assert_eq!(e.display_error(), "Bad seek - /var/log/app/err.log");
        }
        other => panic!("unexpected {:?}", other),
    }
    assert_eq!(w.begin_dispatch(&key), Some(ReadStart::FromStart));
}

#[test]
fn invalid_utf8_is_replaced() {
    let mut w: LogWatcher<u32> = LogWatcher::new(BASE);
    let key = w.register("bin.log", 1, Some(WatchOptions { skip_to_last_line: false }));
    assert_eq!(dispatch(&mut w, &key, b"a\xffb\n"), Some((1, line("a\u{FFFD}b"))));
}

#[test]
fn reregistering_replaces_sink_and_keeps_offset() {
    let mut w: LogWatcher<u32> = LogWatcher::new(BASE);
    let key = w.register("same.log", 1, None);
    assert_eq!(dispatch(&mut w, &key, b"a\nb\n"), Some((1, line("b"))));
    let again = w.register("./../app/same.log", 2, None);
    assert_eq!(again, "/var/log/app/./../app/same.log");
    let again = w.register("/var/log/app/same.log", 2, None);
    assert_eq!(again, key);
    assert_eq!(w.watched_paths().len(), 2);
    assert_eq!(dispatch(&mut w, &key, b"a\nb\nc\n"), Some((2, line("c"))));
}

#[test]
fn canonical_keys() {
    assert_eq!(make_absolute_path("a.log", "/srv"), "/srv/a.log");
    assert_eq!(make_absolute_path("a.log", "/srv/"), "/srv/a.log");
    assert_eq!(make_absolute_path("/abs/a.log", "/srv"), "/abs/a.log");
    assert_eq!(make_absolute_path("~other/a.log", "/srv"), "/srv/~other/a.log");
    assert!(make_absolute_path("~/a.log", "/srv").ends_with("/a.log"));
    assert_ne!(make_absolute_path("~/a.log", "/srv"), "/srv/~/a.log");
}

#[test]
fn only_data_changes_are_dispatched() {
    let paths = vec!["/a".to_string(), "/b".to_string()];
    assert_eq!(paths_to_dispatch(ChangeKind::DataModified, paths.clone()), paths);
    assert!(paths_to_dispatch(ChangeKind::Other, paths).is_empty());
}

#[test]
fn default_options_skip_to_last_line() {
    assert!(WatchOptions::default().skip_to_last_line);
}
