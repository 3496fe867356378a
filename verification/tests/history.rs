use rshell::history::{parse_history, History, HistoryRequest};

fn strings(list: &[&str]) -> Vec<String> {
    list.iter().map(|s| s.to_string()).collect()
}

fn with(commands: &[&str]) -> History {
    let mut h = History::new();
    for c in commands {
        h.push(c);
    }
    h
}

#[test]
fn listing_numbers_entries() {
    let h = with(&["echo a", "ls", "pwd"]);
    assert_eq!(h.list(None), ["    1  echo a", "    2  ls", "    3  pwd"]);
    assert_eq!(h.list(Some(2)), ["    2  ls", "    3  pwd"]);
    assert_eq!(h.list(Some(3)).len(), 3);
    assert_eq!(h.list(Some(9)).len(), 3);
    assert!(h.list(Some(0)).is_empty());
    assert!(History::new().list(None).is_empty());
}

#[test]
fn loading_skips_empty_lines() {
    let mut h = with(&["first"]);
    h.load("a\n\nb\r\nc");
    assert_eq!(h.list(None), ["    1  first", "    2  a", "    3  b", "    4  c"]);
    assert_eq!(h.take_unsaved(), None);
}

#[test]
fn written_history_reads_back() {
    let h = with(&["echo 'a  b'", "ls | wc", "é"]);
    let text = h.file_text();
    assert_eq!(text, "echo 'a  b'\nls | wc\né\n");
    let mut again = History::new();
    again.load(&text);
    assert_eq!(again.list(None), h.list(None));
}

#[test]
fn appending_repeats_nothing() {
    let mut h = with(&["a", "b"]);
    assert_eq!(h.take_unsaved(), Some("a\nb\n".to_string()));
    assert_eq!(h.take_unsaved(), None);
    h.push("c");
    assert_eq!(h.take_unsaved(), Some("c\n".to_string()));
    h.push("d");
    assert_eq!(h.take_all(), "a\nb\nc\nd\n");
    assert_eq!(h.take_unsaved(), None);
    assert_eq!(h.file_text(), "a\nb\nc\nd\n");
}

#[test]
fn requests() {
    let ask = |list: &[&str]| parse_history(&strings(list));
    assert!(matches!(ask(&["history"]), HistoryRequest::Show(None)));
    assert!(matches!(ask(&["history", "5"]), HistoryRequest::Show(Some(5))));
    assert!(matches!(ask(&["history", "-r", "f"]), HistoryRequest::Read(p) if p == "f"));
    assert!(matches!(ask(&["history", "-w", "f"]), HistoryRequest::Write(p) if p == "f"));
    assert!(matches!(ask(&["history", "-a", "f"]), HistoryRequest::Append(p) if p == "f"));
}

#[test]
fn refused_requests() {
    let refused = |list: &[&str]| match parse_history(&strings(list)) {
        HistoryRequest::Refused(message) => message,
        _ => panic!("not refused"),
    };
    assert_eq!(refused(&["history", "-r"]), "history: -r: option requires an argument");
    assert_eq!(refused(&["history", "-w"]), "history: -w: option requires an argument");
    assert_eq!(refused(&["history", "-a"]), "history: -a: option requires an argument");
    assert_eq!(refused(&["history", "x"]), "history: x: numeric argument required");
    assert_eq!(refused(&["history", "-1"]), "history: -1: numeric argument required");
}
