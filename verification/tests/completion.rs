use rshell::complete::{
    completer_call, completer_candidates, completer_complaint, completer_error, plan_completion,
    CompletionTable, Plan,
};
use rshell::prefix::{
    common_prefix_defined, entry_names, longest_common_prefix, longest_common_prefix_files,
};
use rshell::tab::{
    command_matches, complete_argument_by_script, complete_command, complete_command_by_script,
    complete_file, Completion, Notice, TabState,
};

fn strings(list: &[&str]) -> Vec<String> {
    list.iter().map(|s| s.to_string()).collect()
}

fn entries(list: &[(&str, bool)]) -> Vec<(String, bool)> {
    list.iter().map(|(s, d)| (s.to_string(), *d)).collect()
}

fn inserted(c: &Completion) -> Option<(usize, &str, &str)> {
    c.candidate.as_ref().map(|p| (c.start, p.display.as_str(), p.replacement.as_str()))
}

fn shown(c: &Completion) -> &str {
    match &c.notice {
        Notice::Show(text) => text,
        _ => panic!("nothing is shown"),
    }
}

#[test]
fn common_prefixes() {
    assert_eq!(longest_common_prefix(&[]), "");
    assert_eq!(longest_common_prefix(&strings(&["abc"])), "abc");
    assert_eq!(longest_common_prefix(&strings(&["xyz_foo", "xyz_foo_bar"])), "xyz_foo");
    assert_eq!(longest_common_prefix(&strings(&["abc", "abd", "abe"])), "ab");
    assert_eq!(longest_common_prefix(&strings(&["a", "b"])), "");
    assert_eq!(longest_common_prefix(&strings(&["éa", "éb"])), "é");
    assert_eq!(longest_common_prefix_files(&entries(&[("ab", true), ("ac", false)])), "a");
    assert_eq!(longest_common_prefix_files(&[]), "");
}

#[test]
fn where_common_prefixes_are_defined() {
    assert!(common_prefix_defined(&strings(&["é"])));
    assert!(common_prefix_defined(&strings(&["é", "ü"])));
    assert!(common_prefix_defined(&strings(&["e", "e2"])));
    assert!(common_prefix_defined(&strings(&["éa", "é"])));
    assert!(!common_prefix_defined(&strings(&["é", "éa"])));
    assert!(!common_prefix_defined(&strings(&["é", "é"])));
}

#[test]
fn names_of_entries() {
    assert_eq!(entry_names(&entries(&[("a", true), ("b", false)])), ["a", "b"]);
}

#[test]
fn the_table_of_scripts() {
    let mut t = CompletionTable::new();
    assert_eq!(t.lookup("git"), None);
    t.register("git", "/a");
    t.register("git", "/b");
    t.register("ls", "/c");
    assert_eq!(t.lookup("git"), Some("/b".to_string()));
    t.unregister("git");
    assert_eq!(t.lookup("git"), None);
    assert_eq!(t.lookup("ls"), Some("/c".to_string()));
}

#[test]
fn calling_a_script() {
    let c = completer_call("/s", &strings(&["git", "remote", "add"]), 2, "git remote add", 14);
    assert_eq!(c.script, "/s");
    assert_eq!(c.command_name, "git");
    assert_eq!(c.current_word, "add");
    assert_eq!(c.previous_word, "remote");
    assert_eq!(c.comp_line, "git remote add");
    assert_eq!(c.comp_point, "14");
    let first = completer_call("/s", &strings(&["git"]), 0, "git", 3);
    assert_eq!(first.previous_word, "");
}

#[test]
fn what_a_script_offers() {
    let out = "stop\n\nstart\r\nstat".as_bytes().to_vec();
    assert_eq!(completer_candidates(true, out), Some(strings(&["start", "stat", "stop"])));
    assert_eq!(completer_candidates(true, "é\n".as_bytes().to_vec()), Some(strings(&["é"])));
    assert_eq!(completer_candidates(false, b"a\n".to_vec()), None);
    assert_eq!(completer_candidates(true, b"\n\n".to_vec()), None);
    assert_eq!(completer_candidates(true, vec![]), None);
    assert_eq!(completer_candidates(true, vec![b'a', 0xff, b'\n']), None);
}

#[test]
fn a_script_that_fails() {
    assert_eq!(completer_error("no é".as_bytes()), "Completer error: no é");
    assert_eq!(completer_error(&[b'a', 0xff]), "Completer error: a\u{fffd}");
    assert_eq!(completer_complaint("x"), "Completer error: x");
}

#[test]
fn planning_for_commands() {
    let mut t = CompletionTable::new();
    assert!(matches!(plan_completion("", 0, &t), Plan::Nothing));
    assert!(matches!(plan_completion("ls", 0, &t), Plan::Nothing));
    match plan_completion("echo x", 2, &t) {
        Plan::Command { word, completer } => {
            assert_eq!(word, "ec");
            assert!(completer.is_none());
        }
        _ => panic!("not a command"),
    }
    t.register("git", "/s");
    match plan_completion("git", 3, &t) {
        Plan::Command { completer: Some(call), .. } => {
            assert_eq!(call.script, "/s");
            assert_eq!(call.current_word, "git");
            assert_eq!(call.previous_word, "");
            assert_eq!(call.comp_point, "3");
        }
        _ => panic!("no script"),
    }
}

#[test]
fn planning_for_files() {
    let t = CompletionTable::new();
    match plan_completion("cat é/b/re rest", 11, &t) {
        Plan::Argument { start, dir, prefix, base, completer, .. } => {
            assert_eq!(start, 4);
            assert_eq!(dir, "é/b/");
            assert_eq!(prefix, "re");
            assert_eq!(base, "é/b/");
            assert!(completer.is_none());
        }
        _ => panic!("not an argument"),
    }
    match plan_completion("cat é re", 9, &t) {
        Plan::Argument { start, dir, prefix, base, .. } => {
            assert_eq!(start, 7);
            assert_eq!(dir, ".");
            assert_eq!(prefix, "re");
            assert_eq!(base, "");
        }
        _ => panic!("not an argument"),
    }
    match plan_completion("cat ", 4, &t) {
        Plan::Argument { start, prefix, .. } => {
            assert_eq!(start, 4);
            assert_eq!(prefix, "");
        }
        _ => panic!("not an argument"),
    }
}

#[test]
fn planning_for_scripts() {
    let mut t = CompletionTable::new();
    t.register("git", "/s");
    t.register("''", "/q");
    match plan_completion(" git remote ad", 14, &t) {
        Plan::Argument { start, word, completer: Some(call), .. } => {
            assert_eq!(start, 12);
            assert_eq!(word, "ad");
            assert_eq!(call.command_name, "git");
            assert_eq!(call.current_word, "ad");
            assert_eq!(call.previous_word, "remote");
            assert_eq!(call.comp_line, " git remote ad");
            assert_eq!(call.comp_point, "14");
        }
        _ => panic!("no script"),
    }
    match plan_completion("git ", 4, &t) {
        Plan::Argument { word, completer: Some(call), .. } => {
            assert_eq!(word, "git");
            assert_eq!(call.current_word, "git");
        }
        _ => panic!("no script"),
    }
    assert!(matches!(plan_completion("'' ", 3, &t), Plan::Idle));
}

#[test]
fn commands_that_match() {
    assert_eq!(command_matches("e", strings(&["ed", "echo"])), ["echo", "ed", "exit"]);
    assert_eq!(command_matches("xyz", vec![]), Vec::<String>::new());
    assert_eq!(command_matches("c", vec![]), ["cd", "complete"]);
}

#[test]
fn no_match_and_one_match_for_a_command() {
    let mut state = Some(TabState {
        line: "x".to_string(),
        dir: String::new(),
        prefix: String::new(),
        matches: vec![],
        first: true,
    });
    let c = complete_command("q", 1, "q", &[], &mut state);
    assert_eq!((c.start, c.candidate.is_none()), (1, true));
    assert!(matches!(c.notice, Notice::Silent));
    assert!(state.is_none());
    let c = complete_command("ech", 3, "ech", &strings(&["echo"]), &mut state);
    assert_eq!(inserted(&c), Some((0, "echo", "echo ")));
    assert!(state.is_none());
}

#[test]
fn several_commands_ring_then_list() {
    let list = strings(&["xyz_bar", "xyz_baz"]);
    let mut state = None;
    let c = complete_command("xyz", 3, "xyz", &list, &mut state);
    assert_eq!(inserted(&c), Some((0, "xyz_ba", "xyz_ba")));
    let c = complete_command("xyz_ba", 6, "xyz_ba", &list, &mut state);
    assert!(matches!(c.notice, Notice::Bell));
    assert_eq!((c.start, c.candidate.is_none()), (6, true));
    assert!(state.as_ref().unwrap().first);
    let c = complete_command("xyz_ba", 6, "xyz_ba", &list, &mut state);
    assert_eq!(shown(&c), "\nxyz_bar  xyz_baz\n$ xyz_ba");
    assert!(!state.as_ref().unwrap().first);
    let c = complete_command("xyz_ba", 6, "xyz_ba", &strings(&["xyz_bar", "z"]), &mut state);
    assert!(matches!(c.notice, Notice::Bell));
}

#[test]
fn scripts_for_a_command() {
    let mut state = None;
    let c = complete_command_by_script("git", 3, &[], &mut state);
    assert_eq!((c.start, c.candidate.is_none()), (3, true));
    let c = complete_command_by_script("git", 3, &strings(&["gitk"]), &mut state);
    assert_eq!(inserted(&c), Some((0, "gitk", "gitk ")));
    let list = strings(&["gita", "gitb"]);
    let c = complete_command_by_script("git", 3, &list, &mut state);
    assert!(matches!(c.notice, Notice::Bell));
    let c = complete_command_by_script("git", 3, &list, &mut state);
    assert_eq!(shown(&c), "\ngita  gitb\n$ git");
}

#[test]
fn scripts_for_an_argument() {
    let mut state = None;
    let c = complete_argument_by_script("g ad", 4, 2, "ad", &strings(&["add"]), &mut state);
    assert_eq!(inserted(&c), Some((2, "add", "add ")));
    assert!(state.is_none());
    let list = strings(&["start", "status"]);
    let c = complete_argument_by_script("g s", 3, 2, "s", &list, &mut state);
    assert_eq!(inserted(&c), Some((2, "sta", "sta")));
    let c = complete_argument_by_script("g sta", 5, 2, "sta", &list, &mut state);
    assert!(matches!(c.notice, Notice::Bell));
    let c = complete_argument_by_script("g sta", 5, 2, "sta", &list, &mut state);
    assert_eq!(shown(&c), "\nstart  status\n$ g sta");
    let c = complete_argument_by_script("g sta", 5, 2, "sta", &[], &mut state);
    assert!(c.candidate.is_none());
    assert!(state.is_some());
}

#[test]
fn lengths_are_compared_in_bytes() {
    let mut state = None;
    let list = strings(&["éa", "éb"]);
    let c = complete_argument_by_script("g x", 3, 2, "x", &list, &mut state);
    assert_eq!(inserted(&c), Some((2, "é", "é")));
}

#[test]
fn one_file() {
    let mut state = None;
    let file = entries(&[("readme", false)]);
    let c = complete_file("cat re", 6, 4, ".", "re", "", &file, &mut state);
    assert_eq!(inserted(&c), Some((4, "readme", "readme ")));
    let dir = entries(&[("src", true)]);
    let c = complete_file("cat a/s", 7, 4, "a/", "s", "a/", &dir, &mut state);
    assert_eq!(inserted(&c), Some((4, "src", "a/src/")));
    let c = complete_file("cat q", 5, 4, ".", "q", "", &[], &mut state);
    assert_eq!((c.start, c.candidate.is_none()), (5, true));
}

#[test]
fn several_files() {
    let mut state = None;
    let list = entries(&[("foo", true), ("foo.txt", false)]);
    let c = complete_file("ls d/f", 6, 3, "d/", "f", "d/", &list, &mut state);
    assert_eq!(inserted(&c), Some((3, "foo", "d/foo")));
    let c = complete_file("ls d/foo", 8, 3, "d/", "foo", "d/", &list, &mut state);
    assert!(matches!(c.notice, Notice::Bell));
    let c = complete_file("ls d/foo", 8, 3, "d/", "foo", "d/", &list, &mut state);
    assert_eq!(shown(&c), "\nfoo/  foo.txt\n$ ls d/foo");
}

#[test]
fn common_prefixes_combine() {
    let a = strings(&["start", "status"]);
    let b = strings(&["stop", "step"]);
    let parts = vec![longest_common_prefix(&a), longest_common_prefix(&b)];
    assert_eq!(longest_common_prefix(&[a, b].concat()), longest_common_prefix(&parts));
}
