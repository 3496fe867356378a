use rshell::complete::{plan_completion, CompletionTable};
use rshell::press::{answer_press, can_answer, Found};
use rshell::tab::{Completion, Notice, TabState};

fn strings(list: &[&str]) -> Vec<String> {
    list.iter().map(|s| s.to_string()).collect()
}

fn scripted(list: &[&str]) -> Found {
    Found { script: Some(strings(list)), programs: vec![], entries: vec![] }
}

fn programs(list: &[&str]) -> Found {
    Found { script: None, programs: strings(list), entries: vec![] }
}

fn entries(list: &[(&str, bool)]) -> Found {
    Found {
        script: None,
        programs: vec![],
        entries: list.iter().map(|(n, d)| (n.to_string(), *d)).collect(),
    }
}

fn press(line: &str, found: &Found, state: &mut Option<TabState>) -> Completion {
    let mut table = CompletionTable::new();
    table.register("git", "/s");
    table.register("''", "/q");
    let plan = plan_completion(line, line.len(), &table);
    assert!(can_answer(&plan, found));
    answer_press(line, line.len(), &plan, found, state)
}

fn inserted(c: &Completion) -> Option<(usize, &str)> {
    c.candidate.as_ref().map(|p| (c.start, p.replacement.as_str()))
}

fn shown(c: &Completion) -> Option<&str> {
    match &c.notice {
        Notice::Show(text) => Some(text),
        _ => None,
    }
}

#[test]
fn nothing_to_complete() {
    let mut state = None;
    let c = press("", &entries(&[]), &mut state);
    assert_eq!((c.start, c.candidate.is_none()), (0, true));
    let c = press("'' ", &entries(&[("a", false)]), &mut state);
    assert_eq!((c.start, c.candidate.is_none()), (3, true));
    assert!(state.is_none());
}

#[test]
fn a_script_goes_before_programs_and_files() {
    let mut state = None;
    let mut found = scripted(&["gitk"]);
    found.programs = strings(&["git", "gitfoo"]);
    assert_eq!(inserted(&press("git", &found, &mut state)), Some((0, "gitk ")));
    let mut found = scripted(&["add"]);
    found.entries = vec![("ad.txt".to_string(), false)];
    assert_eq!(inserted(&press("git ad", &found, &mut state)), Some((4, "add ")));
}

#[test]
fn without_an_offer_programs_and_files_count() {
    let mut state = None;
    assert_eq!(inserted(&press("gi", &programs(&["git"]), &mut state)), Some((0, "git ")));
    assert_eq!(inserted(&press("ech", &programs(&[]), &mut state)), Some((0, "echo ")));
    let found = entries(&[("ad.txt", false), ("b", true), ("..", true)]);
    assert_eq!(inserted(&press("git ad", &found, &mut state)), Some((4, "ad.txt ")));
    assert_eq!(inserted(&press("ls x/b", &found, &mut state)), Some((3, "x/b/")));
    assert_eq!(inserted(&press("ls q", &found, &mut state)), None);
}

#[test]
fn a_second_press_lists_what_there_is() {
    let mut state = None;
    let found = entries(&[("foo", true), ("foz", false)]);
    assert_eq!(inserted(&press("ls d/f", &found, &mut state)), Some((3, "d/fo")));
    let c = press("ls d/f", &found, &mut state);
    assert_eq!(shown(&c), Some("\nfoo/  foz\n$ ls d/f"));
    let found = programs(&["exa", "exb"]);
    assert!(matches!(press("ex", &found, &mut state).notice, Notice::Bell));
    let c = press("ex", &found, &mut state);
    assert_eq!(shown(&c), Some("\nexa  exb  exit\n$ ex"));
    let found = scripted(&["a", "b"]);
    assert!(matches!(press("git", &found, &mut state).notice, Notice::Bell));
    assert_eq!(shown(&press("git", &found, &mut state)), Some("\na  b\n$ git"));
    assert!(matches!(press("git x", &found, &mut state).notice, Notice::Bell));
    assert_eq!(shown(&press("git x", &found, &mut state)), Some("\na  b\n$ git x"));
}

#[test]
fn names_without_a_defined_common_prefix() {
    let table = CompletionTable::new();
    let plan = plan_completion("ls ", 3, &table);
    assert!(!can_answer(&plan, &entries(&[("é", false), ("éa", false)])));
    assert!(can_answer(&plan, &entries(&[("éb", false), ("éa", false)])));
    assert!(!can_answer(&plan, &scripted(&["é", "é"])));
    let plan = plan_completion("x", 1, &table);
    assert!(can_answer(&plan, &scripted(&["é", "é"])));
    assert!(can_answer(&plan, &programs(&["x", "xé"])));
    assert!(!can_answer(&plan, &programs(&["xé", "xéa"])));
}
