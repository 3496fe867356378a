use rshell::builtins::{builtins, describe_command, is_builtin};
use rshell::complete::CompletionTable;
use rshell::history::{History, HistoryRequest};
use rshell::redirect::Stream;
use rshell::shell::{
    cd_complaint, declare_text, dispatch, file_complaint, interpret, parse_complete, run_complete, Action,
    CompleteRequest, Report,
};

fn strings(list: &[&str]) -> Vec<String> {
    list.iter().map(|s| s.to_string()).collect()
}

fn act(list: &[&str]) -> Action {
    dispatch(&strings(list))
}

fn said(report: Option<Report>) -> (bool, String) {
    match report {
        Some(r) => (r.stream == Stream::Stdout, r.text),
        None => panic!("nothing said"),
    }
}

#[test]
fn names_of_own_commands() {
    for name in ["echo", "exit", "type", "pwd", "cd", "complete", "jobs", "history", "declare"] {
        assert!(is_builtin(name));
        assert!(builtins().contains(&name));
    }
    assert_eq!(builtins().len(), 9);
    assert!(!is_builtin("ls"));
    assert!(!is_builtin(""));
    assert!(!is_builtin("Echo"));
}

#[test]
fn descriptions() {
    assert_eq!(describe_command("echo", &None), "echo is a shell builtin");
    assert_eq!(describe_command("cat", &Some("/bin/cat".to_string())), "cat is /bin/cat");
    assert_eq!(describe_command("nope", &None), "nope: not found");
}

#[test]
fn lines_without_a_command() {
    for line in ["", "   ", "''", "&", " & ", "> f", "> f &"] {
        assert!(interpret(line).is_none(), "{:?}", line);
    }
}

#[test]
fn lines_with_a_command() {
    let i = interpret("  echo 'a b' > out \n").unwrap();
    assert_eq!(i.command, "echo 'a b' > out");
    assert_eq!(i.parts, ["echo", "a b"]);
    assert_eq!(i.redirection.stdout_target, Some(("out".to_string(), false)));
    assert!(!i.background);
    let i = interpret("sleep 5 &").unwrap();
    assert_eq!(i.command, "sleep 5 &");
    assert_eq!(i.parts, ["sleep", "5"]);
    assert!(i.background);
    let i = interpret("sleep 5&").unwrap();
    assert_eq!(i.parts, ["sleep", "5&"]);
    assert!(!i.background);
}

#[test]
fn pipes_come_first() {
    match act(&["echo", "a", "|", "wc"]) {
        Action::Pipeline(p) => assert_eq!(p, vec![strings(&["echo", "a"]), strings(&["wc"])]),
        _ => panic!("not a pipeline"),
    }
    assert!(matches!(act(&["exit", "|"]), Action::Pipeline(_)));
}

#[test]
fn own_commands() {
    assert!(matches!(act(&["exit", "1"]), Action::Exit));
    assert!(matches!(act(&["echo", "a", "b"]), Action::Echo(t) if t == "a b"));
    assert!(matches!(act(&["echo"]), Action::Echo(t) if t.is_empty()));
    assert!(matches!(act(&["type", "ls", "x"]), Action::Type(t) if t == "ls"));
    assert!(matches!(act(&["pwd"]), Action::Pwd));
    assert!(matches!(act(&["cd", "~"]), Action::Cd(t) if t == "~"));
    assert!(matches!(act(&["jobs"]), Action::Jobs));
    assert!(matches!(
        act(&["history", "3"]),
        Action::History(HistoryRequest::Show(Some(3)))
    ));
    assert!(matches!(
        act(&["complete", "-p", "git"]),
        Action::Complete(CompleteRequest::Show(c)) if c == "git"
    ));
}

#[test]
fn missing_arguments() {
    match act(&["type"]) {
        Action::Say(r) => assert_eq!(said(Some(r)), (true, "type: missing argument".to_string())),
        _ => panic!("nothing said"),
    }
    match act(&["cd"]) {
        Action::Say(r) => assert_eq!(said(Some(r)), (false, "cd: missing argument".to_string())),
        _ => panic!("nothing said"),
    }
}

#[test]
fn programs() {
    match act(&["git", "log", "-1"]) {
        Action::Run { program, args } => {
            assert_eq!(program, "git");
            assert_eq!(args, ["log", "-1"]);
        }
        _ => panic!("not run"),
    }
}

#[test]
fn declarations() {
    assert_eq!(declare_text(&strings(&["declare"])), "declare: missing arguments");
    assert_eq!(
        declare_text(&strings(&["declare", "-p"])),
        "declare: -p: option requires an argument"
    );
    assert_eq!(declare_text(&strings(&["declare", "-p", "X"])), "declare: X: not found");
    assert_eq!(
        declare_text(&strings(&["declare", "X=1"])),
        "declare: unknown option or missing flag"
    );
    match act(&["declare", "-p", "X"]) {
        Action::Say(r) => assert_eq!(said(Some(r)), (false, "declare: X: not found".to_string())),
        _ => panic!("nothing said"),
    }
}

#[test]
fn completion_commands() {
    let ask = |list: &[&str]| parse_complete(&strings(list));
    let mut t = CompletionTable::new();
    assert!(run_complete(&mut t, &ask(&["complete"])).is_none());
    assert!(run_complete(&mut t, &ask(&["complete", "-x", "git"])).is_none());
    assert!(run_complete(&mut t, &ask(&["complete", "-C", "/s", "git"])).is_none());
    assert_eq!(
        said(run_complete(&mut t, &ask(&["complete", "-p", "git"]))),
        (true, "complete -C '/s' git".to_string())
    );
    assert!(run_complete(&mut t, &ask(&["complete", "-r", "git"])).is_none());
    assert_eq!(
        said(run_complete(&mut t, &ask(&["complete", "-p", "git"]))),
        (false, "complete: git: no completion specification".to_string())
    );
}

#[test]
fn refused_completion_commands() {
    let mut t = CompletionTable::new();
    for (list, option) in [
        (vec!["complete", "-r"], "-r"),
        (vec!["complete", "-C", "/s"], "-C"),
        (vec!["complete", "-p"], "-p"),
    ] {
        let request = parse_complete(&strings(&list));
        assert_eq!(
            said(run_complete(&mut t, &request)),
            (false, format!("complete: {}: option requires an argument", option))
        );
    }
}

#[test]
fn complaints_about_files() {
    assert_eq!(file_complaint("cd", "/x", "No such file"), "cd: /x: No such file");
}

#[test]
fn entered_commands_read_back() {
    let mut history = History::new();
    for line in ["  echo 'a  b'\r", "ls | wc &", "\tx\u{a0}"] {
        history.push(&interpret(line).unwrap().command);
    }
    assert_eq!(history.file_text(), "echo 'a  b'\nls | wc &\nx\n");
    let mut again = History::new();
    again.load(&history.file_text());
    assert_eq!(again.list(None), history.list(None));
}

#[test]
fn complaints_of_cd() {
    let gone = Some("Permission denied".to_string());
    assert_eq!(cd_complaint("x", true, &None), None);
    assert_eq!(cd_complaint("x", true, &gone), Some("cd: x: Permission denied".to_string()));
    let nowhere = Some("cd: ~/y: No such file or directory".to_string());
    assert_eq!(cd_complaint("~/y", false, &None), nowhere);
    assert_eq!(cd_complaint("~/y", false, &gone), nowhere);
}
