use rshell::pipeline::{
    builtin_output, own_command_opens, own_command_output, plan_program, stage_query, Ending, Facts, Input, Output, PipelineRun, Query,
    Stage,
};
use rshell::redirect::Redirection;

fn strings(list: &[&str]) -> Vec<String> {
    list.iter().map(|s| s.to_string()).collect()
}

fn no_facts() -> Facts {
    Facts { found: None, cwd: Err("gone".to_string()) }
}

fn plain() -> Redirection {
    Redirection { stdout_target: None, stderr_target: None }
}

fn to_files() -> Redirection {
    Redirection {
        stdout_target: Some(("out".to_string(), true)),
        stderr_target: Some(("err".to_string(), false)),
    }
}

#[test]
fn what_has_to_be_found_out() {
    assert!(matches!(stage_query(&strings(&["type", "ls"])), Query::FindProgram(n) if n == "ls"));
    assert!(matches!(stage_query(&strings(&["type", "cd"])), Query::Nothing));
    assert!(matches!(stage_query(&strings(&["type"])), Query::Nothing));
    assert!(matches!(stage_query(&strings(&["pwd"])), Query::CurrentDir));
    assert!(matches!(stage_query(&strings(&["echo", "a"])), Query::Nothing));
    assert!(matches!(stage_query(&[]), Query::Nothing));
}

#[test]
fn what_own_commands_print() {
    let facts = Facts { found: Some("/bin/ls".to_string()), cwd: Ok("/tmp".to_string()) };
    let say = |list: &[&str], facts: &Facts| builtin_output(&strings(list), facts);
    assert_eq!(say(&["echo", "a", "b"], &facts), Ok("a b".to_string()));
    assert_eq!(say(&["echo"], &facts), Ok("".to_string()));
    assert_eq!(say(&["type", "ls"], &facts), Ok("ls is /bin/ls".to_string()));
    assert_eq!(say(&["type", "ls"], &no_facts()), Ok("ls: not found".to_string()));
    assert_eq!(say(&["type", "cd"], &facts), Ok("cd is a shell builtin".to_string()));
    assert_eq!(say(&["type"], &facts), Err("type: missing argument".to_string()));
    assert_eq!(say(&["pwd"], &facts), Ok("/tmp".to_string()));
    assert_eq!(say(&["pwd"], &no_facts()), Err("pwd: gone".to_string()));
    assert_eq!(say(&["cd", "x"], &facts), Err("cd: not supported in pipeline".to_string()));
}

#[test]
fn programs_are_chained() {
    let stages = vec![strings(&["ls", "-l"]), strings(&["grep", "x"]), strings(&["wc"])];
    let mut run = PipelineRun::new();
    match run.stage(&stages, 0, &to_files(), &no_facts()) {
        Stage::Spawn { program, args, stdin, stdout, stderr } => {
            assert_eq!(program, "ls");
            assert_eq!(args, ["-l"]);
            assert!(matches!(stdin, Input::Inherit));
            assert!(matches!(stdout, Output::Pipe));
            assert!(matches!(stderr, Output::Inherit));
        }
        _ => panic!("not started"),
    }
    match run.stage(&stages, 1, &to_files(), &no_facts()) {
        Stage::Spawn { stdin, stdout, .. } => {
            assert!(matches!(stdin, Input::Previous));
            assert!(matches!(stdout, Output::Pipe));
        }
        _ => panic!("not started"),
    }
    match run.stage(&stages, 2, &to_files(), &no_facts()) {
        Stage::Spawn { stdin, stdout, stderr, .. } => {
            assert!(matches!(stdin, Input::Previous));
            assert!(matches!(stdout, Output::File(n, true) if n == "out"));
            assert!(matches!(stderr, Output::File(n, false) if n == "err"));
        }
        _ => panic!("not started"),
    }
    assert!(run.finish(true) == Ending::Register);
    assert!(run.finish(false) == Ending::Wait);
}

#[test]
fn own_commands_feed_programs() {
    let stages = vec![strings(&["echo", "hi"]), strings(&["wc"])];
    let mut run = PipelineRun::new();
    assert!(matches!(run.stage(&stages, 0, &plain(), &no_facts()), Stage::Hold));
    match run.stage(&stages, 1, &plain(), &no_facts()) {
        Stage::Spawn { stdin, stdout, .. } => {
            assert!(matches!(stdin, Input::Text(t) if t == "hi\n"));
            assert!(matches!(stdout, Output::Inherit));
        }
        _ => panic!("not started"),
    }
    assert!(run.finish(true) == Ending::Register);
}

#[test]
fn own_commands_in_the_middle_cut_the_chain() {
    let stages = vec![strings(&["ls"]), strings(&["echo", "hi"]), strings(&["cat"])];
    let mut run = PipelineRun::new();
    run.stage(&stages, 0, &plain(), &no_facts());
    assert!(matches!(run.stage(&stages, 1, &plain(), &no_facts()), Stage::Hold));
    match run.stage(&stages, 2, &plain(), &no_facts()) {
        Stage::Spawn { stdin, .. } => assert!(matches!(stdin, Input::Text(t) if t == "hi\n")),
        _ => panic!("not started"),
    }
    assert!(run.finish(true) == Ending::Register);
}

#[test]
fn own_commands_at_the_end_print() {
    let stages = vec![strings(&["ls"]), strings(&["echo", "hi"])];
    let mut run = PipelineRun::new();
    run.stage(&stages, 0, &plain(), &no_facts());
    assert!(matches!(run.stage(&stages, 1, &plain(), &no_facts()), Stage::Print(t) if t == "hi"));
    let saved = run.stage(&stages, 1, &to_files(), &no_facts());
    assert!(matches!(saved, Stage::Save(t, n, true) if t == "hi" && n == "out"));
}

#[test]
fn own_commands_alone_print_or_write() {
    let printed = own_command_output("hi".to_string(), &plain());
    assert!(matches!(printed, Stage::Print(t) if t == "hi"));
    let saved = own_command_output("hi".to_string(), &to_files());
    assert!(matches!(saved, Stage::Save(t, n, true) if t == "hi" && n == "out"));
}

#[test]
fn own_commands_alone_open_the_error_target() {
    assert_eq!(own_command_opens(&plain()), None);
    assert_eq!(own_command_opens(&to_files()), Some(("err".to_string(), false)));
}

#[test]
fn own_commands_without_a_program_make_no_job() {
    let stages = vec![strings(&["echo", "a"]), strings(&["echo", "b"])];
    let mut run = PipelineRun::new();
    assert!(matches!(run.stage(&stages, 0, &plain(), &no_facts()), Stage::Hold));
    assert!(matches!(run.stage(&stages, 1, &plain(), &no_facts()), Stage::Print(t) if t == "b"));
    assert!(run.finish(true) == Ending::Nothing);
    assert!(run.finish(false) == Ending::Wait);
}

#[test]
fn failures_and_empty_commands() {
    let stages = vec![vec![], strings(&["exit"]), strings(&["cat"])];
    let mut run = PipelineRun::new();
    assert!(matches!(run.stage(&stages, 0, &plain(), &no_facts()), Stage::Skip));
    let failed = run.stage(&stages, 1, &plain(), &no_facts());
    assert!(matches!(failed, Stage::Fail(m) if m == "exit: not supported in pipeline"));
    match run.stage(&stages, 2, &plain(), &no_facts()) {
        Stage::Spawn { stdin, .. } => assert!(matches!(stdin, Input::Inherit)),
        _ => panic!("not started"),
    }
    assert!(PipelineRun::new().finish(true) == Ending::Nothing);
}

#[test]
fn a_program_alone() {
    let found = Some("/usr/bin/git".to_string());
    match plan_program("git", &strings(&["log"]), &to_files(), &found) {
        Ok(p) => {
            assert_eq!(p.path, "/usr/bin/git");
            assert_eq!(p.arg0, "git");
            assert_eq!(p.args, ["log"]);
            assert!(matches!(p.stdout, Output::File(n, true) if n == "out"));
            assert!(matches!(p.stderr, Output::File(n, false) if n == "err"));
        }
        Err(_) => panic!("not planned"),
    }
    match plan_program("nope", &[], &plain(), &None) {
        Ok(_) => panic!("planned"),
        Err(message) => assert_eq!(message, "nope: command not found"),
    }
}
