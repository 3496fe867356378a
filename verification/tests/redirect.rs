use rshell::redirect::{parse_operator, parse_with_redirection, split_by_pipes, Stream};

fn target(name: &str, append: bool) -> Option<(String, bool)> {
    Some((name.to_string(), append))
}

fn strings(list: &[&str]) -> Vec<String> {
    list.iter().map(|s| s.to_string()).collect()
}

#[test]
fn operators() {
    assert!(parse_operator(">") == Some((Stream::Stdout, false)));
    assert!(parse_operator("1>") == Some((Stream::Stdout, false)));
    assert!(parse_operator(">>") == Some((Stream::Stdout, true)));
    assert!(parse_operator("1>>") == Some((Stream::Stdout, true)));
    assert!(parse_operator("2>") == Some((Stream::Stderr, false)));
    assert!(parse_operator("2>>") == Some((Stream::Stderr, true)));
    assert!(parse_operator("3>").is_none());
    assert!(parse_operator(">>>").is_none());
    assert!(parse_operator("").is_none());
}

#[test]
fn redirections_are_taken_out() {
    let (parts, r) = parse_with_redirection("ls -l > out.txt 2>> err.txt tail");
    assert_eq!(parts, ["ls", "-l", "tail"]);
    assert_eq!(r.stdout_target, target("out.txt", false));
    assert_eq!(r.stderr_target, target("err.txt", true));
}

#[test]
fn nothing_is_redirected_without_operators() {
    let (parts, r) = parse_with_redirection("echo a>b");
    assert_eq!(parts, ["echo", "a>b"]);
    assert_eq!(r.stdout_target, None);
    assert_eq!(r.stderr_target, None);
}

#[test]
fn the_last_redirection_counts() {
    let (parts, r) = parse_with_redirection("cmd > a 1>> b");
    assert_eq!(parts, ["cmd"]);
    assert_eq!(r.stdout_target, target("b", true));
}

#[test]
fn an_operator_takes_any_word_as_its_file() {
    let (parts, r) = parse_with_redirection("cmd > > a");
    assert_eq!(parts, ["cmd", "a"]);
    assert_eq!(r.stdout_target, target(">", false));
}

#[test]
fn an_operator_at_the_end_is_a_word() {
    let (parts, r) = parse_with_redirection("cmd 2>");
    assert_eq!(parts, ["cmd", "2>"]);
    assert_eq!(r.stderr_target, None);
}

#[test]
fn quoting_does_not_protect_operators() {
    let (parts, r) = parse_with_redirection("echo '>' f");
    assert_eq!(parts, ["echo"]);
    assert_eq!(r.stdout_target, target("f", false));
}

#[test]
fn pipes_cut_commands() {
    let stages = split_by_pipes(&strings(&["ls", "-l", "|", "wc", "|", "cat"]));
    assert_eq!(stages, vec![strings(&["ls", "-l"]), strings(&["wc"]), strings(&["cat"])]);
}

#[test]
fn empty_commands_of_a_pipeline_are_dropped() {
    let stages = split_by_pipes(&strings(&["|", "a", "|", "|", "b", "|"]));
    assert_eq!(stages, vec![strings(&["a"]), strings(&["b"])]);
    assert!(split_by_pipes(&strings(&["|"])).is_empty());
    assert!(split_by_pipes(&[]).is_empty());
}

#[test]
fn pipelines_keep_every_word() {
    let parts = strings(&["a", "|", "b", "c", "|", "|", "d"]);
    let kept: Vec<String> = split_by_pipes(&parts).concat();
    assert_eq!(kept, strings(&["a", "b", "c", "d"]));
}

#[test]
fn commands_around_a_bar() {
    let mut both = split_by_pipes(&strings(&["a", "|", "b"]));
    both.extend(split_by_pipes(&strings(&["|", "c"])));
    assert_eq!(split_by_pipes(&strings(&["a", "|", "b", "|", "|", "c"])), both);
}

#[test]
fn an_operator_before_the_end_always_redirects() {
    for (line, redirects) in [("a b", false), ("a >", false), ("> a", true), ("a 2>> >", true)] {
        let (parts, r) = parse_with_redirection(line);
        assert_eq!(r.stdout_target.is_some() || r.stderr_target.is_some(), redirects);
        assert_eq!(parts.join(" ") != line, redirects);
    }
}
