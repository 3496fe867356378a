use rshell::words::parse_command_with_quotes;

fn parse(s: &str) -> Vec<String> {
    parse_command_with_quotes(s)
}

#[test]
fn blanks_separate_words() {
    assert_eq!(parse("echo hello   world\tagain"), ["echo", "hello", "world", "again"]);
    assert_eq!(parse("  a  "), ["a"]);
    assert!(parse("").is_empty());
    assert!(parse(" \t ").is_empty());
}

#[test]
fn other_white_space_does_not_separate() {
    assert_eq!(parse("a\nb"), ["a\nb"]);
    assert_eq!(parse("a\u{a0}b"), ["a\u{a0}b"]);
}

#[test]
fn single_quotes_keep_everything() {
    assert_eq!(parse("echo 'a  b'"), ["echo", "a  b"]);
    assert_eq!(parse(r#"'a\nb"c'"#), [r#"a\nb"c"#]);
    assert_eq!(parse("a'b c'd"), ["ab cd"]);
    assert_eq!(parse("'a''b'"), ["ab"]);
}

#[test]
fn double_quotes_know_four_escapes() {
    assert_eq!(parse(r#""a  b""#), ["a  b"]);
    assert_eq!(parse(r#""\"\\\$\`""#), [r#""\$`"#]);
    assert_eq!(parse(r#""\n\'""#), [r"\n\'"]);
    assert_eq!(parse("\"a\\\nb\""), ["ab"]);
    assert_eq!(parse(r#""it's""#), ["it's"]);
}

#[test]
fn backslash_outside_quotes_takes_the_next_character() {
    assert_eq!(parse(r"a\ b"), ["a b"]);
    assert_eq!(parse(r"\'a\'"), ["'a'"]);
    assert_eq!(parse(r"\n"), ["n"]);
    assert_eq!(parse("a\\\nb"), ["a\nb"]);
}

#[test]
fn unfinished_lines() {
    assert_eq!(parse(r"a\"), ["a"]);
    assert!(parse(r"\").is_empty());
    assert_eq!(parse("'a b"), ["a b"]);
    assert_eq!(parse("\"a\\"), ["a\\"]);
}

#[test]
fn quotes_around_nothing_make_no_word() {
    assert!(parse("''").is_empty());
    assert_eq!(parse("a '' b"), ["a", "b"]);
    assert_eq!(parse("\"\"x"), ["x"]);
}

#[test]
fn escaped_words_come_back() {
    let words = ["a b", "'", "\"\\", "é\n", "|"];
    let mut line = String::new();
    for w in words {
        for c in w.chars() {
            line.push('\\');
            line.push(c);
        }
        line.push(' ');
    }
    assert_eq!(parse(&line), words);
}

#[test]
fn escaped_text_in_double_quotes_comes_back() {
    let text = "a\"b\\c$d`e\n 'f'";
    let mut line = String::from("\"");
    for c in text.chars() {
        if matches!(c, '"' | '\\' | '$' | '`') {
            line.push('\\');
        }
        line.push(c);
    }
    line.push('"');
    assert_eq!(parse(&line), [text]);
}

#[test]
fn words_around_a_blank() {
    for (a, b) in [("'a b'", "c"), ("x\\ y", "'z"), ("\"q\\\"\"", ""), ("", "w")] {
        let mut both = parse(a);
        both.extend(parse(b));
        assert_eq!(parse(&format!("{} {}", a, b)), both);
        assert_eq!(parse(&format!("{}\t{}", a, b)), both);
    }
}
