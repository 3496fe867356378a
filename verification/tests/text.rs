use rshell::format::{decimal_text, end_each, join_texts, padded_left, padded_right, parse_number};
use rshell::order::{in_order, sort_by_name, sort_texts};
use rshell::split::{
    cut_last, nonempty_lines, split_text, trim_end_char, trim_text, white_space,
};
use rshell::text::{
    byte_len, clone_texts, contains_text, from_chars, same, same_texts, starts_with, to_chars,
};

fn strings(list: &[&str]) -> Vec<String> {
    list.iter().map(|s| s.to_string()).collect()
}

const SAMPLES: [&str; 12] = [
    "", "a", "ab", "b", "é", "éa", "z", "日本", "\u{10ffff}", "\u{ffff}", "A b", "a\r",
];

#[test]
fn characters_and_back() {
    for s in SAMPLES {
        let chars = to_chars(s);
        assert_eq!(chars, s.chars().collect::<Vec<char>>());
        assert_eq!(from_chars(&chars), s);
        assert_eq!(byte_len(s), s.len());
    }
}

#[test]
fn comparing() {
    for a in SAMPLES {
        for b in SAMPLES {
            assert_eq!(same(a, b), a == b);
            assert_eq!(in_order(a, b), a <= b);
            assert_eq!(starts_with(a, b), a.starts_with(b));
        }
    }
}

#[test]
fn lists_of_texts() {
    let list = strings(&["a", "b"]);
    assert!(contains_text(&list, "b"));
    assert!(!contains_text(&list, "c"));
    assert!(same_texts(&list, &clone_texts(&list)));
    assert!(!same_texts(&list, &strings(&["a"])));
    assert!(!same_texts(&list, &strings(&["a", "c"])));
    assert_eq!(clone_texts(&list), list);
}

#[test]
fn white_space_is_that_of_unicode() {
    for n in 0..=0x10ffffu32 {
        if let Some(c) = char::from_u32(n) {
            assert_eq!(white_space(c), c.is_whitespace(), "{:x}", n);
        }
    }
}

#[test]
fn trimming() {
    for s in ["", " ", " a b\t", "\u{3000}x\u{85}", "x", "\r\nx y\n"] {
        assert_eq!(trim_text(s), s.trim());
    }
    assert_eq!(trim_end_char("sleep 5 &&", '&'), "sleep 5 ");
    assert_eq!(trim_end_char("&a", '&'), "&a");
    assert_eq!(trim_end_char("&&", '&'), "");
}

#[test]
fn splitting() {
    for s in ["", ":", "a:b", ":a::b:", "é:日"] {
        assert_eq!(split_text(s, ':'), s.split(':').collect::<Vec<&str>>());
    }
}

#[test]
fn cutting_at_the_last() {
    assert_eq!(cut_last("a/b/c", '/'), Some(("a/b/".to_string(), "c".to_string())));
    assert_eq!(cut_last("/", '/'), Some(("/".to_string(), "".to_string())));
    assert_eq!(cut_last("abc", '/'), None);
    assert_eq!(cut_last("", '/'), None);
}

#[test]
fn lines_of_a_text() {
    for s in ["", "a", "a\n", "a\r\nb", "\n\na\n\n", "a\r", "a\r\r\nb\r", "\r\n", "\r"] {
        let expected: Vec<&str> = s.lines().filter(|l| !l.is_empty()).collect();
        assert_eq!(nonempty_lines(s), expected, "{:?}", s);
    }
}

#[test]
fn joining() {
    assert_eq!(join_texts(&strings(&["a", "", "b"]), ", "), "a, , b");
    assert_eq!(join_texts(&strings(&["a"]), ", "), "a");
    assert_eq!(join_texts(&[], ", "), "");
    assert_eq!(end_each(&strings(&["a", "b"]), '\n'), "a\nb\n");
    assert_eq!(end_each(&[], '\n'), "");
}

#[test]
fn decimal_numbers() {
    for n in [0, 7, 10, 99, 100, 1234567890, usize::MAX] {
        assert_eq!(decimal_text(n), n.to_string());
        assert_eq!(parse_number(&decimal_text(n)), Some(n));
    }
}

#[test]
fn reading_numbers() {
    for s in [
        "", "+", "-", "-1", "+5", "++5", "007", "12a", " 1", "1 ", "٣",
        "18446744073709551615", "18446744073709551616", "99999999999999999999",
    ] {
        assert_eq!(parse_number(s), s.parse::<usize>().ok(), "{:?}", s);
    }
}

#[test]
fn padding() {
    assert_eq!(padded_right("Done", 24), format!("{:<24}", "Done"));
    assert_eq!(padded_left("12", 5), format!("{:5}", 12));
    assert_eq!(padded_left("123456", 5), "123456");
    assert_eq!(padded_right("éé", 3), format!("{:<3}", "éé"));
    assert_eq!(padded_right("abc", 0), "abc");
}

#[test]
fn sorting_agrees_with_byte_order() {
    let mut names = strings(&SAMPLES);
    names.push("a".to_string());
    let sorted = sort_texts(clone_texts(&names));
    names.sort();
    assert_eq!(sorted, names);
}

#[test]
fn sorting_is_stable() {
    let entries = vec![
        ("b".to_string(), true),
        ("a".to_string(), true),
        ("b".to_string(), false),
        ("a".to_string(), false),
    ];
    let expected = vec![
        ("a".to_string(), true),
        ("a".to_string(), false),
        ("b".to_string(), true),
        ("b".to_string(), false),
    ];
    assert_eq!(sort_by_name(entries), expected);
}
