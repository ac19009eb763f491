use bootstrap_check::text::{is_whitespace, join_lines, split_whitespace, vec_strings};

fn strings(items: &[&str]) -> Vec<String> {
    items.iter().map(|s| s.to_string()).collect()
}

#[test]
fn white_space_is_the_unicode_property() {
    let mut code: u32 = 0;
    while code <= 0x10FFFF {
        if let Some(c) = char::from_u32(code) {
            assert_eq!(is_whitespace(c), c.is_whitespace(), "U+{:04X}", code);
        }
        code += 1;
    }
}

#[test]
fn white_space_examples() {
    assert!(is_whitespace(' '));
    assert!(is_whitespace('\t'));
    assert!(is_whitespace('\n'));
    assert!(is_whitespace('\r'));
    assert!(is_whitespace('\u{A0}'));
    assert!(is_whitespace('\u{3000}'));
    assert!(!is_whitespace('a'));
    assert!(!is_whitespace('0'));
    assert!(!is_whitespace('\u{200B}'));
    assert!(!is_whitespace('\u{0}'));
}

#[test]
fn words_of_a_record_line() {
    assert_eq!(
        split_whitespace("192.254.75.98 33445 951C88B7E75C86"),
        strings(&["192.254.75.98", "33445", "951C88B7E75C86"])
    );
}

#[test]
fn words_ignore_surrounding_and_repeated_white_space() {
    assert_eq!(split_whitespace("  a \t\t b\u{3000}c \n"), strings(&["a", "b", "c"]));
}

#[test]
fn words_of_empty_and_blank_text() {
    assert_eq!(split_whitespace(""), Vec::<String>::new());
    assert_eq!(split_whitespace(" \t \r\n"), Vec::<String>::new());
}

#[test]
fn words_of_a_single_word() {
    assert_eq!(split_whitespace("word"), strings(&["word"]));
    assert_eq!(split_whitespace("w"), strings(&["w"]));
    assert_eq!(split_whitespace(" w"), strings(&["w"]));
    assert_eq!(split_whitespace("w "), strings(&["w"]));
}

#[test]
fn words_keep_characters_outside_ascii() {
    assert_eq!(split_whitespace("näme ✔ 日本"), strings(&["näme", "✔", "日本"]));
}

#[test]
fn words_agree_with_std() {
    let samples = [
        "",
        " ",
        "a",
        "a b",
        " a  b ",
        "1.2.3.4 abc KEY",
        "one\ttwo\nthree\rfour\u{85}five\u{2028}six",
        "x\u{200B}y z",
        "\u{1680}lead",
        "trail\u{202F}",
        "a\u{A0}\u{A0}b",
    ];
    for s in samples.iter() {
        let expected: Vec<String> = s.split_whitespace().map(|w| w.to_string()).collect();
        assert_eq!(split_whitespace(s), expected, "{:?}", s);
    }
}

#[test]
fn lines_of_a_text() {
    assert_eq!(vec_strings("a\nb\nc"), strings(&["a", "b", "c"]));
}

#[test]
fn last_line_ending_is_optional() {
    assert_eq!(vec_strings("a\nb\n"), strings(&["a", "b"]));
    assert_eq!(vec_strings("a\nb"), strings(&["a", "b"]));
}

#[test]
fn empty_text_has_no_lines() {
    assert_eq!(vec_strings(""), Vec::<String>::new());
}

#[test]
fn empty_lines_are_lines() {
    assert_eq!(vec_strings("\n"), strings(&[""]));
    assert_eq!(vec_strings("\n\n"), strings(&["", ""]));
    assert_eq!(vec_strings("a\n\nb\n"), strings(&["a", "", "b"]));
    assert_eq!(vec_strings("\na"), strings(&["", "a"]));
}

#[test]
fn carriage_return_before_line_feed_belongs_to_the_ending() {
    assert_eq!(vec_strings("a\r\nb\r\n"), strings(&["a", "b"]));
    assert_eq!(vec_strings("\r\n"), strings(&[""]));
}

#[test]
fn other_carriage_returns_stay() {
    assert_eq!(vec_strings("a\rb\n"), strings(&["a\rb"]));
    assert_eq!(vec_strings("a\r\r\nb"), strings(&["a\r", "b"]));
    assert_eq!(vec_strings("a\r"), strings(&["a\r"]));
    assert_eq!(vec_strings("\r"), strings(&["\r"]));
    assert_eq!(vec_strings("\r\r"), strings(&["\r\r"]));
    assert_eq!(vec_strings("a\n\r"), strings(&["a", "\r"]));
}

#[test]
fn lines_agree_with_std() {
    let samples = [
        "",
        "\n",
        "\r\n",
        "\r",
        "a",
        "a\n",
        "a\r\n",
        "a\r",
        "a\nb",
        "a\r\nb\r\n",
        "a\r\r\n",
        "\n\n\n",
        "alice\nsecret\nexample.com\nbob@example.com\n",
        "x\ry\r\nz\n\r\n",
        "é\nü\r\n✔",
    ];
    for s in samples.iter() {
        let expected: Vec<String> = s.lines().map(|l| l.to_string()).collect();
        assert_eq!(vec_strings(s), expected, "{:?}", s);
    }
}

#[test]
fn join_puts_a_line_feed_between_lines() {
    assert_eq!(join_lines(&strings(&["a", "b", "c"])), "a\nb\nc");
}

#[test]
fn join_of_nothing_and_of_one_line() {
    assert_eq!(join_lines(&Vec::new()), "");
    assert_eq!(join_lines(&strings(&["only"])), "only");
    assert_eq!(join_lines(&strings(&[""])), "");
    assert_eq!(join_lines(&strings(&["", ""])), "\n");
}

#[test]
fn lines_of_joined_lines_are_the_lines() {
    let lines = strings(&["1.2.3.4 1 A", "5.6.7.8 2 B", "9.9.9.9 3 C"]);
    assert_eq!(vec_strings(&join_lines(&lines)), lines);
}
