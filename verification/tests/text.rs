use whisper_gtk::text::{
    chars_of, ends_with, find_char, in_order, is_blank, is_whitespace, join_name, joined_text,
    lowercase_chars, parse_unsigned, same_text, signed_text, split_chars, starts_with, string_of,
    trim,
};

fn parsed(text: &str) -> Option<u32> {
    parse_unsigned(&chars_of(text))
}

#[test]
fn whitespace_is_that_of_unicode() {
    for code in 0..=0x3100u32 {
        if let Some(c) = char::from_u32(code) {
            assert_eq!(is_whitespace(c), c.is_whitespace());
        }
    }
}

#[test]
fn trimming_takes_both_ends() {
    for text in ["", " ", "a", " a b\t\n", "\u{2003}x\u{a0}", "no"] {
        assert_eq!(trim(text), text.trim());
        assert_eq!(trim(&trim(text)), trim(text));
        assert_eq!(is_blank(text), text.trim().is_empty());
    }
}

#[test]
fn characters_make_up_the_text() {
    for text in ["", "abc", "h\u{e9}llo \u{1f600}"] {
        assert_eq!(string_of(&chars_of(text)), text);
        assert!(same_text(text, &string_of(&chars_of(text))));
    }
    assert!(!same_text("a", "b"));
    assert_eq!(joined_text("ab", "cd"), "abcd");
}

#[test]
fn characters_are_found_and_split_at() {
    let chars = chars_of("a+b++c");
    assert_eq!(find_char(&chars, '+'), Some(1));
    assert_eq!(find_char(&chars, 'z'), None);
    let pieces: Vec<String> = split_chars(&chars, '+').into_iter().map(string_of).collect();
    assert_eq!(pieces, vec!["a", "b", "", "c"]);
    let none: Vec<String> = split_chars(&[], '+').into_iter().map(string_of).collect();
    assert_eq!(none, vec![""]);
}

#[test]
fn lower_case_is_that_of_ascii() {
    assert_eq!(string_of(&lowercase_chars(&chars_of("AbZ\u{c9}1"))), "abz\u{c9}1");
}

#[test]
fn numbers_are_read_as_they_are_written() {
    for text in ["0", "7", "007", "+5", "4294967295", "4294967296", "", "+", "-1", "1x", " 1"] {
        assert_eq!(parsed(text), text.parse::<u32>().ok());
    }
    for number in [0u32, 1, 9, 10, 4_294_967_295] {
        assert_eq!(parsed(&signed_text(number as i64)), Some(number));
    }
    for number in [0i64, -1, 10, -100, i64::MAX, i64::MIN] {
        assert_eq!(signed_text(number), number.to_string());
    }
}

#[test]
fn names_are_joined_with_one_slash() {
    assert_eq!(join_name("/usr/share", "x"), "/usr/share/x");
    assert_eq!(join_name("/", "x"), "/x");
    assert_eq!(join_name("", "x"), "x");
}

#[test]
fn fronts_and_ends_are_told() {
    for (text, part) in [("ggml-a.bin", "ggml-"), ("a", ""), ("", "a"), ("ab", "abc"), ("x.bin", ".bin")] {
        assert_eq!(starts_with(text, part), text.starts_with(part));
        assert_eq!(ends_with(text, part), text.ends_with(part));
    }
}

#[test]
fn order_is_that_of_the_characters() {
    let texts = ["", "a", "ab", "b", "B", "\u{e9}", "\u{1f600}", "\u{ffff}"];
    for a in texts {
        for b in texts {
            assert_eq!(in_order(a, b), a <= b);
        }
    }
}
