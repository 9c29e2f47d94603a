use placard::text::{
    chars_of, is_whitespace, lines, parse_u32, push_two_digits, same_text, show_i64, show_u64,
    split, string_of, trim,
};

fn chars(s: &str) -> Vec<char> {
    s.chars().collect()
}

fn strings(v: Vec<Vec<char>>) -> Vec<String> {
    v.into_iter().map(|w| w.into_iter().collect()).collect()
}

const SAMPLES: [&str; 14] = [
    "",
    "a",
    "\n",
    "a\n",
    "a\nb",
    "a\r\nb\r\n",
    "a\r\r\nb\r",
    "\r\n\r\n",
    "a\n\n\nb",
    "  spaced  out  ",
    "\t\u{a0}x y\u{2003}\u{3000}",
    "\u{85}é…漢😀\u{1680}",
    "\r",
    " \r\n ",
];

#[test]
fn whitespace_is_what_the_standard_library_says() {
    for c in '\0'..=char::MAX {
        assert_eq!(is_whitespace(c), c.is_whitespace(), "{c:?}");
    }
}

#[test]
fn text_algorithms_agree_with_the_standard_library() {
    for s in SAMPLES {
        assert_eq!(chars_of(s), chars(s));
        assert_eq!(string_of(&chars(s)), s);
        assert_eq!(trim(s), s.trim(), "{s:?}");
        assert_eq!(strings(lines(&chars(s))), s.lines().collect::<Vec<_>>(), "{s:?}");
        assert_eq!(strings(split(&chars(s), ' ')), s.split(' ').collect::<Vec<_>>(), "{s:?}");
        for t in SAMPLES {
            assert_eq!(same_text(s, t), s == t);
        }
    }
}

#[test]
fn numbers_are_written_in_decimal() {
    for n in [0u64, 7, 10, 99, 100, 1_234_567_890, u64::MAX] {
        assert_eq!(show_u64(n), n.to_string());
    }
    for n in [0i64, -1, 42, i64::MAX, i64::MIN] {
        assert_eq!(show_i64(n), n.to_string());
    }
    let mut s = String::from("1:");
    push_two_digits(&mut s, 5);
    push_two_digits(&mut s, 42);
    assert_eq!(s, "1:0542");
}

#[test]
fn numbers_are_read_as_the_standard_library_reads_them() {
    for s in ["", "+", "-", "0", "+0", "007", "120", "4294967295", "4294967296", "99999999999999",
        "12a", " 1", "1 ", "++1", "-1", "١"]
    {
        assert_eq!(parse_u32(&chars(s), 0), s.parse::<u32>().ok(), "{s:?}");
        let after = format!("x {s}");
        assert_eq!(parse_u32(&chars(&after), 2), s.parse::<u32>().ok(), "{s:?}");
    }
}
