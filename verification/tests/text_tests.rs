use am_python::text::{
    before_first_len, chars_of, is_white_space, join_strings, matches_at, split_lines, string_of,
    trim_bounds, trimmed,
};

fn owned(v: &[&str]) -> Vec<String> {
    v.iter().map(|s| s.to_string()).collect()
}

#[test]
fn white_space_agrees_with_std_on_every_char() {
    for n in 0u32..=0x10FFFF {
        if let Some(c) = char::from_u32(n) {
            assert_eq!(is_white_space(c), c.is_whitespace(), "char {:#x}", n);
        }
    }
}

#[test]
fn white_space_examples() {
    assert!(is_white_space(' '));
    assert!(is_white_space('\t'));
    assert!(is_white_space('\u{85}'));
    assert!(is_white_space('\u{3000}'));
    assert!(!is_white_space('a'));
    assert!(!is_white_space('\u{200B}'));
}

#[test]
fn trimmed_examples() {
    assert_eq!(trimmed("  a b \n"), "a b");
    assert_eq!(trimmed(""), "");
    assert_eq!(trimmed(" \t\r\n "), "");
    assert_eq!(trimmed("\u{3000}x\u{2028}"), "x");
    assert_eq!(trimmed("no-space"), "no-space");
}

#[test]
fn trimmed_agrees_with_std() {
    let samples = [
        "", " ", "a", " a", "a ", " a b ", "\n\nline\n", "\u{a0}wide\u{a0}", "x\r\n", "\t\u{85}y\u{85}z\t",
    ];
    for s in samples {
        assert_eq!(trimmed(s), s.trim(), "sample {:?}", s);
    }
}

#[test]
fn trim_bounds_marks_the_trimmed_part() {
    let cs: Vec<char> = "  ab ".chars().collect();
    assert_eq!(trim_bounds(&cs), (2, 4));
    let empty: Vec<char> = "   ".chars().collect();
    let (a, b) = trim_bounds(&empty);
    assert_eq!(a, b);
}

#[test]
fn split_lines_examples() {
    let cs = chars_of("a\r\nb\n\nc\r");
    assert_eq!(split_lines(&cs), owned(&["a", "b", "", "c\r"]));
    assert_eq!(split_lines(&chars_of("")), Vec::<String>::new());
    assert_eq!(split_lines(&chars_of("\n")), owned(&[""]));
    assert_eq!(split_lines(&chars_of("one")), owned(&["one"]));
    assert_eq!(split_lines(&chars_of("one\n")), owned(&["one"]));
    assert_eq!(split_lines(&chars_of("\r\n\r\n")), owned(&["", ""]));
}

#[test]
fn split_lines_agrees_with_std() {
    let samples = ["", "a", "a\n", "a\nb", "a\r\nb\r\n", "\n\n", "x\ry\n", "end\r", "\r", " \n \n"];
    for s in samples {
        let expected: Vec<String> = s.lines().map(|l| l.to_string()).collect();
        assert_eq!(split_lines(&chars_of(s)), expected, "sample {:?}", s);
    }
}

#[test]
fn chars_and_strings_round_trip() {
    let cs = chars_of("héllo");
    assert_eq!(cs, vec!['h', 'é', 'l', 'l', 'o']);
    assert_eq!(string_of(&cs, 1, 4), "éll");
    assert_eq!(string_of(&cs, 2, 2), "");
}

#[test]
fn matches_at_examples() {
    let cs = chars_of("ab  Count: 3");
    let pat = chars_of("  Count:");
    assert!(matches_at(&cs, 2, &pat));
    assert!(!matches_at(&cs, 1, &pat));
    assert!(!matches_at(&cs, 8, &pat));
    assert!(matches_at(&cs, 12, &[]));
}

#[test]
fn before_first_len_examples() {
    let pat = chars_of("  Count:");
    assert_eq!(before_first_len(&chars_of("abc  Count: 2"), &pat), 3);
    assert_eq!(before_first_len(&chars_of("no count here"), &pat), 13);
    assert_eq!(before_first_len(&chars_of("  Count: 1  Count: 2"), &pat), 0);
    assert_eq!(before_first_len(&chars_of(""), &pat), 0);
}

#[test]
fn join_strings_examples() {
    assert_eq!(join_strings(&owned(&["a", "b", "c"]), "\n"), "a\nb\nc");
    assert_eq!(join_strings(&owned(&["solo"]), ", "), "solo");
    assert_eq!(join_strings(&Vec::new(), "\n"), "");
    assert_eq!(join_strings(&owned(&["", ""]), "-"), "-");
}
