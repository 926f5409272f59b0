use flamegraph::text::chars_of;
use flamegraph::text::is_space;
use flamegraph::text::parse_line;

fn parsed(line: &str, reverse: bool) -> Option<(Vec<String>, u64)> {
    parse_line(line, reverse).map(|sample| (sample.frames, sample.count))
}

fn frames(names: &[&str]) -> Vec<String> {
    names.iter().map(|name| name.to_string()).collect()
}

/// The same rules, written with the string functions of the standard library.
fn by_the_book(line: &str, reverse: bool) -> Option<(Vec<String>, u64)> {
    let line = line.trim();
    let last = line.rfind(' ')?;
    let count: u64 = line[last + 1..].parse().ok()?;
    let stack = &line[..last];
    let names: Vec<String> = if reverse {
        stack.rsplit(';').filter(|s| !s.is_empty()).map(|s| s.to_string()).collect()
    } else {
        stack.split(';').filter(|s| !s.is_empty()).map(|s| s.to_string()).collect()
    };
    Some((names, count))
}

#[test]
fn a_line_is_a_stack_and_a_count() {
    assert_eq!(parsed("a;b 5", false), Some((frames(&["a", "b"]), 5)));
    assert_eq!(parsed("main;run;step 120", false), Some((frames(&["main", "run", "step"]), 120)));
    assert_eq!(parsed("one 0", false), Some((frames(&["one"]), 0)));
}

#[test]
fn the_last_space_parts_stack_and_count() {
    assert_eq!(parsed("a b;c d 7", false), Some((frames(&["a b", "c d"]), 7)));
    assert_eq!(parsed("a  7", false), Some((frames(&["a "]), 7)));
    assert_eq!(parsed("x 1 2", false), Some((frames(&["x 1"]), 2)));
}

#[test]
fn white_space_around_the_line_is_dropped() {
    assert_eq!(parsed("  a;b 5  ", false), Some((frames(&["a", "b"]), 5)));
    assert_eq!(parsed("\ta;b 5\r\n", false), Some((frames(&["a", "b"]), 5)));
    assert_eq!(parsed("\u{3000}a;b 5\u{a0}\u{2003}", false), Some((frames(&["a", "b"]), 5)));
    // After trimming no space is left.
    assert_eq!(parsed(" 5", false), None);
    assert_eq!(parsed("a ", false), None);
}

#[test]
fn a_stack_may_be_empty() {
    assert_eq!(parsed("; 5", false), Some((frames(&[]), 5)));
    assert_eq!(parsed("x  5", false), Some((frames(&["x "]), 5)));
    assert_eq!(parsed(";;; 3", true), Some((frames(&[]), 3)));
}

#[test]
fn empty_frame_names_are_dropped() {
    assert_eq!(parsed("a;;b 2", false), parsed("a;b 2", false));
    assert_eq!(parsed("a;;b 2", false), Some((frames(&["a", "b"]), 2)));
    assert_eq!(parsed(";a;;;b; 2", false), Some((frames(&["a", "b"]), 2)));
    assert_eq!(parsed(";a;;;b; 2", true), Some((frames(&["b", "a"]), 2)));
}

#[test]
fn reverse_puts_the_innermost_frame_first() {
    assert_eq!(parsed("a;b;c 5", true), Some((frames(&["c", "b", "a"]), 5)));
    assert_eq!(parsed("a 5", true), Some((frames(&["a"]), 5)));
}

#[test]
fn a_line_without_a_space_is_invalid() {
    assert_eq!(parsed("badline", false), None);
    assert_eq!(parsed("", false), None);
    assert_eq!(parsed("   ", false), None);
    assert_eq!(parsed("a;b;5", false), None);
    assert_eq!(parsed("a;b\t5", false), None);
}

#[test]
fn a_line_without_a_count_is_invalid() {
    assert_eq!(parsed("a;b five", false), None);
    assert_eq!(parsed("a;b 5x", false), None);
    assert_eq!(parsed("a;b x5", false), None);
    assert_eq!(parsed("a;b -5", false), None);
    assert_eq!(parsed("a;b 5.0", false), None);
    assert_eq!(parsed("a;b 1_000", false), None);
    assert_eq!(parsed("a;b +", false), None);
    assert_eq!(parsed("a;b ++5", false), None);
    assert_eq!(parsed("a;b 5+", false), None);
    assert_eq!(parsed("a;b \u{0663}", false), None);
    assert_eq!(parsed("a;b 0x10", false), None);
}

#[test]
fn a_count_may_have_a_plus_sign_and_leading_zeros() {
    assert_eq!(parsed("a +5", false), Some((frames(&["a"]), 5)));
    assert_eq!(parsed("a 007", false), Some((frames(&["a"]), 7)));
    assert_eq!(parsed("a +000", false), Some((frames(&["a"]), 0)));
}

#[test]
fn a_count_must_fit_64_bits() {
    assert_eq!(parsed("a 18446744073709551615", false), Some((frames(&["a"]), u64::MAX)));
    assert_eq!(parsed("a 18446744073709551616", false), None);
    assert_eq!(parsed("a 18446744073709551620", false), None);
    assert_eq!(parsed("a 99999999999999999999", false), None);
    assert_eq!(parsed("a 184467440737095516150", false), None);
    assert_eq!(
        parsed("a 000000000000000000000000018446744073709551615", false),
        Some((frames(&["a"]), u64::MAX))
    );
}

#[test]
fn names_may_hold_any_characters_but_the_separator() {
    assert_eq!(
        parsed("std::vec::Vec<T>::push;[kernel] 12", false),
        Some((frames(&["std::vec::Vec<T>::push", "[kernel]"]), 12))
    );
    assert_eq!(
        parsed("gr\u{fc}\u{df}e;\u{4e16}\u{754c};\u{1f525} 3", false),
        Some((frames(&["gr\u{fc}\u{df}e", "\u{4e16}\u{754c}", "\u{1f525}"]), 3))
    );
}

#[test]
fn the_rules_are_those_of_the_standard_string_functions() {
    let lines = [
        "a;b 5",
        "a;;b 2",
        " a;b 5 ",
        "badline",
        "",
        " ",
        "a b c 1",
        ";;; 9",
        "a;b +7",
        "a;b -7",
        "a;b 18446744073709551615",
        "a;b 18446744073709551616",
        "x;y;z 0010",
        "\u{2028}p;q 4\u{85}",
        "p;q\u{a0}4",
        "caf\u{e9};th\u{e9} 8",
        "a; b ;c  3",
        "tab\there 2",
        "trailing; 1 ",
        "a 1e3",
        "a +",
        "a ",
        "+ +1",
    ];
    for line in lines {
        assert_eq!(parsed(line, false), by_the_book(line, false));
        assert_eq!(parsed(line, true), by_the_book(line, true));
    }
}

#[test]
fn white_space_is_what_the_standard_library_calls_white_space() {
    let mut spaces = 0;
    for code in 0..=0x10FFFFu32 {
        if let Some(c) = char::from_u32(code) {
            assert_eq!(is_space(c), c.is_whitespace());
            if is_space(c) {
                spaces += 1;
            }
        }
    }
    assert_eq!(spaces, 25);
    assert!(is_space(' '));
    assert!(is_space('\n'));
    assert!(is_space('\u{3000}'));
    assert!(!is_space('a'));
    assert!(!is_space('\u{200b}'));
}

#[test]
fn chars_of_gives_the_characters_in_order() {
    assert_eq!(chars_of("a;\u{e9} 5"), vec!['a', ';', '\u{e9}', ' ', '5']);
    assert_eq!(chars_of(""), Vec::<char>::new());
}
