use flamegraph::format::push_escaped;
use flamegraph::format::push_grouped;
use flamegraph::format::push_number;
use flamegraph::format::push_text;

fn number(n: u64) -> String {
    let mut out = String::new();
    push_number(&mut out, n);
    out
}

fn grouped(n: u64, separator: char) -> String {
    let mut out = String::new();
    push_grouped(&mut out, n, separator);
    out
}

fn escaped(text: &str) -> String {
    let mut out = String::new();
    push_escaped(&mut out, text);
    out
}

#[test]
fn numbers_are_written_in_base_ten() {
    assert_eq!(number(0), "0");
    assert_eq!(number(7), "7");
    assert_eq!(number(10), "10");
    assert_eq!(number(909), "909");
    assert_eq!(number(1234567890), "1234567890");
    assert_eq!(number(u64::MAX), "18446744073709551615");
    for n in [1u64, 9, 11, 99, 100, 101, 5000, 65535, 1 << 40] {
        assert_eq!(number(n), n.to_string());
    }
}

#[test]
fn thousands_are_set_apart() {
    assert_eq!(grouped(0, ','), "0");
    assert_eq!(grouped(999, ','), "999");
    assert_eq!(grouped(1000, ','), "1,000");
    assert_eq!(grouped(1001, ','), "1,001");
    assert_eq!(grouped(12345, ','), "12,345");
    assert_eq!(grouped(100000, ','), "100,000");
    assert_eq!(grouped(1000000, ','), "1,000,000");
    assert_eq!(grouped(1234567, ','), "1,234,567");
    assert_eq!(grouped(1002003, ','), "1,002,003");
    assert_eq!(grouped(u64::MAX, ','), "18,446,744,073,709,551,615");
    assert_eq!(grouped(1234567, '.'), "1.234.567");
    assert_eq!(grouped(1234567, '\u{202f}'), "1\u{202f}234\u{202f}567");
}

#[test]
fn numbers_are_appended_to_what_is_there() {
    let mut out = String::from("n=");
    push_number(&mut out, 42);
    out.push(' ');
    push_grouped(&mut out, 4200, ',');
    assert_eq!(out, "n=42 4,200");
}

#[test]
fn text_is_appended_as_it_is() {
    let mut out = String::from("<g>");
    push_text(&mut out, "a<b> & \u{e9}");
    push_text(&mut out, "");
    assert_eq!(out, "<g>a<b> & \u{e9}");
}

#[test]
fn markup_characters_are_written_as_entities() {
    assert_eq!(escaped("plain"), "plain");
    assert_eq!(escaped(""), "");
    assert_eq!(escaped("a<b"), "a&lt;b");
    assert_eq!(escaped("a>b"), "a&gt;b");
    assert_eq!(escaped("a&b"), "a&amp;b");
    assert_eq!(escaped("say \"hi\""), "say &quot;hi&quot;");
    assert_eq!(escaped("it's"), "it&apos;s");
    assert_eq!(escaped("&amp;"), "&amp;amp;");
    assert_eq!(
        escaped("std::vec::Vec<T>::push<'a, \"x\">&"),
        "std::vec::Vec&lt;T&gt;::push&lt;&apos;a, &quot;x&quot;&gt;&amp;"
    );
    assert_eq!(escaped("gr\u{fc}n \u{1f525}"), "gr\u{fc}n \u{1f525}");
}

#[test]
fn escaped_text_is_appended_to_what_is_there() {
    let mut out = String::from("<title>");
    push_escaped(&mut out, "a<b");
    assert_eq!(out, "<title>a&lt;b");
}

#[test]
fn escaped_text_holds_no_markup_character() {
    let text = escaped("<<a href=\"x\">>'&'&&<");
    assert!(!text.contains('<'));
    assert!(!text.contains('>'));
    assert!(!text.contains('"'));
    assert!(!text.contains('\''));
}
