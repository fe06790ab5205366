use manaudit::order::{compare_str, same_str, Order};
use manaudit::text::{
    begins_with, chars_of, has_suffix, holds, is_str, lines_of, matches_at, split_at_each,
    string_of, without_prefixes, without_suffixes,
};

fn cs(s: &str) -> Vec<char> {
    s.chars().collect()
}

fn strings(v: Vec<Vec<char>>) -> Vec<String> {
    v.into_iter().map(|l| l.into_iter().collect()).collect()
}

#[test]
fn characters_of_a_string_and_back() {
    assert_eq!(chars_of("a\u{e9}\u{1f600}b"), vec!['a', '\u{e9}', '\u{1f600}', 'b']);
    assert!(chars_of("").is_empty());
    assert_eq!(string_of(&cs("a\u{e9}\u{1f600}b")), "a\u{e9}\u{1f600}b");
    assert_eq!(string_of(&[]), "");
}

#[test]
fn lines_are_those_of_the_standard_library() {
    for text in [
        "",
        "\n",
        "a",
        "a\n",
        "a\nb",
        "a\n\nb\n",
        "a\r\nb\r\n",
        "a\rb\n",
        "a\r",
        "a\r\r\n",
        "\r\n",
        "\r",
        "\n\n",
        "x\n\r\ny",
        "one\ntwo\r\nthree",
    ] {
        let want: Vec<String> = text.lines().map(|l| l.to_string()).collect();
        assert_eq!(strings(lines_of(&cs(text))), want);
    }
}

#[test]
fn split_is_that_of_the_standard_library() {
    for text in ["", "a", "\t", "a\tb", "a\t\tb", "\ta\t", "a\tb\tc\td", "\t\t\t"] {
        let want: Vec<String> = text.split('\t').map(|l| l.to_string()).collect();
        assert_eq!(strings(split_at_each(&cs(text), '\t')), want);
    }
}

#[test]
fn beginnings_ends_and_what_lies_between() {
    assert!(begins_with(&cs(".TH LS 1"), ".TH"));
    assert!(begins_with(&cs(".TH"), ".TH"));
    assert!(begins_with(&cs("x"), ""));
    assert!(!begins_with(&cs(".T"), ".TH"));
    assert!(!begins_with(&cs("x.TH"), ".TH"));
    assert!(has_suffix(&cs("ls.1"), &cs(".1")));
    assert!(!has_suffix(&cs("ls.1"), &cs(".2")));
    assert!(!has_suffix(&cs("1"), &cs(".1")));
    assert!(is_str(&cs(".Os"), ".Os"));
    assert!(!is_str(&cs(".Os "), ".Os"));
    assert!(!is_str(&cs(".O"), ".Os"));
    assert!(holds(&cs("a Copyright b"), "Copyright"));
    assert!(holds(&cs("Copyright"), "Copyright"));
    assert!(holds(&cs("xCopyright"), "Copyright"));
    assert!(!holds(&cs("Copyrigh"), "Copyright"));
    assert!(holds(&cs("abc"), ""));
    assert!(holds(&cs(""), ""));
    assert!(matches_at(&cs("abc"), &cs("bc"), 1));
    assert!(!matches_at(&cs("abc"), &cs("bc"), 2));
    assert!(!matches_at(&cs("abc"), &cs("bc"), 7));
}

#[test]
fn stripping_is_that_of_the_standard_library() {
    for (s, p) in [("manman1", "man"), ("man", "man"), ("1", "man"), ("ma", "man"), ("", "man")] {
        let got: String = without_prefixes(&cs(s), &cs(p)).iter().collect();
        assert_eq!(got, s.trim_start_matches(p));
    }
    for (s, p) in [("ls.1.1", ".1"), (".1", ".1"), ("ls", ".1"), ("ls.1x", ".1"), ("", ".1")] {
        let got: String = without_suffixes(&cs(s), &cs(p)).iter().collect();
        assert_eq!(got, s.trim_end_matches(p));
    }
    let got: String = without_prefixes(&cs("abc"), &[]).iter().collect();
    assert_eq!(got, "abc");
}

#[test]
fn strings_compare_as_in_the_standard_library() {
    let samples = ["", "1", "1M", "10", "2", "a", "A", "ab", "b", "\u{e9}", "z\u{1f600}", "zz"];
    for a in samples {
        for b in samples {
            let want = match a.cmp(b) {
                std::cmp::Ordering::Less => Order::Less,
                std::cmp::Ordering::Equal => Order::Equal,
                std::cmp::Ordering::Greater => Order::Greater,
            };
            assert_eq!(compare_str(a, b), want);
            assert_eq!(same_str(a, b), a == b);
        }
    }
}
