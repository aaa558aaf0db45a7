use tospoof::text::{
    append, chars_of, decimal, digit, find, find_from, join, matches_at, replace, slice, split,
    string_of, strings_of, strip, trim, without_empty,
};

fn chars(text: &str) -> Vec<char> {
    text.chars().collect()
}

fn text(chars: &[char]) -> String {
    chars.iter().collect()
}

fn texts(rows: &[Vec<char>]) -> Vec<String> {
    rows.iter().map(|row| text(row)).collect()
}

const SAMPLES: [&str; 12] = [
    "",
    "a",
    "aaaa",
    "abcabcabc",
    "<x><y><x>",
    "a,b,,c,",
    ",",
    ",,",
    "  padded \t\n",
    "\u{a0}w\u{3000}",
    "ab<a>ba",
    "(\n|\r)+x(\n|\r)+",
];

const PATTERNS: [&str; 9] = ["a", "aa", "abc", ",", "<x>", "<a>", "(\n|\r)+", "b", "\u{a0}"];

#[test]
fn chars_and_strings_convert_both_ways() {
    for sample in SAMPLES {
        assert_eq!(chars(sample), chars_of(sample));
        assert_eq!(sample, string_of(&chars(sample)));
    }
    assert_eq!(
        vec!["a".to_string(), "".to_string(), "bc".to_string()],
        strings_of(&vec![chars("a"), chars(""), chars("bc")])
    );
}

#[test]
fn slice_copies_a_range() {
    let s = chars("abcdef");
    assert_eq!(chars("cd"), slice(&s, 2, 4));
    assert_eq!(chars(""), slice(&s, 3, 3));
    assert_eq!(s, slice(&s, 0, 6));
}

#[test]
fn append_adds_at_the_end() {
    let mut s = chars("ab");
    append(&mut s, &chars("cd"));
    append(&mut s, &chars(""));
    assert_eq!(chars("abcd"), s);
}

#[test]
fn strip_is_a_filter() {
    for sample in SAMPLES {
        let expected: String = sample.chars().filter(|c| !c.is_whitespace()).collect();
        assert_eq!(expected, text(&strip(&chars(sample))));
    }
}

#[test]
fn find_is_the_first_occurrence() {
    for sample in SAMPLES {
        for pattern in PATTERNS {
            let expected = sample
                .find(pattern)
                .map(|bytes| sample[..bytes].chars().count());
            assert_eq!(expected, find(&chars(sample), &chars(pattern)));
        }
    }
}

#[test]
fn find_of_an_empty_pattern_is_the_start() {
    assert_eq!(Some(0), find(&chars("abc"), &chars("")));
    assert_eq!(Some(0), find(&chars(""), &chars("")));
    assert_eq!(Some(2), find_from(&chars("abc"), &chars(""), 2));
    assert_eq!(Some(3), find_from(&chars("abc"), &chars(""), 3));
    assert_eq!(None, find_from(&chars("abc"), &chars(""), 4));
}

#[test]
fn find_from_skips_what_is_before() {
    let s = chars("abcabc");
    assert_eq!(Some(0), find_from(&s, &chars("abc"), 0));
    assert_eq!(Some(3), find_from(&s, &chars("abc"), 1));
    assert_eq!(Some(3), find_from(&s, &chars("abc"), 3));
    assert_eq!(None, find_from(&s, &chars("abc"), 4));
    assert_eq!(None, find_from(&s, &chars("abc"), 9));
    assert_eq!(None, find_from(&chars("ab"), &chars("abc"), 0));
}

#[test]
fn matches_at_compares_in_place() {
    let s = chars("abcabc");
    assert!(matches_at(&s, &chars("bc"), 1));
    assert!(matches_at(&s, &chars("bc"), 4));
    assert!(!matches_at(&s, &chars("bc"), 0));
    assert!(!matches_at(&s, &chars("bc"), 5));
    assert!(!matches_at(&s, &chars("bc"), 6));
    assert!(matches_at(&s, &chars(""), 6));
    assert!(!matches_at(&s, &chars(""), 7));
}

#[test]
fn split_is_what_std_splits() {
    for sample in SAMPLES {
        for pattern in PATTERNS {
            let expected: Vec<String> = sample.split(pattern).map(String::from).collect();
            assert_eq!(expected, texts(&split(&chars(sample), &chars(pattern))));
        }
    }
}

#[test]
fn split_takes_occurrences_without_overlap() {
    assert_eq!(
        vec!["", "", "a"],
        texts(&split(&chars("aaaaa"), &chars("aa")))
    );
    assert_eq!(vec!["", ""], texts(&split(&chars("ab"), &chars("ab"))));
    assert_eq!(vec![""], texts(&split(&chars(""), &chars("ab"))));
}

#[test]
fn without_empty_keeps_the_order() {
    assert_eq!(
        vec!["a", "b", "c"],
        texts(&without_empty(&split(&chars(",a,b,,c,"), &chars(","))))
    );
    assert!(without_empty(&split(&chars(",,"), &chars(","))).is_empty());
}

#[test]
fn join_puts_the_separator_between() {
    assert_eq!("", text(&join(&vec![], &chars(", "))));
    assert_eq!("a", text(&join(&vec![chars("a")], &chars(", "))));
    assert_eq!(
        "a, , b",
        text(&join(&vec![chars("a"), chars(""), chars("b")], &chars(", ")))
    );
    assert_eq!("ab", text(&join(&vec![chars("a"), chars("b")], &chars(""))));
}

#[test]
fn replace_is_what_std_replaces() {
    for sample in SAMPLES {
        for pattern in PATTERNS {
            for value in ["", "z", "<x>", "aa"] {
                assert_eq!(
                    sample.replace(pattern, value),
                    text(&replace(&chars(sample), &chars(pattern), &chars(value)))
                );
            }
        }
    }
}

#[test]
fn replace_does_not_look_at_what_it_wrote() {
    assert_eq!("aa", text(&replace(&chars("a"), &chars("a"), &chars("aa"))));
    assert_eq!("ba", text(&replace(&chars("aaa"), &chars("aa"), &chars("b"))));
}

#[test]
fn trim_is_what_std_trims() {
    for sample in SAMPLES {
        assert_eq!(sample.trim(), text(&trim(&chars(sample))));
    }
    assert_eq!("a b", text(&trim(&chars(" \t a b \r\n"))));
    assert_eq!("", text(&trim(&chars(" \t \r\n"))));
}

#[test]
fn decimal_is_what_std_writes() {
    for n in [0usize, 1, 9, 10, 11, 99, 100, 101, 12345, 9007199254740993, usize::MAX] {
        assert_eq!(n.to_string(), text(&decimal(n)));
    }
    for n in 0usize..10 {
        assert_eq!(n.to_string(), digit(n).to_string());
    }
}
