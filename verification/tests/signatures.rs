use tospoof::global::{parse_function_args, remove_whitespace};
use tospoof::text::is_whitespace;

fn parsed(key: &str, items: &[&str]) -> (String, Vec<String>) {
    (
        key.to_string(),
        items.iter().map(|item| item.to_string()).collect(),
    )
}

#[test]
fn test_remove_whitespace() {
    assert_eq!(
        "abcdef",
        remove_whitespace(" a \t\t b \t c \n d \r e \r\n f \n")
    );
}

#[test]
fn test_parse_function_args_no_args() {
    assert_eq!(
        ("func_no_args".to_string(), vec![]),
        parse_function_args(" \r\n func_no_args \r\n ")
    );
}

#[test]
fn test_parse_function_args_three_args() {
    assert_eq!(
        (
            "func(3)".to_string(),
            vec!["one".to_string(), "two".to_string(), "three".to_string()]
        ),
        parse_function_args(" \r\n func(one, two, three) \r\n ")
    );
}

#[test]
fn whitespace_is_what_std_calls_whitespace() {
    for code in 0..=0x10FFFFu32 {
        if let Some(c) = char::from_u32(code) {
            assert_eq!(is_whitespace(c), c.is_whitespace(), "U+{:04X}", code);
        }
    }
}

#[test]
fn remove_whitespace_of_nothing() {
    assert_eq!("", remove_whitespace(""));
    assert_eq!("", remove_whitespace(" \t\r\n"));
}

#[test]
fn remove_whitespace_beyond_ascii() {
    assert_eq!(
        "a\u{e9}b",
        remove_whitespace("\u{3000}a\u{a0}\u{e9}\u{2003}b\u{85}")
    );
}

#[test]
fn remove_whitespace_twice_is_once() {
    let once = remove_whitespace(" a b\tc ");
    assert_eq!(once, remove_whitespace(&once));
}

#[test]
fn empty_parentheses_give_a_bare_key() {
    assert_eq!(parsed("name", &[]), parse_function_args("name()"));
    assert_eq!(parsed("name", &[]), parse_function_args(" name ( ) "));
}

#[test]
fn empty_items_are_dropped() {
    assert_eq!(
        parsed("name(2)", &["a", "b"]),
        parse_function_args("name(a,,b,)")
    );
    assert_eq!(parsed("name", &[]), parse_function_args("name(,,)"));
}

#[test]
fn whitespace_inside_items_is_removed() {
    assert_eq!(
        parsed("local(2)", &["0", "<last>"]),
        parse_function_args("local(0, < last >)")
    );
}

#[test]
fn one_item() {
    assert_eq!(
        parsed("my-domains(1)", &["de"]),
        parse_function_args("my-domains(de)")
    );
}

#[test]
fn twelve_items_are_counted_in_decimal() {
    assert_eq!(
        parsed(
            "f(12)",
            &["a", "b", "c", "d", "e", "f", "g", "h", "i", "j", "k", "l"]
        ),
        parse_function_args("f(a,b,c,d,e,f,g,h,i,j,k,l)")
    );
}

#[test]
fn the_final_character_is_dropped_whatever_it_is() {
    assert_eq!(parsed("f(1)", &["x"]), parse_function_args("f(xy"));
    assert_eq!(parsed("f", &[]), parse_function_args("f(x"));
}

#[test]
fn a_parenthesis_at_the_end_opens_nothing() {
    assert_eq!(parsed("abc", &[]), parse_function_args("abc("));
    assert_eq!(parsed("", &[]), parse_function_args("("));
}

#[test]
fn only_the_first_parenthesis_counts() {
    assert_eq!(
        parsed("f(2)", &["g(a)", "b"]),
        parse_function_args("f(g(a),b)")
    );
    assert_eq!(
        parsed("f(2)", &["g(a", "b)"]),
        parse_function_args("f(g(a,b))")
    );
}

#[test]
fn a_closing_parenthesis_alone_is_part_of_the_key() {
    assert_eq!(parsed("a)b", &[]), parse_function_args("a)b"));
}

#[test]
fn empty_text_is_an_empty_key() {
    assert_eq!(parsed("", &[]), parse_function_args(""));
    assert_eq!(parsed("", &[]), parse_function_args("  \n"));
}

#[test]
fn a_key_without_parentheses_parses_to_itself() {
    for text in [" func_no_args ", "name()", "my - prj", "127.0.0.1", "x(,)"] {
        let (key, _) = parse_function_args(text);
        assert!(!key.contains('('));
        assert_eq!((key.clone(), vec![]), parse_function_args(&key));
    }
}

#[test]
fn a_key_with_a_count_parses_to_a_call_with_one_item() {
    let (key, _) = parse_function_args("func(one, two, three)");
    assert_eq!(parsed("func(1)", &["3"]), parse_function_args(&key));
}
