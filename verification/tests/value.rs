use dog3::runtime::lazy::{parse_i64, LazyParse};
use dog3::runtime::output::{join_outputs, CharIterator, Output};

fn pieces(text: &str, separator: Option<&str>) -> Vec<String> {
    let list = Output::new(text.to_string(), 0);
    let sep = separator.map(|s| Output::new(s.to_string(), 0));
    list.split(sep.as_ref())
}

#[test]
fn truthy_is_status_zero() {
    assert!(Output::new_truthy().is_truthy());
    assert!(!Output::new_falsy().is_truthy());
    for code in [-3i64, -1, 0, 1, 2, 200, i64::MAX, i64::MIN] {
        let value = Output::new("x".to_string(), code);
        assert_eq!(value.is_truthy(), value.code() == 0);
        assert_eq!(value.code(), code);
    }
}

#[test]
fn constructors_set_text_and_status() {
    assert_eq!(Output::new_truthy().value(), "");
    assert_eq!(Output::new_truthy().code(), 0);
    assert_eq!(Output::new_falsy().value(), "");
    assert_eq!(Output::new_falsy().code(), 1);
    assert_eq!(Output::new_truthy_with("a".to_string()).value(), "a");
    assert_eq!(Output::new_truthy_with("a".to_string()).code(), 0);
    assert_eq!(Output::new_falsy_with("b".to_string()).value(), "b");
    assert_eq!(Output::new_falsy_with("b".to_string()).code(), 1);
}

#[test]
fn append_takes_text_and_status() {
    let mut value = Output::new("ab".to_string(), 0);
    value.append(&Output::new("cd".to_string(), 3));
    assert_eq!(value.value(), "abcd");
    assert_eq!(value.code(), 3);
}

#[test]
fn append_str_keeps_status() {
    let mut value = Output::new("ab".to_string(), 5);
    value.append_str("é!");
    assert_eq!(value.value(), "abé!");
    assert_eq!(value.code(), 5);
}

#[test]
fn replace_keeps_status() {
    let mut value = Output::new("ab".to_string(), 5);
    value.replace("xyz".to_string());
    assert_eq!(value.value(), "xyz");
    assert_eq!(value.code(), 5);
}

#[test]
fn clone_keeps_text_and_status() {
    let value = Output::new("ab".to_string(), 5);
    let copy = value.clone();
    assert_eq!(copy.value(), "ab");
    assert_eq!(copy.code(), 5);
}

#[test]
fn split_empty_separator_yields_unicode_scalars() {
    assert_eq!(pieces("héllo", Some("")), vec!["h", "é", "l", "l", "o"]);
}

#[test]
fn split_without_separator_yields_words() {
    assert_eq!(pieces("  a   b  c ", None), vec!["a", "b", "c"]);
}

#[test]
fn split_without_separator_on_blank_text_is_empty() {
    assert_eq!(pieces("", None), Vec::<String>::new());
    assert_eq!(pieces(" \t\n ", None), Vec::<String>::new());
}

#[test]
fn split_on_separator_keeps_empty_pieces() {
    assert_eq!(pieces("a,b,,c", Some(",")), vec!["a", "b", "", "c"]);
    assert_eq!(pieces(",a,", Some(",")), vec!["", "a", ""]);
    assert_eq!(pieces("lion::tiger::leopard", Some("::")), vec!["lion", "tiger", "leopard"]);
    assert_eq!(pieces("abc", Some("x")), vec!["abc"]);
    assert_eq!(pieces("", Some("x")), vec![""]);
    assert_eq!(pieces("aaa", Some("aa")), vec!["", "a"]);
}

#[test]
fn split_empty_separator_on_empty_text_is_empty() {
    assert_eq!(pieces("", Some("")), Vec::<String>::new());
}

#[test]
fn split_iter_is_restartable() {
    let list = Output::new("x y".to_string(), 0);
    let mut first = list.split_iter(None);
    let mut second = list.split_iter(None);
    assert_eq!(first.next(), Some("x"));
    assert_eq!(first.next(), Some("y"));
    assert_eq!(first.next(), None);
    assert_eq!(first.next(), None);
    assert_eq!(second.next(), Some("x"));
    assert_eq!(second.next(), Some("y"));
    assert_eq!(second.next(), None);
}

#[test]
fn char_iterator_walks_wide_characters() {
    let mut iter = CharIterator::new("a€𝄞é");
    assert_eq!(iter.next(), Some("a"));
    assert_eq!(iter.next(), Some("€"));
    assert_eq!(iter.next(), Some("𝄞"));
    assert_eq!(iter.next(), Some("é"));
    assert_eq!(iter.next(), None);
    assert_eq!(iter.next(), None);
}

#[test]
fn integer_reading_follows_the_text() {
    let mut value = Output::new("42".to_string(), 0);
    assert_eq!(value.to_i64(), Some(42));
    assert_eq!(value.try_into_i64(), Some(42));
    assert_eq!(value.try_into_i64(), Some(42));
    value.append_str("x");
    assert_eq!(value.try_into_i64(), None);
    assert_eq!(value.to_i64(), None);
    value.replace("-7".to_string());
    assert_eq!(value.try_into_i64(), Some(-7));
    value.append(&Output::new("0".to_string(), 0));
    assert_eq!(value.to_i64(), Some(-70));
}

#[test]
fn integer_reading_edge_cases() {
    let read = |text: &str| Output::new(text.to_string(), 0).to_i64();
    assert_eq!(read(""), None);
    assert_eq!(read("+"), None);
    assert_eq!(read("-"), None);
    assert_eq!(read("+5"), Some(5));
    assert_eq!(read("007"), Some(7));
    assert_eq!(read(" 7"), None);
    assert_eq!(read("7 "), None);
    assert_eq!(read("1.5"), None);
    assert_eq!(read("9223372036854775807"), Some(i64::MAX));
    assert_eq!(read("9223372036854775808"), None);
    assert_eq!(read("-9223372036854775808"), Some(i64::MIN));
    assert_eq!(read("-9223372036854775809"), None);
}

#[test]
fn lazy_parse_remembers_until_discarded() {
    let mut cell: LazyParse<i64> = LazyParse::new();
    assert_eq!(cell.try_parse("12"), Some(12));
    assert_eq!(cell.try_parse("99"), Some(12));
    cell.discard();
    assert_eq!(cell.try_parse("abc"), None);
    assert_eq!(cell.try_parse("5"), None);
    cell.discard();
    assert_eq!(cell.try_parse("5"), Some(5));
}

#[test]
fn join_outputs_puts_spaces_between() {
    let none: Vec<Output> = vec![];
    assert_eq!(join_outputs(&none).value(), "");
    assert_eq!(join_outputs(&none).code(), 0);
    let one = vec![Output::new("a".to_string(), 4)];
    assert_eq!(join_outputs(&one).value(), "a");
    assert_eq!(join_outputs(&one).code(), 4);
    let three = vec![
        Output::new("a".to_string(), 4),
        Output::new("".to_string(), 0),
        Output::new("c".to_string(), 9),
    ];
    assert_eq!(join_outputs(&three).value(), "a  c");
    assert_eq!(join_outputs(&three).code(), 9);
}

#[test]
fn integer_reading_agrees_with_the_standard_library() {
    for text in [
        "", "0", "-0", "+0", "00", "-", "+", "--1", "+-1", "1-", "12a", "a12", " 1", "1 ", "１２",
        "٣", "1_000", "0x10", "1e3", "9223372036854775807", "9223372036854775808",
        "-9223372036854775808", "-9223372036854775809", "+9223372036854775807",
        "99999999999999999999999999999999999999999999", "-99999999999999999999999999999999999999",
        "000000000000000000000000000000000000000000000000000001", "18446744073709551616",
        "92233720368547758070", "-92233720368547758080x",
    ] {
        assert_eq!(parse_i64(text), text.parse::<i64>().ok(), "reading {:?}", text);
    }
    for n in [-1000i64, -1, 0, 1, 7, 10, 99, 12345678901234, i64::MAX, i64::MIN, i64::MAX - 1, i64::MIN + 1] {
        assert_eq!(parse_i64(&n.to_string()), Some(n));
    }
}

#[test]
fn integer_conversion_of_a_value() {
    assert_eq!(i64::try_from(&Output::new("-12".to_string(), 0)), Ok(-12));
    assert_eq!(i64::try_from(&Output::new("twelve".to_string(), 0)), Err(()));
    let number: Result<i64, ()> = (&Output::new("7".to_string(), 3)).try_into();
    assert_eq!(number, Ok(7));
}
