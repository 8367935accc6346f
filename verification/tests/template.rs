use dog3::parser::format_string::{
    escape, is_identifier_boundary, is_identifier_start, is_raw_boundary, is_special, remove_ends,
    FormatString, FormatStringPiece,
};
use dog3::parser::str_range::Range;

#[derive(Debug, PartialEq)]
enum P {
    Raw(String),
    Var(String),
}

fn raw(s: &str) -> P {
    P::Raw(s.to_string())
}

fn var(s: &str) -> P {
    P::Var(s.to_string())
}

fn pieces(template: &FormatString) -> Vec<P> {
    let mut iter = template.into_iter();
    let mut out = vec![];
    loop {
        match iter.next() {
            Some(FormatStringPiece::Raw(s)) => out.push(P::Raw(s.to_string())),
            Some(FormatStringPiece::Variable(s)) => out.push(P::Var(s.to_string())),
            None => break,
        }
    }
    out
}

fn concat(parts: &[P]) -> String {
    let mut s = String::new();
    for p in parts {
        match p {
            P::Raw(t) => s.push_str(t),
            P::Var(t) => s.push_str(t),
        }
    }
    s
}

#[test]
fn double_quoted_template_has_literal_and_variable_pieces() {
    let t = FormatString::parse("\"Hello $name!\"", true);
    assert_eq!(t.as_str(), "Hello name!");
    assert_eq!(pieces(&t), vec![raw("Hello "), var("name!")]);
}

#[test]
fn variable_name_ends_at_boundary() {
    let t = FormatString::parse("\"Hello $name, you\"", true);
    assert_eq!(pieces(&t), vec![raw("Hello "), var("name"), raw(", you")]);
    let t = FormatString::parse("\"$a $b\"", true);
    assert_eq!(pieces(&t), vec![var("a"), raw(" "), var("b")]);
    let t = FormatString::parse("\"$a$b\"", true);
    assert_eq!(pieces(&t), vec![var("a"), var("b")]);
    let t = FormatString::parse("\"$a%b;\"", true);
    assert_eq!(pieces(&t), vec![var("a%b"), raw(";")]);
}

#[test]
fn single_quoted_template_is_one_literal() {
    let t = FormatString::parse("'Hello $name!'", false);
    assert_eq!(t.as_str(), "Hello $name!");
    assert_eq!(pieces(&t), vec![raw("Hello $name!")]);
}

#[test]
fn escapes_are_replaced() {
    let t = FormatString::parse("\"a\\nb\\tc\\rd\\\\e\\qf\"", true);
    assert_eq!(t.as_str(), "a\nb\tc\rd\\eqf");
    assert_eq!(pieces(&t), vec![raw("a\nb\tc\rd\\eqf")]);
    let t = FormatString::parse("'a\\nb'", false);
    assert_eq!(t.as_str(), "a\nb");
}

#[test]
fn trailing_backslash_is_dropped() {
    let t = FormatString::parse("ab\\", true);
    assert_eq!(t.as_str(), "ab");
    assert_eq!(pieces(&t), vec![raw("ab")]);
}

#[test]
fn marker_at_the_end_opens_an_empty_name() {
    let t = FormatString::parse("\"ab$\"", true);
    assert_eq!(t.as_str(), "ab");
    assert_eq!(pieces(&t), vec![raw("ab"), var("")]);
    let t = FormatString::parse("$", true);
    assert_eq!(t.as_str(), "");
    assert_eq!(pieces(&t), vec![var("")]);
    let t = FormatString::parse("$", false);
    assert_eq!(t.as_str(), "$");
    assert_eq!(pieces(&t), vec![raw("$")]);
}

#[test]
fn quotes_are_stripped_once() {
    assert_eq!(remove_ends("\"abc\""), "abc");
    assert_eq!(remove_ends("'abc'"), "abc");
    assert_eq!(remove_ends("\"\"abc\"\""), "\"abc\"");
    assert_eq!(remove_ends("abc"), "abc");
    assert_eq!(remove_ends("\""), "");
    assert_eq!(remove_ends("\"\""), "");
    assert_eq!(remove_ends(""), "");
    assert_eq!(remove_ends("'é'"), "é");
}

#[test]
fn empty_template_has_no_pieces() {
    let t = FormatString::parse("", true);
    assert_eq!(t.as_str(), "");
    assert_eq!(pieces(&t), vec![]);
    let t = FormatString::parse("\"\"", true);
    assert_eq!(pieces(&t), vec![]);
    let t = FormatString::raw("");
    assert_eq!(t.as_str(), "");
    assert_eq!(pieces(&t), vec![]);
    let t = FormatString::raw(" ");
    assert_eq!(t.as_str(), " ");
    assert_eq!(pieces(&t), vec![]);
}

#[test]
fn pieces_spell_the_backing_text() {
    for (source, expand) in [
        ("\"Hello $name!\"", true),
        ("'Hello $name!'", false),
        ("\"héllo $wörld and $x\\n\"", true),
        ("\"$a$b$c\"", true),
        ("\"€uro $𝄞 x\"", true),
        ("plain", true),
        ("\"a\\$b\"", true),
    ] {
        let t = FormatString::parse(source, expand);
        assert_eq!(concat(&pieces(&t)), t.as_str());
    }
}

#[test]
fn walking_twice_gives_the_same_pieces() {
    let t = FormatString::parse("\"a $b c $d\"", true);
    let first = pieces(&t);
    let second = pieces(&t);
    assert_eq!(first, second);
    assert_eq!(first, vec![raw("a "), var("b"), raw(" c "), var("d")]);
    let copy = t.clone();
    assert_eq!(pieces(&copy), first);
    assert_eq!(copy.as_str(), t.as_str());
}

#[test]
fn wide_characters_keep_byte_ranges_on_boundaries() {
    let t = FormatString::parse("\"é$ü ß\"", true);
    assert_eq!(t.as_str(), "éü ß");
    assert_eq!(pieces(&t), vec![raw("é"), var("ü"), raw(" ß")]);
}

#[test]
fn character_classes() {
    for c in [';', ',', '{', '}', '(', ')', '"', '\'', '=', '$', '%', '[', ']', '`', '&'] {
        assert!(is_special(c));
    }
    assert!(!is_special('a'));
    assert!(!is_special(' '));
    assert!(is_identifier_boundary(None));
    assert!(is_identifier_boundary(Some(' ')));
    assert!(is_identifier_boundary(Some(';')));
    assert!(!is_identifier_boundary(Some('%')));
    assert!(!is_identifier_boundary(Some('a')));
    assert!(is_raw_boundary(None, false));
    assert!(is_raw_boundary(Some('$'), true));
    assert!(!is_raw_boundary(Some('$'), false));
    assert!(!is_raw_boundary(Some('a'), true));
    assert!(is_identifier_start(Some('$')));
    assert!(!is_identifier_start(Some('a')));
    assert!(!is_identifier_start(None));
    assert_eq!(escape('n'), '\n');
    assert_eq!(escape('r'), '\r');
    assert_eq!(escape('t'), '\t');
    assert_eq!(escape('x'), 'x');
    assert_eq!(escape('\\'), '\\');
}

#[test]
fn ranges_grow_by_utf8_width() {
    let mut first = Range::first_after(None, Some('é'));
    assert_eq!(first.slice("éa€"), "é");
    first.grow(Some('a'));
    assert_eq!(first.slice("éa€"), "éa");
    first.grow(None);
    assert_eq!(first.slice("éa€"), "éa");
    let second = Range::first_after(Some(&first), Some('€'));
    assert_eq!(second.slice("éa€"), "€");
    let empty = Range::first_after(Some(&second), None);
    assert_eq!(empty.slice("éa€"), "");
}

#[test]
fn escaped_marker_is_text() {
    let t = FormatString::parse("\"a\\$b\"", true);
    assert_eq!(t.as_str(), "a$b");
    assert_eq!(pieces(&t), vec![raw("a$b")]);
    assert_eq!(String::from(t), "a$b");
    let t = FormatString::parse("\"a\\$b c $d\\$e\"", true);
    assert_eq!(t.as_str(), "a$b c d$e");
    assert_eq!(pieces(&t), vec![raw("a$b c "), var("d"), raw("$e")]);
    let t = FormatString::parse("\"\\$\"", true);
    assert_eq!(pieces(&t), vec![raw("$")]);
    let t = FormatString::parse("'a\\$b'", false);
    assert_eq!(t.as_str(), "a$b");
    assert_eq!(pieces(&t), vec![raw("a$b")]);
}

#[test]
fn name_after_marker_ends_at_a_boundary() {
    let t = FormatString::parse("\"$,;\"", true);
    assert_eq!(t.as_str(), ",;");
    assert_eq!(pieces(&t), vec![var(""), raw(",;")]);
    let t = FormatString::parse("\"$ a\"", true);
    assert_eq!(t.as_str(), " a");
    assert_eq!(pieces(&t), vec![var(""), raw(" a")]);
    let t = FormatString::parse("\"x$$y\"", true);
    assert_eq!(t.as_str(), "xy");
    assert_eq!(pieces(&t), vec![raw("x"), var(""), var("y")]);
    let t = FormatString::parse("\"$\\n\"", true);
    assert_eq!(t.as_str(), "\n");
    assert_eq!(pieces(&t), vec![var(""), raw("\n")]);
    let t = FormatString::parse("\"$a\\nb\"", true);
    assert_eq!(pieces(&t), vec![var("a"), raw("\nb")]);
    let t = FormatString::parse("\"$a\\qb\"", true);
    assert_eq!(pieces(&t), vec![var("aqb")]);
    let t = FormatString::parse("\"$%a\"", true);
    assert_eq!(pieces(&t), vec![var("%a")]);
}

#[test]
fn template_gives_up_its_text() {
    assert_eq!(FormatString::parse("\"a $b\"", true).into_string(), "a b");
    assert_eq!(String::from(FormatString::parse("\"a $b\"", true)), "a b");
    let text: String = FormatString::parse("'x'", false).into();
    assert_eq!(text, "x");
}
