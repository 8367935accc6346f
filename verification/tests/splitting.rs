use dog3::split::{join_slices, lines_of, split_text, split_whitespace_text};

const SAMPLES: [&str; 14] = [
    "",
    "a",
    "a\n",
    "\n",
    "\n\n",
    "a\r\nb\rc\n\rd\r",
    "a\r",
    "\r\n",
    "one\ntwo\r\n\r\nthree",
    "  a   b  c ",
    "héllo wörld\u{2003}€\t𝄞",
    "aaaa",
    "abababa",
    "x::y::::z::",
];

#[test]
fn lines_agree_with_the_standard_library() {
    for text in SAMPLES {
        let expected: Vec<&str> = text.lines().collect();
        assert_eq!(lines_of(text), expected, "lines of {:?}", text);
    }
}

#[test]
fn words_agree_with_the_standard_library() {
    for text in SAMPLES {
        let expected: Vec<&str> = text.split_whitespace().collect();
        assert_eq!(split_whitespace_text(text), expected, "words of {:?}", text);
    }
}

#[test]
fn parts_agree_with_the_standard_library() {
    for text in SAMPLES {
        for separator in ["a", "aa", "ab", "aba", "::", "\n", " ", "é", "€\t", "zzz"] {
            let expected: Vec<&str> = text.split(separator).collect();
            assert_eq!(split_text(text, separator), expected, "{:?} by {:?}", text, separator);
            assert_eq!(
                join_slices(&split_text(text, separator), "+"),
                text.replace(separator, "+")
            );
        }
    }
}

#[test]
fn joining_puts_the_separator_between() {
    assert_eq!(join_slices(&vec![], ", "), "");
    assert_eq!(join_slices(&vec!["a"], ", "), "a");
    assert_eq!(join_slices(&vec!["a", "", "c"], ", "), "a, , c");
}
