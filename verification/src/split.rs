//! Cutting a text into pieces: at the occurrences of a separator, and at
//! runs of whitespace.

use vstd::prelude::*;
use vstd::string::StringExecFns;
use crate::text::{
    byte_len, byte_slice, chars_of, join_texts, lemma_byte_range_of_middle, lemma_encode_concat,
    lemma_prefix_cut, utf8_len, utf8_width, white_space, width_of,
};

verus! {

/// Position of the first occurrence of `separator` in `text` at or after
/// position `i`, or -1 where there is none.
pub open spec fn find_from(text: Seq<char>, separator: Seq<char>, i: int) -> int
    decreases text.len() - i,
{
    if i < 0 || i + separator.len() > text.len() {
        -1
    } else if text.subrange(i, i + separator.len()) == separator {
        i
    } else if i >= text.len() {
        -1
    } else {
        find_from(text, separator, i + 1)
    }
}

/// The parts of `text` between the occurrences of a non-empty `separator`,
/// found from the left and not overlapping; empty parts count.
pub open spec fn split_on(text: Seq<char>, separator: Seq<char>) -> Seq<Seq<char>>
    decreases text.len(),
{
    let at = find_from(text, separator, 0);
    if separator.len() == 0 || at < 0 || at + separator.len() > text.len() {
        seq![text]
    } else {
        seq![text.take(at)] + split_on(text.skip(at + separator.len()), separator)
    }
}

/// Number of characters before the first whitespace of `text`.
pub open spec fn word_len(text: Seq<char>) -> int
    decreases text.len(),
{
    if text.len() == 0 || white_space(text[0]) {
        0
    } else {
        1 + word_len(text.drop_first())
    }
}

/// The words of `text`: its longest runs without whitespace.
pub open spec fn split_words(text: Seq<char>) -> Seq<Seq<char>>
    decreases text.len(),
{
    if text.len() == 0 {
        Seq::empty()
    } else if white_space(text[0]) {
        split_words(text.drop_first())
    } else {
        let n = word_len(text);
        if 0 < n <= text.len() {
            seq![text.take(n)] + split_words(text.skip(n))
        } else {
            Seq::empty()
        }
    }
}

/// One text per character of `text`.
pub open spec fn split_chars(text: Seq<char>) -> Seq<Seq<char>> {
    Seq::new(text.len(), |i: int| seq![text[i]])
}

/// The texts of a list of string slices.
pub open spec fn texts_of(pieces: Seq<&str>) -> Seq<Seq<char>> {
    Seq::new(pieces.len(), |i: int| pieces[i]@)
}

/// The characters `i..j` of `text`, given the bytes at which they begin and end.
pub(crate) fn cut<'a>(text: &'a str, begin: usize, end: usize, Ghost(i): Ghost<int>, Ghost(j): Ghost<int>) -> (res:
    &'a str)
    requires
        0 <= i <= j <= text@.len(),
        begin == utf8_len(text@.take(i)),
        end == utf8_len(text@.take(j)),
    ensures
        res@ == text@.subrange(i, j),
{
    proof {
        let head = text@.take(i);
        let middle = text@.subrange(i, j);
        let tail = text@.skip(j);
        assert(text@ =~= head + middle + tail);
        assert(text@.take(j) =~= head + middle);
        lemma_encode_concat(head, middle);
        lemma_byte_range_of_middle(head, middle, tail);
    }
    byte_slice(text, begin, end - begin)
}

/// Whether `pattern` stands in `chars` at position `at`.
fn matches_at(chars: &Vec<char>, at: usize, pattern: &Vec<char>) -> (res: bool)
    requires
        at + pattern@.len() <= chars@.len(),
    ensures
        res == (chars@.subrange(at as int, at + pattern@.len()) == pattern@),
{
    let total = chars.len();
    let mut k: usize = 0;
    while k < pattern.len()
        invariant
            0 <= k <= pattern@.len(),
            at + pattern@.len() <= chars@.len(),
            total == chars@.len(),
            forall|d: int| 0 <= d < k ==> chars@[at + d] == pattern@[d],
        decreases pattern.len() - k,
    {
        if chars[at + k] != pattern[k] {
            proof {
                assert(chars@.subrange(at as int, at + pattern@.len())[k as int] == chars@[at + k]);
            }
            return false;
        }
        k += 1;
    }
    assert(chars@.subrange(at as int, at + pattern@.len()) =~= pattern@);
    true
}

/// No occurrence starts before position `i`, so the search from 0 finds
/// what the search from `i` finds.
proof fn lemma_find_skips(text: Seq<char>, separator: Seq<char>, i: int)
    requires
        0 <= i,
        i + separator.len() <= text.len(),
        separator.len() > 0,
        find_from(text, separator, 0) == find_from(text, separator, i),
        text.subrange(i, i + separator.len()) != separator,
    ensures
        find_from(text, separator, 0) == find_from(text, separator, i + 1),
{
}

/// The parts of `text` between the occurrences of the non-empty `separator`.
pub fn split_text<'a>(text: &'a str, separator: &str) -> (res: Vec<&'a str>)
    requires
        separator@.len() > 0,
    ensures
        texts_of(res@) == split_on(text@, separator@),
{
    let chars = chars_of(text);
    let pattern = chars_of(separator);
    let n = chars.len();
    let m = pattern.len();
    let total = byte_len(text);
    let pattern_bytes = byte_len(separator);
    let mut res: Vec<&'a str> = Vec::new();
    let mut start: usize = 0;
    let mut start_byte: usize = 0;
    let mut i: usize = 0;
    let mut i_byte: usize = 0;
    let ghost whole = split_on(chars@, pattern@);
    let ghost mut done: Seq<Seq<char>> = Seq::empty();
    proof {
        assert(chars@.take(0) =~= Seq::<char>::empty());
        assert(chars@.skip(0) =~= chars@);
        assert(texts_of(res@) =~= done);
        assert(done + split_on(chars@.skip(0), pattern@) =~= whole);
        assert(chars@.take(n as int) =~= chars@);
    }
    loop
        invariant_except_break
            texts_of(res@) == done,
            whole == done + split_on(chars@.skip(start as int), pattern@),
            find_from(chars@.skip(start as int), pattern@, 0) == find_from(
                chars@.skip(start as int),
                pattern@,
                i - start,
            ),
        invariant
            chars@ == text@,
            pattern@ == separator@,
            n == chars@.len(),
            m == pattern@.len(),
            m > 0,
            total == utf8_len(chars@),
            pattern_bytes == utf8_len(pattern@),
            0 <= start <= i <= n,
            start_byte == utf8_len(chars@.take(start as int)),
            i_byte == utf8_len(chars@.take(i as int)),
        ensures
            texts_of(res@) == whole,
        decreases n - i,
    {
        let ghost rest = chars@.skip(start as int);
        let ghost held = res@;
        if m > n - i {
            proof {
                assert(chars@.take(n as int) =~= chars@);
            }
            let piece = cut(text, start_byte, total, Ghost(start as int), Ghost(n as int));
            res.push(piece);
            proof {
                assert(chars@.take(n as int) =~= chars@);
                assert(rest =~= chars@.subrange(start as int, n as int));
                assert(split_on(rest, pattern@) =~= seq![rest]);
                assert(texts_of(res@) =~= texts_of(held).push(piece@));
                assert(done.push(rest) =~= done + seq![rest]);
            }
            break ;
        }
        proof {
            assert(rest.subrange(i - start, i - start + m) =~= chars@.subrange(
                i as int,
                i + m,
            ));
        }
        if matches_at(&chars, i, &pattern) {
            let piece = cut(text, start_byte, i_byte, Ghost(start as int), Ghost(i as int));
            res.push(piece);
            proof {
                assert(rest.take(i - start) =~= chars@.subrange(start as int, i as int));
                assert(rest.skip(i - start + m) =~= chars@.skip(i + m));
                assert(texts_of(res@) =~= texts_of(held).push(piece@));
                let next = split_on(chars@.skip(i + m), pattern@);
                assert(done + (seq![piece@] + next) =~= done.push(piece@) + next);
                done = done.push(piece@);
                assert(chars@.take(i + m) =~= chars@.take(i as int) + chars@.subrange(
                    i as int,
                    i + m,
                ));
                lemma_encode_concat(chars@.take(i as int), chars@.subrange(i as int, i + m));
                lemma_prefix_cut(chars@, i + m);
            }
            i = i + m;
            i_byte = i_byte + pattern_bytes;
            start = i;
            start_byte = i_byte;
        } else {
            proof {
                lemma_find_skips(rest, pattern@, i - start);
                lemma_prefix_cut(chars@, i as int);
                lemma_prefix_cut(chars@, i + 1);
            }
            i_byte = i_byte + width_of(chars[i]);
            i = i + 1;
        }
    }
    res
}

/// A word that has no whitespace up to position `k` goes on from there.
proof fn lemma_word_goes_on(text: Seq<char>, k: int)
    requires
        0 <= k <= text.len(),
        forall|d: int| 0 <= d < k ==> !white_space(#[trigger] text[d]),
    ensures
        word_len(text) == k + word_len(text.skip(k)),
    decreases k,
{
    if k == 0 {
        assert(text.skip(0) =~= text);
    } else {
        assert(text.drop_first().skip(k - 1) =~= text.skip(k));
        assert forall|d: int| 0 <= d < k - 1 implies !white_space(
            #[trigger] text.drop_first()[d],
        ) by {
            assert(text.drop_first()[d] == text[d + 1]);
        }
        lemma_word_goes_on(text.drop_first(), k - 1);
    }
}

/// The words of `text`.
pub fn split_whitespace_text<'a>(text: &'a str) -> (res: Vec<&'a str>)
    ensures
        texts_of(res@) == split_words(text@),
{
    let chars = chars_of(text);
    let n = chars.len();
    let mut res: Vec<&'a str> = Vec::new();
    let mut i: usize = 0;
    let mut i_byte: usize = 0;
    let ghost whole = split_words(chars@);
    let ghost mut done: Seq<Seq<char>> = Seq::empty();
    proof {
        assert(chars@.take(0) =~= Seq::<char>::empty());
        assert(chars@.skip(0) =~= chars@);
        assert(texts_of(res@) =~= done);
        assert(done + split_words(chars@.skip(0)) =~= whole);
    }
    while i < n
        invariant
            chars@ == text@,
            n == chars@.len(),
            0 <= i <= n,
            i_byte == utf8_len(chars@.take(i as int)),
            utf8_len(chars@) <= usize::MAX,
            texts_of(res@) == done,
            whole == done + split_words(chars@.skip(i as int)),
        decreases n - i,
    {
        proof {
            lemma_prefix_cut(chars@, i as int);
            lemma_prefix_cut(chars@, i + 1);
            assert(chars@.skip(i as int).drop_first() =~= chars@.skip(i + 1));
        }
        if chars[i].is_whitespace() {
            i_byte = i_byte + width_of(chars[i]);
            i = i + 1;
        } else {
            let start = i;
            let start_byte = i_byte;
            let ghost rest = chars@.skip(start as int);
            let ghost held = res@;
            while i < n && !chars[i].is_whitespace()
                invariant
                    chars@ == text@,
                    n == chars@.len(),
                    0 <= start <= i <= n,
                    i_byte == utf8_len(chars@.take(i as int)),
                    utf8_len(chars@) <= usize::MAX,
                    forall|d: int| start <= d < i ==> !white_space(#[trigger] chars@[d]),
                decreases n - i,
            {
                proof {
                    lemma_prefix_cut(chars@, i as int);
                    lemma_prefix_cut(chars@, i + 1);
                }
                i_byte = i_byte + width_of(chars[i]);
                i = i + 1;
            }
            let piece = cut(text, start_byte, i_byte, Ghost(start as int), Ghost(i as int));
            res.push(piece);
            proof {
                assert forall|d: int| 0 <= d < i - start implies !white_space(
                    #[trigger] rest[d],
                ) by {
                    assert(rest[d] == chars@[start + d]);
                }
                lemma_word_goes_on(rest, i - start);
                assert(rest.skip(i - start) =~= chars@.skip(i as int));
                assert(word_len(chars@.skip(i as int)) == 0);
                assert(rest.take(i - start) =~= chars@.subrange(start as int, i as int));
                assert(texts_of(res@) =~= texts_of(held).push(piece@));
                let next = split_words(chars@.skip(i as int));
                assert(done + (seq![piece@] + next) =~= done.push(piece@) + next);
                done = done.push(piece@);
            }
        }
    }
    proof {
        assert(done + Seq::<Seq<char>>::empty() =~= done);
    }
    res
}

/// The slices `parts`, with `separator` between each two neighbours.
pub fn join_slices(parts: &Vec<&str>, separator: &str) -> (res: String)
    ensures
        res@ == join_texts(texts_of(parts@), separator@),
{
    let mut res = String::new();
    let mut i: usize = 0;
    let ghost all = texts_of(parts@);
    while i < parts.len()
        invariant
            0 <= i <= parts.len(),
            all == texts_of(parts@),
            res@ == join_texts(all.take(i as int), separator@),
        decreases parts.len() - i,
    {
        if i > 0 {
            res.append(separator);
        }
        res.append(parts[i]);
        proof {
            let now = all.take(i + 1);
            assert(now.drop_last() =~= all.take(i as int));
            assert(now.last() == parts@[i as int]@);
            if i == 0 {
                assert(res@ =~= now[0]);
            }
        }
        i += 1;
    }
    assert(all.take(parts@.len() as int) =~= all);
    res
}

/// `text` without one carriage return at its end.
pub open spec fn without_return(text: Seq<char>) -> Seq<char> {
    if text.len() > 0 && text.last() == '\r' {
        text.drop_last()
    } else {
        text
    }
}

/// The first `count` of `parts`, each without one carriage return at its end.
pub open spec fn ended_lines(parts: Seq<Seq<char>>, count: int) -> Seq<Seq<char>> {
    Seq::new(
        if count >= 0 {
            count as nat
        } else {
            0
        },
        |i: int| without_return(parts[i]),
    )
}

/// The lines of a text: what stands before each line feed, without a
/// carriage return right before it, and what stands after the last line
/// feed where that is not empty.
pub open spec fn lines_spec(text: Seq<char>) -> Seq<Seq<char>> {
    let parts = split_on(text, seq!['\n']);
    let ended = ended_lines(parts, parts.len() - 1);
    if parts.len() > 0 && parts.last().len() > 0 {
        ended.push(parts.last())
    } else {
        ended
    }
}

/// `text` without one carriage return at its end.
fn strip_return<'a>(text: &'a str) -> (res: &'a str)
    ensures
        res@ == without_return(text@),
{
    let chars = chars_of(text);
    let n = chars.len();
    if n > 0 && chars[n - 1] == '\r' {
        let total = byte_len(text);
        proof {
            lemma_prefix_cut(chars@, n - 1);
            assert(chars@.take(n as int) =~= chars@);
            assert(chars@.take(0) =~= Seq::<char>::empty());
            assert(utf8_width('\r') == 1);
            assert(text@.subrange(0, n - 1) =~= text@.drop_last());
        }
        cut(text, 0, total - 1, Ghost(0), Ghost(n - 1))
    } else {
        text
    }
}

/// The lines of `text`.
pub fn lines_of<'a>(text: &'a str) -> (res: Vec<&'a str>)
    ensures
        texts_of(res@) == lines_spec(text@),
{
    proof {
        reveal_strlit("\n");
        assert("\n"@ =~= seq!['\n']);
    }
    let parts = split_text(text, "\n");
    let ghost all = split_on(text@, seq!['\n']);
    let mut res: Vec<&'a str> = Vec::new();
    let mut i: usize = 0;
    if parts.len() == 0 {
        assert(texts_of(res@) =~= lines_spec(text@));
        return res;
    }
    let last = parts.len() - 1;
    while i < last
        invariant
            0 <= i <= last,
            last == parts@.len() - 1,
            texts_of(parts@) == all,
            texts_of(res@) == ended_lines(all, i as int),
        decreases last - i,
    {
        let ghost held = res@;
        let line = strip_return(parts[i]);
        res.push(line);
        proof {
            assert(all[i as int] == parts@[i as int]@);
            assert(texts_of(held).len() == held.len());
            assert(ended_lines(all, i as int).len() == i);
            assert(held.len() == i);
            assert(texts_of(res@).len() == i + 1);
            assert forall|k: int| 0 <= k < i + 1 implies #[trigger] texts_of(res@)[k]
                == ended_lines(all, i + 1)[k] by {
                if k < i {
                    assert(texts_of(held)[k] == ended_lines(all, i as int)[k]);
                    assert(res@[k] == held[k]);
                }
            }
            assert(texts_of(res@) =~= ended_lines(all, i + 1));
        }
        i += 1;
    }
    let ghost ended = texts_of(res@);
    proof {
        assert(all.last() == parts@[last as int]@);
    }
    if !parts[last].is_empty() {
        res.push(parts[last]);
        assert(texts_of(res@) =~= ended.push(all.last()));
    }
    res
}

} // verus!
