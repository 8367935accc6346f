//! Characters and strings: what the standard library computes, and the facts
//! about UTF-8 lengths that byte ranges rest on.

use vstd::prelude::*;
use vstd::std_specs::iter::IteratorSpec;
use vstd::string::StringExecFns;
use vstd::string::StringSliceAdditionalSpecFns;
use vstd::utf8::{
    decode_utf8, encode_scalar, encode_utf8, is_char_boundary, length_of_first_scalar,
    pop_first_scalar, valid_utf8,
};

verus! {

/// Whether a character other than the space and the line feed has the
/// Unicode property `White_Space`, as `char::is_whitespace` decides it.
pub uninterp spec fn unicode_white_space(c: char) -> bool;

/// Whether `c` is whitespace: the space, the line feed, and every other
/// character with the Unicode property `White_Space`.
pub open spec fn white_space(c: char) -> bool {
    c == ' ' || c == '\n' || unicode_white_space(c)
}

/// `char::is_whitespace` of the standard library: true for the space and
/// for the line feed, as its documentation shows, and for any other
/// character the named property, a function of the character alone.
pub assume_specification[ char::is_whitespace ](c: char) -> (res: bool)
    ensures
        res == (c == ' ' || c == '\n' || unicode_white_space(c)),
;

/// `String::push` of the standard library appends the character to the end
/// of the string.
pub assume_specification[ std::string::String::push ](s: &mut std::string::String, c: char)
    ensures
        final(s)@ == old(s)@.push(c),
;

/// Number of bytes of the UTF-8 encoding of `c`.
pub open spec fn utf8_width(c: char) -> nat {
    encode_scalar(c as u32).len()
}

/// Number of bytes of the UTF-8 encoding of `s`.
pub open spec fn utf8_len(s: Seq<char>) -> nat {
    encode_utf8(s).len()
}

/// The text that the bytes `begin .. begin + len` of the encoding of `s` spell.
pub open spec fn byte_range_text(s: Seq<char>, begin: int, len: int) -> Seq<char> {
    decode_utf8(encode_utf8(s).subrange(begin, begin + len))
}

/// Both ends of the byte range fall between two characters of `s`.
pub open spec fn byte_range_fits(s: Seq<char>, begin: int, len: int) -> bool {
    &&& 0 <= begin
    &&& 0 <= len
    &&& is_char_boundary(encode_utf8(s), begin)
    &&& is_char_boundary(encode_utf8(s), begin + len)
}

/// Number of bytes that `c` takes in UTF-8.
pub fn width_of(c: char) -> (n: usize)
    ensures
        n == utf8_width(c),
        1 <= n <= 4,
{
    broadcast use vstd::utf8::char_is_scalar;
    let u: u32 = c as u32;
    if u < 0x80 {
        1
    } else if u < 0x800 {
        2
    } else if u < 0x10000 {
        3
    } else {
        4
    }
}

/// The encoding of a concatenation is the concatenation of the encodings.
pub proof fn lemma_encode_concat(a: Seq<char>, b: Seq<char>)
    ensures
        encode_utf8(a + b) == encode_utf8(a) + encode_utf8(b),
        utf8_len(a + b) == utf8_len(a) + utf8_len(b),
    decreases a.len(),
{
    if a.len() == 0 {
        assert(a + b =~= b);
        assert(encode_utf8(a) + encode_utf8(b) =~= encode_utf8(b));
    } else {
        lemma_encode_concat(a.drop_first(), b);
        assert((a + b).drop_first() =~= a.drop_first() + b);
        assert(encode_utf8(a + b) =~= encode_utf8(a) + encode_utf8(b));
    }
}

/// Appending one character lengthens the encoding by that character's width.
pub proof fn lemma_utf8_len_push(s: Seq<char>, c: char)
    ensures
        utf8_len(s.push(c)) == utf8_len(s) + utf8_width(c),
        1 <= utf8_width(c) <= 4,
{
    broadcast use vstd::utf8::char_is_scalar;
    lemma_encode_concat(s, seq![c]);
    assert(s.push(c) =~= s + seq![c]);
    assert(seq![c].drop_first() =~= Seq::<char>::empty());
    assert(encode_utf8(seq![c]) =~= encode_scalar(c as u32)) by {
        reveal_with_fuel(encode_utf8, 2);
    }
}

/// The end of the encoding of a prefix falls between two characters.
pub proof fn lemma_prefix_is_boundary(a: Seq<char>, b: Seq<char>)
    ensures
        is_char_boundary(encode_utf8(a + b), utf8_len(a) as int),
    decreases a.len(),
{
    broadcast use vstd::utf8::encode_utf8_valid_utf8;
    if a.len() == 0 {
    } else {
        let whole = a + b;
        vstd::utf8::encode_utf8_first_scalar(whole);
        assert(whole.drop_first() =~= a.drop_first() + b);
        assert(pop_first_scalar(encode_utf8(whole)) =~= encode_utf8(whole.drop_first()));
        lemma_prefix_is_boundary(a.drop_first(), b);
        vstd::utf8::char_is_scalar(a[0]);
        assert(utf8_len(a) == encode_scalar(a[0] as u32).len() + utf8_len(a.drop_first()));
        assert(length_of_first_scalar(encode_utf8(whole)) == encode_scalar(a[0] as u32).len());
    }
}

/// A byte range that covers exactly the middle of three parts spells the
/// middle part, and both its ends fall between characters.
pub proof fn lemma_byte_range_of_middle(a: Seq<char>, b: Seq<char>, c: Seq<char>)
    ensures
        byte_range_fits(a + b + c, utf8_len(a) as int, utf8_len(b) as int),
        byte_range_text(a + b + c, utf8_len(a) as int, utf8_len(b) as int) == b,
        utf8_len(a) + utf8_len(b) <= utf8_len(a + b + c),
{
    broadcast use vstd::utf8::encode_utf8_decode_utf8;
    lemma_encode_concat(a, b);
    lemma_encode_concat(a + b, c);
    lemma_encode_concat(b, c);
    assert(a + b + c =~= a + (b + c));
    lemma_prefix_is_boundary(a, b + c);
    lemma_prefix_is_boundary(a + b, c);
    assert(encode_utf8(a + b + c).subrange(utf8_len(a) as int, (utf8_len(a) + utf8_len(b)) as int)
        =~= encode_utf8(b));
}

/// Dropping the bytes before one boundary keeps every later boundary.
proof fn lemma_boundary_after_cut(bytes: Seq<u8>, i: int, j: int)
    requires
        valid_utf8(bytes),
        0 <= i <= j,
        is_char_boundary(bytes, i),
        is_char_boundary(bytes, j),
    ensures
        i <= bytes.len(),
        j <= bytes.len(),
        is_char_boundary(bytes.subrange(i, bytes.len() as int), j - i),
    decreases bytes.len(),
{
    broadcast use vstd::utf8::valid_utf8_split;
    if i == 0 {
        assert(bytes.subrange(0, bytes.len() as int) =~= bytes);
        if j != 0 {
        }
    } else {
        let first = length_of_first_scalar(bytes);
        let rest = pop_first_scalar(bytes);
        assert(bytes.len() != 0);
        assert(valid_utf8(rest));
        assert(is_char_boundary(rest, i - first));
        assert(is_char_boundary(rest, j - first));
        if i - first < 0 {
            assert(false);
        }
        if i - first == 0 {
        }
        assert(0 < first <= bytes.len());
        lemma_boundary_after_cut(rest, i - first, j - first);
        assert(rest.subrange(i - first, rest.len() as int) =~= bytes.subrange(
            i,
            bytes.len() as int,
        ));
    }
}

/// The part of `s` that the bytes `begin .. begin + len` of its encoding spell.
pub fn byte_slice<'a>(s: &'a str, begin: usize, len: usize) -> (res: &'a str)
    requires
        byte_range_fits(s@, begin as int, len as int),
    ensures
        res@ == byte_range_text(s@, begin as int, len as int),
{
    broadcast use {
        vstd::utf8::encode_utf8_valid_utf8,
        vstd::utf8::encode_utf8_decode_utf8,
        vstd::utf8::valid_utf8_split,
    };
    proof {
        lemma_boundary_after_cut(s.spec_bytes(), begin as int, begin + len);
    }
    let (_, tail) = s.split_at(begin);
    let (res, _) = tail.split_at(len);
    proof {
        assert(res.spec_bytes() =~= s.spec_bytes().subrange(begin as int, begin + len));
        assert(decode_utf8(encode_utf8(res@)) == res@);
    }
    res
}

/// Number of bytes of `s`.
pub fn byte_len(s: &str) -> (n: usize)
    ensures
        n == utf8_len(s@),
{
    s.as_bytes().len()
}

/// The end of the encoding of the first `k` characters of `s` falls between
/// two characters, the bytes behind it spell the rest, and the rest is not
/// empty exactly where bytes are left.
pub proof fn lemma_prefix_cut(s: Seq<char>, k: int)
    requires
        0 <= k <= s.len(),
    ensures
        byte_range_fits(s, utf8_len(s.take(k)) as int, utf8_len(s.skip(k)) as int),
        byte_range_text(s, utf8_len(s.take(k)) as int, utf8_len(s.skip(k)) as int) == s.skip(k),
        utf8_len(s) == utf8_len(s.take(k)) + utf8_len(s.skip(k)),
        k < s.len() ==> utf8_len(s.take(k + 1)) == utf8_len(s.take(k)) + utf8_width(s[k]),
        k < s.len() ==> utf8_len(s.skip(k)) >= utf8_width(s[k]) >= 1,
{
    let head = s.take(k);
    let tail = s.skip(k);
    assert(s =~= head + tail);
    assert(s =~= head + tail + Seq::<char>::empty());
    lemma_byte_range_of_middle(head, tail, Seq::empty());
    lemma_encode_concat(head, tail);
    if k < s.len() {
        lemma_utf8_len_push(head, s[k]);
        assert(s.take(k + 1) =~= head.push(s[k]));
        assert(tail =~= seq![s[k]] + s.skip(k + 1));
        lemma_encode_concat(seq![s[k]], s.skip(k + 1));
        lemma_utf8_len_push(Seq::empty(), s[k]);
        assert(Seq::<char>::empty().push(s[k]) =~= seq![s[k]]);
    }
}

/// The characters of `s`, in order.
pub fn chars_of(s: &str) -> (v: Vec<char>)
    ensures
        v@ == s@,
        utf8_len(v@) <= usize::MAX,
{
    broadcast use vstd::string::group_string_axioms;
    let _ = byte_len(s);
    let mut it = s.chars();
    let mut v: Vec<char> = Vec::new();
    loop
        invariant
            v@ + it.remaining() == s@,
            it.decrease() is Some,
        ensures
            v@ == s@,
        decreases it.decrease()->0,
    {
        let ghost seen = v@;
        let ghost rest = it.remaining();
        match it.next() {
            Some(c) => {
                v.push(c);
                assert(v@ + it.remaining() =~= seen + rest);
            },
            None => {
                assert(v@ + it.remaining() =~= v@);
                break;
            },
        }
    }
    v
}

/// The character of a decimal digit below ten.
pub open spec fn digit_char(d: nat) -> char {
    if d == 0 {
        '0'
    } else if d == 1 {
        '1'
    } else if d == 2 {
        '2'
    } else if d == 3 {
        '3'
    } else if d == 4 {
        '4'
    } else if d == 5 {
        '5'
    } else if d == 6 {
        '6'
    } else if d == 7 {
        '7'
    } else if d == 8 {
        '8'
    } else {
        '9'
    }
}

/// The decimal numeral of `n`, without leading zeros.
pub open spec fn decimal_text(n: nat) -> Seq<char>
    decreases n,
{
    if n < 10 {
        seq![digit_char(n)]
    } else {
        decimal_text(n / 10).push(digit_char(n % 10))
    }
}

/// The decimal numeral of `n`, with a minus sign where it is negative.
pub open spec fn signed_decimal_text(n: int) -> Seq<char> {
    if n < 0 {
        seq!['-'] + decimal_text((-n) as nat)
    } else {
        decimal_text(n as nat)
    }
}

/// The character of the digit `d`.
fn digit_of(d: u128) -> (c: char)
    requires
        d < 10,
    ensures
        c == digit_char(d as nat),
{
    if d == 0 {
        '0'
    } else if d == 1 {
        '1'
    } else if d == 2 {
        '2'
    } else if d == 3 {
        '3'
    } else if d == 4 {
        '4'
    } else if d == 5 {
        '5'
    } else if d == 6 {
        '6'
    } else if d == 7 {
        '7'
    } else if d == 8 {
        '8'
    } else {
        '9'
    }
}

/// Adds the decimal numeral of `n` to the end of `s`.
pub fn push_decimal(s: &mut String, n: u128)
    ensures
        final(s)@ == old(s)@ + decimal_text(n as nat),
    decreases n,
{
    if n >= 10 {
        push_decimal(s, n / 10);
    }
    s.push(digit_of(n % 10));
    assert(s@ =~= old(s)@ + decimal_text(n as nat));
}

/// Adds the decimal numeral of `n` to the end of `s`, with its sign.
pub fn push_signed_decimal(s: &mut String, n: i64)
    ensures
        final(s)@ == old(s)@ + signed_decimal_text(n as int),
{
    if n < 0 {
        s.push('-');
        let magnitude: u128 = if n == i64::MIN {
            9223372036854775808u128
        } else {
            (-n) as u128
        };
        push_decimal(s, magnitude);
        assert(s@ =~= old(s)@ + signed_decimal_text(n as int));
    } else {
        push_decimal(s, n as u128);
    }
}

/// The texts of a list of strings.
pub open spec fn texts(strings: Seq<String>) -> Seq<Seq<char>> {
    Seq::new(strings.len(), |i: int| strings[i]@)
}

/// The texts `parts`, with `separator` between each two neighbours.
pub open spec fn join_texts(parts: Seq<Seq<char>>, separator: Seq<char>) -> Seq<char>
    decreases parts.len(),
{
    if parts.len() == 0 {
        Seq::empty()
    } else if parts.len() == 1 {
        parts[0]
    } else {
        join_texts(parts.drop_last(), separator) + separator + parts.last()
    }
}

/// The strings `parts[from..to]`, with `separator` between each two neighbours.
pub fn join_strings(parts: &Vec<String>, from: usize, to: usize, separator: &str) -> (res: String)
    requires
        from <= to <= parts.len(),
    ensures
        res@ == join_texts(texts(parts@).subrange(from as int, to as int), separator@),
{
    let mut res = String::new();
    let mut i: usize = from;
    let ghost all = texts(parts@);
    while i < to
        invariant
            from <= i <= to <= parts.len(),
            all == texts(parts@),
            res@ == join_texts(all.subrange(from as int, i as int), separator@),
        decreases to - i,
    {
        if i > from {
            res.append(separator);
        }
        res.append(parts[i].as_str());
        proof {
            let now = all.subrange(from as int, i + 1);
            assert(now.drop_last() =~= all.subrange(from as int, i as int));
            assert(now.last() == parts@[i as int]@);
            if i == from {
                assert(res@ =~= now[0]);
            }
        }
        i += 1;
    }
    res
}

} // verus!
