//! The interpreter's only datum: a text with an integer status.

use vstd::prelude::*;
use vstd::string::StringExecFns;
use super::lazy::{parse_i64_spec, LazyParse};
use vstd::string::StrSliceExecFns;
use crate::split::{
    split_chars, split_on, split_text, split_whitespace_text, split_words, texts_of,
};
use crate::text::{
    byte_len, byte_slice, lemma_byte_range_of_middle, lemma_prefix_cut, utf8_len, width_of,
};

verus! {

/// An [`Output`] as a plain value.
pub struct OutputView {
    pub text: Seq<char>,
    pub status: i64,
}

/// A text and a status; status 0 is truthy. The integer reading of the text
/// is remembered once asked for, until the text changes.
#[derive(Debug)]
pub struct Output {
    value: String,
    code: i64,
    as_i64: LazyParse<i64>,
}

impl View for Output {
    type V = OutputView;

    closed spec fn view(&self) -> OutputView {
        OutputView { text: self.value@, status: self.code }
    }
}

/// The pieces that `text` splits into: its words without a separator, its
/// characters with an empty one, else the parts between its occurrences.
pub open spec fn split_spec(text: Seq<char>, separator: Option<Seq<char>>) -> Seq<Seq<char>> {
    match separator {
        None => split_words(text),
        Some(sep) => if sep.len() == 0 {
            split_chars(text)
        } else {
            split_on(text, sep)
        },
    }
}

/// The text of an optional separator.
pub open spec fn separator_text(arg: Option<&Output>) -> Option<Seq<char>> {
    match arg {
        Some(separator) => Some(separator@.text),
        None => None,
    }
}

/// A walk over the characters of a text, each handed out as a text of its own.
pub struct CharIterator<'a> {
    input: &'a str,
    index: usize,
    taken: Ghost<nat>,
}

impl<'a> CharIterator<'a> {
    /// The byte position lies right after the characters handed out.
    #[verifier::type_invariant]
    spec fn between_chars(&self) -> bool {
        &&& self.taken@ <= self.input@.len()
        &&& self.index == utf8_len(self.input@.take(self.taken@ as int))
    }

    /// The text that is walked.
    pub closed spec fn input(&self) -> Seq<char> {
        self.input@
    }

    /// Number of characters already handed out.
    pub closed spec fn position(&self) -> nat {
        self.taken@
    }

    /// The pieces still to come.
    pub open spec fn remaining(&self) -> Seq<Seq<char>> {
        if self.position() <= self.input().len() {
            split_chars(self.input()).skip(self.position() as int)
        } else {
            Seq::empty()
        }
    }

    /// A walk that starts at the first character of `input`.
    pub fn new(input: &'a str) -> (res: CharIterator<'a>)
        ensures
            res.input() == input@,
            res.position() == 0,
    {
        proof {
            assert(input@.take(0) =~= Seq::<char>::empty());
        }
        CharIterator { input, index: 0, taken: Ghost(0) }
    }

    /// Hands out the next character, if one is left.
    pub fn next(&mut self) -> (res: Option<&'a str>)
        ensures
            final(self).input() == old(self).input(),
            old(self).position() < old(self).input().len() ==> res is Some && res->0@
                == seq![old(self).input()[old(self).position() as int]] && final(self).position()
                == old(self).position() + 1,
            old(self).position() >= old(self).input().len() ==> res is None
                && final(self).position() == old(self).position(),
            old(self).remaining().len() > 0 ==> res is Some && res->0@ == old(self).remaining()[0]
                && final(self).remaining() == old(self).remaining().drop_first(),
            old(self).remaining().len() == 0 ==> res is None && final(self).remaining()
                == old(self).remaining(),
    {
        let input = self.input;
        let index = self.index;
        let ghost k = self.taken@ as int;
        proof {
            use_type_invariant(&*self);
            lemma_prefix_cut(input@, k);
        }
        let total = byte_len(input);
        if index >= total {
            None
        } else {
            let tail = byte_slice(input, index, total - index);
            let c = tail.get_char(0);
            let width = width_of(c);
            proof {
                let head = input@.take(k);
                assert(k < input@.len());
                assert(c == input@[k]);
                assert(input@ =~= head + seq![c] + input@.skip(k + 1));
                lemma_byte_range_of_middle(head, seq![c], input@.skip(k + 1));
                crate::text::lemma_utf8_len_push(Seq::empty(), c);
                assert(Seq::<char>::empty().push(c) =~= seq![c]);
                lemma_prefix_cut(input@, k + 1);
            }
            let piece = byte_slice(input, index, width);
            *self = CharIterator { input, index: index + width, taken: Ghost((k + 1) as nat) };
            assert(final(self).remaining() =~= old(self).remaining().drop_first());
            Some(piece)
        }
    }
}

/// A walk over pieces that were cut beforehand.
pub struct SplitPieces<'a> {
    pieces: Vec<&'a str>,
    position: usize,
}

impl<'a> SplitPieces<'a> {
    /// The pieces still to come.
    pub closed spec fn remaining(&self) -> Seq<Seq<char>> {
        if self.position <= self.pieces@.len() {
            texts_of(self.pieces@).skip(self.position as int)
        } else {
            Seq::empty()
        }
    }

    /// A walk over `pieces`, first to last.
    fn new(pieces: Vec<&'a str>) -> (res: SplitPieces<'a>)
        ensures
            res.remaining() == texts_of(pieces@),
    {
        assert(texts_of(pieces@).skip(0) =~= texts_of(pieces@));
        SplitPieces { pieces, position: 0 }
    }

    /// Hands out the next piece, if one is left.
    pub fn next(&mut self) -> (res: Option<&'a str>)
        ensures
            old(self).remaining().len() > 0 ==> res is Some && res->0@ == old(self).remaining()[0]
                && final(self).remaining() == old(self).remaining().drop_first(),
            old(self).remaining().len() == 0 ==> res is None && final(self).remaining()
                == old(self).remaining(),
    {
        if self.position < self.pieces.len() {
            let piece = self.pieces[self.position];
            self.position = self.position + 1;
            assert(final(self).remaining() =~= old(self).remaining().drop_first());
            Some(piece)
        } else {
            None
        }
    }
}

/// A walk over the pieces that a text splits into.
pub enum OutputSplitIterator<'a> {
    SplitChars(CharIterator<'a>),
    Split(SplitPieces<'a>),
    SplitWhitespace(SplitPieces<'a>),
}

impl<'a> OutputSplitIterator<'a> {
    /// The pieces still to come.
    pub open spec fn remaining(&self) -> Seq<Seq<char>> {
        match self {
            OutputSplitIterator::SplitChars(iter) => iter.remaining(),
            OutputSplitIterator::Split(iter) => iter.remaining(),
            OutputSplitIterator::SplitWhitespace(iter) => iter.remaining(),
        }
    }

    /// Hands out the next piece, if one is left.
    pub fn next(&mut self) -> (res: Option<&'a str>)
        ensures
            old(self).remaining().len() > 0 ==> res is Some && res->0@ == old(self).remaining()[0]
                && final(self).remaining() == old(self).remaining().drop_first(),
            old(self).remaining().len() == 0 ==> res is None && final(self).remaining()
                == old(self).remaining(),
    {
        match self {
            OutputSplitIterator::SplitChars(iter) => iter.next(),
            OutputSplitIterator::Split(iter) => iter.next(),
            OutputSplitIterator::SplitWhitespace(iter) => iter.next(),
        }
    }
}

impl Output {
    /// The remembered integer reading agrees with the text.
    #[verifier::type_invariant]
    spec fn cache_agrees(&self) -> bool {
        self.as_i64.agrees_with(self.value@)
    }

    /// A value with the given text and status.
    pub fn new(value: String, code: i64) -> (res: Output)
        ensures
            res@ == (OutputView { text: value@, status: code }),
    {
        Output { value, code, as_i64: LazyParse::new() }
    }

    /// The empty text with status 0.
    pub fn new_truthy() -> (res: Output)
        ensures
            res@ == (OutputView { text: Seq::empty(), status: 0 }),
    {
        Self::new(String::new(), 0)
    }

    /// The empty text with status 1.
    pub fn new_falsy() -> (res: Output)
        ensures
            res@ == (OutputView { text: Seq::empty(), status: 1 }),
    {
        Self::new(String::new(), 1)
    }

    /// The given text with status 0.
    pub fn new_truthy_with(value: String) -> (res: Output)
        ensures
            res@ == (OutputView { text: value@, status: 0 }),
    {
        Self::new(value, 0)
    }

    /// The given text with status 1.
    pub fn new_falsy_with(value: String) -> (res: Output)
        ensures
            res@ == (OutputView { text: value@, status: 1 }),
    {
        Self::new(value, 1)
    }

    /// Adds the text of `other` to the end and takes over its status.
    pub fn append(&mut self, other: &Output)
        ensures
            final(self)@ == (OutputView {
                text: old(self)@.text + other@.text,
                status: other@.status,
            }),
    {
        self.as_i64 = LazyParse::new();
        let mut text = String::new();
        core::mem::swap(&mut self.value, &mut text);
        text.append(other.value.as_str());
        self.value = text;
        self.code = other.code;
    }

    /// Adds `other` to the end of the text; the status stays.
    pub fn append_str(&mut self, other: &str)
        ensures
            final(self)@ == (OutputView { text: old(self)@.text + other@, status: old(self)@.status }),
    {
        self.as_i64 = LazyParse::new();
        let mut text = String::new();
        core::mem::swap(&mut self.value, &mut text);
        text.append(other);
        self.value = text;
    }

    /// Replaces the text by `other`; the status stays.
    pub fn replace(&mut self, other: String)
        ensures
            final(self)@ == (OutputView { text: other@, status: old(self)@.status }),
    {
        self.as_i64 = LazyParse::new();
        self.value = other;
    }

    /// Whether the status is 0.
    pub fn is_truthy(&self) -> (res: bool)
        ensures
            res == (self@.status == 0),
    {
        self.code == 0
    }

    /// The text.
    pub fn value<'a>(&'a self) -> (res: &'a str)
        ensures
            res@ == self@.text,
    {
        self.value.as_str()
    }

    /// The status.
    pub fn code(&self) -> (res: i64)
        ensures
            res == self@.status,
    {
        self.code
    }

    /// A walk over the pieces of the text: its words without a separator,
    /// its characters with an empty one, else the parts between the
    /// occurrences of the separator's text.
    pub fn split_iter<'b>(&'b self, arg: Option<&'b Output>) -> (res: OutputSplitIterator<'b>)
        ensures
            res.remaining() == split_spec(self@.text, separator_text(arg)),
    {
        match arg {
            Some(arg) => {
                if arg.value.as_str().is_empty() {
                    let iter = CharIterator::new(self.value.as_str());
                    assert(iter.remaining() =~= split_chars(self@.text));
                    OutputSplitIterator::SplitChars(iter)
                } else {
                    OutputSplitIterator::Split(
                        SplitPieces::new(split_text(self.value.as_str(), arg.value.as_str())),
                    )
                }
            },
            None => OutputSplitIterator::SplitWhitespace(
                SplitPieces::new(split_whitespace_text(self.value.as_str())),
            ),
        }
    }

    /// The pieces of the text as texts of their own.
    pub fn split(&self, arg: Option<&Output>) -> (res: Vec<String>)
        ensures
            res@.len() == split_spec(self@.text, separator_text(arg)).len(),
            forall|k: int| 0 <= k < res@.len() ==> (#[trigger] res@[k])@ == split_spec(
                self@.text,
                separator_text(arg),
            )[k],
    {
        let mut iter = self.split_iter(arg);
        let mut res: Vec<String> = Vec::new();
        let ghost all = iter.remaining();
        loop
            invariant
                res@.len() + iter.remaining().len() == all.len(),
                iter.remaining() == all.skip(res@.len() as int),
                forall|k: int| 0 <= k < res@.len() ==> (#[trigger] res@[k])@ == all[k],
            ensures
                res@.len() == all.len(),
                forall|k: int| 0 <= k < res@.len() ==> (#[trigger] res@[k])@ == all[k],
            decreases iter.remaining().len(),
        {
            match iter.next() {
                Some(piece) => {
                    res.push(piece.to_owned());
                    assert(iter.remaining() =~= all.skip(res@.len() as int));
                },
                None => {
                    break ;
                },
            }
        }
        res
    }

    /// Whether the two values have the same text.
    pub fn same_text(&self, other: &Output) -> (res: bool)
        ensures
            res == (self@.text == other@.text),
    {
        self.value == other.value
    }

    /// The integer that the text denotes, if it denotes one. What was
    /// remembered is used; nothing new is remembered.
    pub fn to_i64(&self) -> (res: Option<i64>)
        ensures
            res == parse_i64_spec(self@.text),
    {
        proof {
            use_type_invariant(self);
        }
        let mut cell = LazyParse { value: self.as_i64.value };
        cell.try_parse(self.value.as_str())
    }

    /// The integer that the text denotes, if it denotes one; the outcome is
    /// remembered until the text changes.
    pub fn try_into_i64(&mut self) -> (res: Option<i64>)
        ensures
            res == parse_i64_spec(old(self)@.text),
            final(self)@ == old(self)@,
    {
        proof {
            use_type_invariant(&*self);
        }
        let mut cell = LazyParse { value: self.as_i64.value };
        let res = cell.try_parse(self.value.as_str());
        self.as_i64 = cell;
        res
    }
}

impl TryFrom<&Output> for i64 {
    type Error = ();

    /// The integer that the text of the value denotes.
    fn try_from(value: &Output) -> (res: Result<i64, ()>) {
        match value.to_i64() {
            Some(number) => Ok(number),
            None => Err(()),
        }
    }
}

impl vstd::std_specs::convert::TryFromSpecImpl<&Output> for i64 {
    open spec fn obeys_try_from_spec() -> bool {
        true
    }

    open spec fn try_from_spec(value: &Output) -> Result<i64, ()> {
        match parse_i64_spec(value@.text) {
            Some(number) => Ok(number),
            None => Err(()),
        }
    }
}

impl Clone for Output {
    fn clone(&self) -> (res: Self)
        ensures
            res@ == self@,
    {
        Output { value: self.value.clone(), code: self.code, as_i64: LazyParse::new() }
    }
}

/// The values of a list of outputs.
pub open spec fn outputs_view(outputs: Seq<Output>) -> Seq<OutputView> {
    Seq::new(outputs.len(), |i: int| outputs[i]@)
}

/// The texts of `outputs`, joined by single spaces.
pub open spec fn joined_text(outputs: Seq<OutputView>) -> Seq<char>
    decreases outputs.len(),
{
    if outputs.len() == 0 {
        Seq::empty()
    } else if outputs.len() == 1 {
        outputs[0].text
    } else {
        joined_text(outputs.drop_last()) + seq![' '] + outputs.last().text
    }
}

/// The texts of `outputs` joined by single spaces, with the status of the
/// last of them; the truthy empty value where there is none.
pub open spec fn joined(outputs: Seq<OutputView>) -> OutputView {
    OutputView {
        text: joined_text(outputs),
        status: if outputs.len() > 0 {
            outputs.last().status
        } else {
            0
        },
    }
}

/// Joins the outputs: their texts with single spaces between them, and
/// the status of the last.
pub fn join_outputs(outputs: &[Output]) -> (res: Output)
    ensures
        res@ == joined(outputs_view(outputs@)),
{
    let mut result = Output::new_truthy();
    let mut i: usize = 0;
    let ghost all = outputs_view(outputs@);
    while i < outputs.len()
        invariant
            0 <= i <= outputs.len(),
            all == outputs_view(outputs@),
            result@ == joined(all.take(i as int)),
        decreases outputs.len() - i,
    {
        if i > 0 {
            proof {
                reveal_strlit(" ");
                assert(" "@ =~= seq![' ']);
            }
            result.append_str(" ");
        }
        result.append(&outputs[i]);
        proof {
            let now = all.take(i + 1);
            assert(now.drop_last() =~= all.take(i as int));
            assert(now.last() == outputs@[i as int]@);
            if i == 0 {
                assert(result@.text =~= now[0].text);
            }
        }
        i += 1;
    }
    assert(all.take(outputs.len() as int) =~= all);
    result
}

} // verus!
