//! Byte ranges over a text.

use vstd::prelude::*;
use crate::text::{byte_range_fits, byte_range_text, byte_slice, utf8_width, width_of};

verus! {

/// A run of bytes of a text: where it begins and how many bytes it holds.
#[derive(Debug, Clone, Copy)]
pub struct Range {
    begin: usize,
    len: usize,
}

/// Number of bytes that an optional character takes in UTF-8.
pub open spec fn optional_width(value: Option<char>) -> nat {
    match value {
        Some(c) => utf8_width(c),
        None => 0,
    }
}

impl Range {
    /// Index of the first byte of the range.
    pub closed spec fn start(&self) -> nat {
        self.begin as nat
    }

    /// Number of bytes in the range.
    pub closed spec fn size(&self) -> nat {
        self.len as nat
    }

    /// Index of the first byte after the range.
    pub open spec fn end(&self) -> nat {
        self.start() + self.size()
    }

    /// Both ends of the range fall between two characters of `text`.
    pub open spec fn fits(&self, text: Seq<char>) -> bool {
        byte_range_fits(text, self.start() as int, self.size() as int)
    }

    /// The part of `text` that the range covers.
    pub open spec fn text_in(&self, text: Seq<char>) -> Seq<char> {
        byte_range_text(text, self.start() as int, self.size() as int)
    }

    /// The part of `value` that the range covers.
    pub fn slice<'a>(&self, value: &'a str) -> (res: &'a str)
        requires
            self.fits(value@),
        ensures
            res@ == self.text_in(value@),
    {
        byte_slice(value, self.begin, self.len)
    }

    /// The range that begins where `last` ends, or at 0 without a `last`,
    /// and holds `value`.
    pub fn first_after(last: Option<&Range>, value: Option<char>) -> (res: Range)
        requires
            last matches Some(range) ==> range.end() <= usize::MAX,
        ensures
            res.start() == (match last {
                Some(range) => range.end(),
                None => 0,
            }),
            res.size() == optional_width(value),
    {
        let begin: usize = match last {
            Some(range) => range.begin + range.len,
            None => 0,
        };
        let mut res = Range { begin, len: 0 };
        res.grow(value);
        res
    }

    /// Lengthens the range by the bytes of `value`.
    pub fn grow(&mut self, value: Option<char>)
        requires
            old(self).size() + optional_width(value) <= usize::MAX,
        ensures
            final(self).start() == old(self).start(),
            final(self).size() == old(self).size() + optional_width(value),
    {
        if let Some(c) = value {
            self.len += width_of(c);
        }
    }
}

} // verus!
