//! Quoted string templates: a text cut into literal and variable regions.

use vstd::prelude::*;
use super::str_range::Range;
use crate::text::{
    byte_len, byte_slice, chars_of, white_space, lemma_byte_range_of_middle, lemma_encode_concat,
    lemma_utf8_len_push, utf8_len, utf8_width, width_of,
};

verus! {

/// One piece of a template as a plain value: its kind and its text.
pub enum Piece {
    Raw(Seq<char>),
    Variable(Seq<char>),
}

impl Piece {
    /// The text of the piece.
    pub open spec fn text(self) -> Seq<char> {
        match self {
            Piece::Raw(t) => t,
            Piece::Variable(t) => t,
        }
    }

    /// True for a variable piece.
    pub open spec fn is_variable(self) -> bool {
        self is Variable
    }

    /// The piece with `c` added to the end of its text.
    pub open spec fn push(self, c: char) -> Piece {
        match self {
            Piece::Raw(t) => Piece::Raw(t.push(c)),
            Piece::Variable(t) => Piece::Variable(t.push(c)),
        }
    }
}

/// The texts of `pieces`, one after the other.
pub open spec fn concat_pieces(pieces: Seq<Piece>) -> Seq<char>
    decreases pieces.len(),
{
    if pieces.len() == 0 {
        Seq::empty()
    } else {
        concat_pieces(pieces.drop_last()) + pieces.last().text()
    }
}

/// The punctuation that ends an identifier.
pub open spec fn spec_is_special(c: char) -> bool {
    c == ';' || c == ',' || c == '{' || c == '}' || c == '(' || c == ')' || c == '"' || c == '\''
        || c == '=' || c == '$' || c == '%' || c == '[' || c == ']' || c == '`' || c == '&'
}

/// Whether a variable name ends before `c`: at the end of input, at
/// whitespace and at punctuation other than `%`.
pub open spec fn spec_is_identifier_boundary(c: Option<char>) -> bool {
    match c {
        Some(c) => c != '%' && (spec_is_special(c) || white_space(c)),
        None => true,
    }
}

/// What a backslash followed by `c` stands for.
pub open spec fn spec_escape(c: char) -> char {
    if c == 'n' {
        '\n'
    } else if c == 'r' {
        '\r'
    } else if c == 't' {
        '\t'
    } else {
        c
    }
}

/// True for the two quote characters.
pub open spec fn is_quote(c: char) -> bool {
    c == '\'' || c == '"'
}

/// `raw` without its first and last character when it starts with a quote;
/// empty when fewer than two characters are there to strip.
pub open spec fn strip_quotes(raw: Seq<char>) -> Seq<char> {
    if raw.len() > 0 && is_quote(raw[0]) {
        if raw.len() < 2 {
            Seq::empty()
        } else {
            raw.subrange(1, raw.len() - 1)
        }
    } else {
        raw
    }
}

/// The character read at position `i` of `body`, a backslash and the
/// character after it counting as one; `None` at the end of input and for a
/// backslash that nothing follows.
pub open spec fn logical_char(body: Seq<char>, i: int) -> Option<char> {
    if i >= body.len() {
        None
    } else if body[i] == '\\' {
        if i + 1 < body.len() {
            Some(spec_escape(body[i + 1]))
        } else {
            None
        }
    } else {
        Some(body[i])
    }
}

/// The position after the character read at position `i`.
pub open spec fn logical_next(body: Seq<char>, i: int) -> int {
    if i >= body.len() {
        i
    } else if body[i] == '\\' {
        if i + 1 < body.len() {
            i + 2
        } else {
            i + 1
        }
    } else {
        i + 1
    }
}

/// The finished piece as a sequence: one piece, or none.
pub open spec fn close_piece(current: Option<Piece>) -> Seq<Piece> {
    match current {
        Some(p) => seq![p],
        None => Seq::empty(),
    }
}

/// The text of an optional piece.
pub open spec fn open_text(current: Option<Piece>) -> Seq<char> {
    match current {
        Some(p) => p.text(),
        None => Seq::empty(),
    }
}

/// True when a bare `$` stands at position `i` and variables are expanded:
/// the marker that opens a variable. A `$` behind a backslash is read with
/// the backslash, as text.
pub open spec fn scan_marker(body: Seq<char>, i: int, expand: bool) -> bool {
    expand && 0 <= i < body.len() && body[i] == '$'
}

/// The pieces that scanning `body` from position `i` yields, `current`
/// being the piece that is open there.
///
/// A marker closes the open piece and opens a variable piece, whose name
/// is empty until a character joins it. Any other character goes to the
/// open piece; one that ends an identifier first closes an open variable
/// piece and opens a literal one. The end of input closes the open piece.
pub open spec fn pieces_from(body: Seq<char>, i: int, expand: bool, current: Option<Piece>) -> Seq<
    Piece,
>
    decreases body.len() - i,
{
    if scan_marker(body, i, expand) {
        close_piece(current) + pieces_from(
            body,
            i + 1,
            expand,
            Some(Piece::Variable(Seq::empty())),
        )
    } else {
        let j = logical_next(body, i);
        match logical_char(body, i) {
            None => close_piece(current),
            Some(ch) => match current {
                Some(Piece::Variable(t)) => {
                    if spec_is_identifier_boundary(Some(ch)) {
                        seq![Piece::Variable(t)] + pieces_from(
                            body,
                            j,
                            expand,
                            Some(Piece::Raw(seq![ch])),
                        )
                    } else {
                        pieces_from(body, j, expand, Some(Piece::Variable(t.push(ch))))
                    }
                },
                Some(Piece::Raw(t)) => pieces_from(body, j, expand, Some(Piece::Raw(t.push(ch)))),
                None => pieces_from(body, j, expand, Some(Piece::Raw(seq![ch]))),
            },
        }
    }
}

/// The text that scanning `body` from position `i` yields: escapes
/// replaced, and every marker left out.
pub open spec fn text_from(body: Seq<char>, i: int, expand: bool) -> Seq<char>
    decreases body.len() - i,
{
    if scan_marker(body, i, expand) {
        text_from(body, i + 1, expand)
    } else {
        match logical_char(body, i) {
            None => Seq::empty(),
            Some(ch) => seq![ch] + text_from(body, logical_next(body, i), expand),
        }
    }
}

/// The pieces of the template that `raw` denotes.
pub open spec fn template_pieces(raw: Seq<char>, expand: bool) -> Seq<Piece> {
    pieces_from(strip_quotes(raw), 0, expand, None)
}

/// The backing text of the template that `raw` denotes.
pub open spec fn template_text(raw: Seq<char>, expand: bool) -> Seq<char> {
    text_from(strip_quotes(raw), 0, expand)
}

/// A region of a template's text: literal text or the name of a variable.
#[derive(Debug, Clone, Copy)]
pub enum Region {
    Raw(Range),
    Variable(Range),
}

impl Region {
    /// The bytes that the region covers.
    pub open spec fn spec_range(&self) -> Range {
        match self {
            Region::Raw(r) => *r,
            Region::Variable(r) => *r,
        }
    }

    /// The region as a piece of `text`.
    pub open spec fn piece_of(&self, text: Seq<char>) -> Piece {
        match self {
            Region::Raw(r) => Piece::Raw(r.text_in(text)),
            Region::Variable(r) => Piece::Variable(r.text_in(text)),
        }
    }

    /// The bytes that the region covers.
    pub fn range(&self) -> (res: &Range)
        ensures
            *res == self.spec_range(),
    {
        match self {
            Region::Raw(r) => r,
            Region::Variable(r) => r,
        }
    }
}

/// A piece of a template, borrowed from its text.
#[derive(Debug, Clone, Copy)]
pub enum FormatStringPiece<'a> {
    Raw(&'a str),
    Variable(&'a str),
}

impl<'a> View for FormatStringPiece<'a> {
    type V = Piece;

    open spec fn view(&self) -> Piece {
        match self {
            FormatStringPiece::Raw(s) => Piece::Raw(s@),
            FormatStringPiece::Variable(s) => Piece::Variable(s@),
        }
    }
}

/// A parsed template: its text, and the regions that cut it into pieces.
#[derive(Debug)]
pub struct FormatString {
    value: String,
    regions: Vec<Region>,
}

/// A walk over the pieces of a template, first to last.
pub struct FormatStringIter<'a> {
    region: usize,
    target: &'a FormatString,
}

/// The punctuation that ends an identifier.
pub fn is_special(c: char) -> (res: bool)
    ensures
        res == spec_is_special(c),
{
    c == ';' || c == ',' || c == '{' || c == '}' || c == '(' || c == ')' || c == '"' || c == '\''
        || c == '=' || c == '$' || c == '%' || c == '[' || c == ']' || c == '`' || c == '&'
}

/// Whether a variable name ends before `c`.
pub fn is_identifier_boundary(c: Option<char>) -> (res: bool)
    ensures
        res == spec_is_identifier_boundary(c),
{
    match c {
        Some(c) => c != '%' && (is_special(c) || c.is_whitespace()),
        None => true,
    }
}

/// Whether literal text ends before `c`: at the end of input, and at a
/// variable marker when variables are expanded.
pub fn is_raw_boundary(c: Option<char>, expand_variables: bool) -> (res: bool)
    ensures
        res == (c is None || (expand_variables && c == Some('$'))),
{
    match c {
        Some(c) => expand_variables && is_identifier_start(Some(c)),
        None => true,
    }
}

/// Whether `c` is the variable marker.
pub fn is_identifier_start(c: Option<char>) -> (res: bool)
    ensures
        res == (c == Some('$')),
{
    match c {
        Some(c) => c == '$',
        None => false,
    }
}

/// What a backslash followed by `c` stands for.
pub fn escape(c: char) -> (res: char)
    ensures
        res == spec_escape(c),
{
    if c == 'n' {
        '\n'
    } else if c == 'r' {
        '\r'
    } else if c == 't' {
        '\t'
    } else {
        c
    }
}

/// An escape takes as many bytes as the character it is written with.
proof fn lemma_escape_width(c: char)
    ensures
        utf8_width(spec_escape(c)) == utf8_width(c),
{
}

/// The encoding of the rest of `body` starts with the encoding of its first character.
proof fn lemma_rest_len(body: Seq<char>, i: int)
    requires
        0 <= i < body.len(),
    ensures
        utf8_len(body.subrange(i, body.len() as int)) == utf8_width(body[i]) + utf8_len(
            body.subrange(i + 1, body.len() as int),
        ),
{
    let rest = body.subrange(i, body.len() as int);
    assert(rest.drop_first() =~= body.subrange(i + 1, body.len() as int));
}

/// Adding a piece adds its text.
pub proof fn lemma_concat_push(pieces: Seq<Piece>, p: Piece)
    ensures
        concat_pieces(pieces.push(p)) == concat_pieces(pieces) + p.text(),
{
    assert(pieces.push(p).drop_last() =~= pieces);
}

/// The text of two runs of pieces is the text of the first, then that of the second.
pub proof fn lemma_concat_add(a: Seq<Piece>, b: Seq<Piece>)
    ensures
        concat_pieces(a + b) == concat_pieces(a) + concat_pieces(b),
    decreases b.len(),
{
    if b.len() == 0 {
        assert(a + b =~= a);
        assert(concat_pieces(a) + concat_pieces(b) =~= concat_pieces(a));
    } else {
        lemma_concat_add(a, b.drop_last());
        assert((a + b).drop_last() =~= a + b.drop_last());
        assert(concat_pieces(a + b) =~= concat_pieces(a) + concat_pieces(b));
    }
}

/// The text of a run of pieces, cut around its piece `k`.
pub proof fn lemma_concat_split(pieces: Seq<Piece>, k: int)
    requires
        0 <= k < pieces.len(),
    ensures
        concat_pieces(pieces) == concat_pieces(pieces.take(k)) + pieces[k].text() + concat_pieces(
            pieces.skip(k + 1),
        ),
{
    let head = pieces.take(k);
    let tail = pieces.skip(k + 1);
    assert(pieces =~= head.push(pieces[k]) + tail);
    lemma_concat_add(head.push(pieces[k]), tail);
    lemma_concat_push(head, pieces[k]);
}

/// `raw` without its quotes: the first and the last character go when
/// `raw` starts with a quote.
pub fn remove_ends<'a>(raw: &'a str) -> (res: &'a str)
    ensures
        res@ == strip_quotes(raw@),
{
    let chars = chars_of(raw);
    let n = chars.len();
    if n > 0 && (chars[0] == '\'' || chars[0] == '"') {
        if n < 2 {
            proof {
                reveal_strlit("");
            }
            ""
        } else {
            let total = byte_len(raw);
            let last = width_of(chars[n - 1]);
            proof {
                let first = seq![chars@[0]];
                let middle = chars@.subrange(1, n - 1);
                let end = seq![chars@[n - 1]];
                assert(chars@ =~= first + middle + end);
                lemma_byte_range_of_middle(first, middle, end);
                lemma_encode_concat(first + middle, end);
                lemma_encode_concat(first, middle);
                lemma_utf8_len_push(Seq::empty(), chars@[0]);
                lemma_utf8_len_push(Seq::empty(), chars@[n - 1]);
                assert(Seq::<char>::empty().push(chars@[0]) =~= first);
                assert(Seq::<char>::empty().push(chars@[n - 1]) =~= end);
                assert(utf8_len(first) == 1);
                assert(utf8_len(end) == last);
            }
            byte_slice(raw, 1, total - 1 - last)
        }
    } else {
        raw
    }
}

/// The character that the step at position `i` adds to the text: none
/// for a marker, else the character read.
pub open spec fn scan_char(body: Seq<char>, i: int, expand: bool) -> Option<char> {
    if scan_marker(body, i, expand) {
        None
    } else {
        logical_char(body, i)
    }
}

/// The position after the step at position `i`.
pub open spec fn scan_next(body: Seq<char>, i: int, expand: bool) -> int {
    if scan_marker(body, i, expand) {
        i + 1
    } else {
        logical_next(body, i)
    }
}

/// Whether the scan ends at position `i`: nothing is read and no marker stands there.
pub open spec fn scan_ends(body: Seq<char>, i: int, expand: bool) -> bool {
    !scan_marker(body, i, expand) && logical_char(body, i) is None
}

/// Whether the step at position `i` closes the open piece.
pub open spec fn scan_closes(body: Seq<char>, i: int, expand: bool, current: Option<Piece>) -> bool {
    match current {
        Some(Piece::Raw(_)) => scan_marker(body, i, expand) || logical_char(body, i) is None,
        Some(Piece::Variable(_)) => scan_marker(body, i, expand) || spec_is_identifier_boundary(
            logical_char(body, i),
        ),
        None => false,
    }
}

/// The open piece after a step at position `i` that does not end the scan.
pub open spec fn scan_current(body: Seq<char>, i: int, expand: bool, current: Option<Piece>) -> Piece {
    if scan_marker(body, i, expand) {
        Piece::Variable(Seq::empty())
    } else if current is None || scan_closes(body, i, expand, current) {
        Piece::Raw(seq![logical_char(body, i)->0])
    } else {
        current->0.push(logical_char(body, i)->0)
    }
}

/// The text of an optional character.
pub open spec fn char_text(c: Option<char>) -> Seq<char> {
    match c {
        Some(ch) => seq![ch],
        None => Seq::empty(),
    }
}

/// One step of the scan: what it adds to the finished pieces, and where it goes on.
proof fn lemma_scan_step(body: Seq<char>, i: int, expand: bool, current: Option<Piece>)
    requires
        0 <= i <= body.len(),
    ensures
        scan_ends(body, i, expand) ==> pieces_from(body, i, expand, current) == close_piece(
            current,
        ) && text_from(body, i, expand) == Seq::<char>::empty() && (current is Some
            ==> scan_closes(body, i, expand, current)),
        !scan_ends(body, i, expand) ==> pieces_from(body, i, expand, current) == (if scan_closes(
            body,
            i,
            expand,
            current,
        ) {
            close_piece(current)
        } else {
            Seq::empty()
        }) + pieces_from(
            body,
            scan_next(body, i, expand),
            expand,
            Some(scan_current(body, i, expand, current)),
        ) && text_from(body, i, expand) == char_text(scan_char(body, i, expand)) + text_from(
            body,
            scan_next(body, i, expand),
            expand,
        ) && i < scan_next(body, i, expand) <= body.len(),
{
    if !scan_ends(body, i, expand) {
        let rest = pieces_from(
            body,
            scan_next(body, i, expand),
            expand,
            Some(scan_current(body, i, expand, current)),
        );
        let after = text_from(body, scan_next(body, i, expand), expand);
        if !scan_closes(body, i, expand, current) {
            assert(Seq::<Piece>::empty() + rest =~= rest);
        }
        if current is None {
            assert(close_piece(current) + rest =~= rest);
        }
        if scan_marker(body, i, expand) {
            assert(Seq::<char>::empty() + after =~= after);
        }
    }
}

/// What a step reads takes at least as many bytes as what it adds to the text.
proof fn lemma_scan_bytes(body: Seq<char>, i: int, expand: bool)
    requires
        0 <= i <= body.len(),
        !scan_ends(body, i, expand),
    ensures
        utf8_len(char_text(scan_char(body, i, expand))) + utf8_len(
            body.subrange(scan_next(body, i, expand), body.len() as int),
        ) <= utf8_len(body.subrange(i, body.len() as int)),
        scan_char(body, i, expand) matches Some(ch) ==> utf8_len(
            char_text(scan_char(body, i, expand)),
        ) == utf8_width(ch),
{
    let n = body.len() as int;
    lemma_rest_len(body, i);
    if i + 1 < n {
        lemma_rest_len(body, i + 1);
        lemma_escape_width(body[i + 1]);
        if i + 2 < n {
            lemma_rest_len(body, i + 2);
        }
    }
    if let Some(ch) = scan_char(body, i, expand) {
        lemma_utf8_len_push(Seq::empty(), ch);
        assert(Seq::<char>::empty().push(ch) =~= seq![ch]);
    }
}

/// Region `k` of a template under construction covers piece `k` of `pieces`.
pub open spec fn region_covers(region: Region, pieces: Seq<Piece>, k: int) -> bool {
    &&& (region is Variable) == pieces[k].is_variable()
    &&& region.spec_range().start() == utf8_len(concat_pieces(pieces.take(k)))
    &&& region.spec_range().size() == utf8_len(pieces[k].text())
}

/// Each region covers the piece of its index.
pub open spec fn regions_cover(regions: Seq<Region>, pieces: Seq<Piece>) -> bool {
    &&& regions.len() == pieces.len()
    &&& forall|k: int| 0 <= k < pieces.len() ==> region_covers(#[trigger] regions[k], pieces, k)
}

/// The open region covers the open piece, right after the finished pieces.
pub open spec fn open_region_covers(
    open: Option<Region>,
    pieces: Seq<Piece>,
    current: Option<Piece>,
) -> bool {
    match open {
        Some(region) => {
            &&& current is Some
            &&& (region is Variable) == current->0.is_variable()
            &&& region.spec_range().start() == utf8_len(concat_pieces(pieces))
            &&& region.spec_range().size() == utf8_len(current->0.text())
        },
        None => current is None,
    }
}

/// Closing the open region keeps every region on its piece.
proof fn lemma_close_region(regions: Seq<Region>, pieces: Seq<Piece>, region: Region, p: Piece)
    requires
        regions_cover(regions, pieces),
        open_region_covers(Some(region), pieces, Some(p)),
    ensures
        regions_cover(regions.push(region), pieces.push(p)),
        concat_pieces(pieces.push(p)) == concat_pieces(pieces) + p.text(),
{
    lemma_concat_push(pieces, p);
    let after = pieces.push(p);
    assert forall|k: int| 0 <= k < after.len() implies region_covers(
        #[trigger] regions.push(region)[k],
        after,
        k,
    ) by {
        if k < pieces.len() {
            assert(after.take(k) =~= pieces.take(k));
            assert(region_covers(regions[k], pieces, k));
        } else {
            assert(after.take(k) =~= pieces);
        }
    }
}

/// The last region ends where the text of the finished pieces ends.
proof fn lemma_last_region_end(regions: Seq<Region>, pieces: Seq<Piece>)
    requires
        regions_cover(regions, pieces),
        regions.len() > 0,
    ensures
        regions.last().spec_range().end() == utf8_len(concat_pieces(pieces)),
{
    let m = pieces.len() as int;
    assert(region_covers(regions[m - 1], pieces, m - 1));
    assert(pieces.take(m - 1) =~= pieces.drop_last());
    lemma_encode_concat(concat_pieces(pieces.drop_last()), pieces.last().text());
}

/// Regions that cover the pieces of a text lie between its characters and spell them.
proof fn lemma_regions_spell(regions: Seq<Region>, pieces: Seq<Piece>, text: Seq<char>)
    requires
        regions_cover(regions, pieces),
        text == concat_pieces(pieces),
    ensures
        forall|k: int|
            0 <= k < regions.len() ==> (#[trigger] regions[k]).spec_range().fits(text)
                && regions[k].piece_of(text) == pieces[k],
{
    assert forall|k: int| 0 <= k < regions.len() implies (#[trigger] regions[k]).spec_range().fits(
        text,
    ) && regions[k].piece_of(text) == pieces[k] by {
        lemma_concat_split(pieces, k);
        lemma_byte_range_of_middle(
            concat_pieces(pieces.take(k)),
            pieces[k].text(),
            concat_pieces(pieces.skip(k + 1)),
        );
        assert(region_covers(regions[k], pieces, k));
    }
}

/// Reads at position `i`: whether a marker stands there, the character
/// that joins the text, the next position, and whether literal text and a
/// variable name end here.
fn scan(body: &Vec<char>, i: usize, expand_variables: bool) -> (res: (
    bool,
    Option<char>,
    usize,
    bool,
    bool,
))
    requires
        i <= body@.len(),
    ensures
        res.0 == scan_marker(body@, i as int, expand_variables),
        res.1 == scan_char(body@, i as int, expand_variables),
        res.2 == scan_next(body@, i as int, expand_variables),
        res.3 == (scan_marker(body@, i as int, expand_variables) || logical_char(body@, i as int)
            is None),
        res.4 == (scan_marker(body@, i as int, expand_variables) || spec_is_identifier_boundary(
            logical_char(body@, i as int),
        )),
{
    let n = body.len();
    let bare = if i < n {
        Some(body[i])
    } else {
        None
    };
    let marker = expand_variables && is_identifier_start(bare);
    if marker {
        return (true, None, i + 1, true, true);
    }
    let c: Option<char>;
    let j: usize;
    if i >= n {
        c = None;
        j = i;
    } else if body[i] == '\\' {
        if i + 1 < n {
            c = Some(escape(body[i + 1]));
            j = i + 2;
        } else {
            c = None;
            j = i + 1;
        }
    } else {
        c = Some(body[i]);
        j = i + 1;
    }
    let raw_boundary = is_raw_boundary(bare, expand_variables) || c.is_none();
    let identifier_boundary = is_identifier_boundary(c);
    (false, c, j, raw_boundary, identifier_boundary)
}

impl FormatString {
    /// Every region lies between characters of the text.
    #[verifier::type_invariant]
    spec fn regions_fit(&self) -> bool {
        forall|k: int|
            0 <= k < self.regions@.len() ==> (#[trigger] self.regions@[k]).spec_range().fits(
                self.value@,
            )
    }

    /// The backing text: escapes replaced, quotes and variable markers gone.
    pub closed spec fn text(&self) -> Seq<char> {
        self.value@
    }

    /// The string that holds the backing text.
    pub closed spec fn backing(&self) -> String {
        self.value
    }

    /// The pieces of the template, first to last.
    pub closed spec fn pieces(&self) -> Seq<Piece> {
        Seq::new(self.regions@.len(), |k: int| self.regions@[k].piece_of(self.value@))
    }

    /// A template with the text `value` and no pieces.
    pub fn raw(value: &str) -> (res: FormatString)
        ensures
            res.text() == value@,
            res.pieces() == Seq::<Piece>::empty(),
    {
        let res = FormatString { value: value.to_owned(), regions: vec![] };
        assert(res.pieces() =~= Seq::<Piece>::empty());
        res
    }

    /// Cuts the quoted literal `raw` into literal and variable pieces.
    ///
    /// One layer of quotes goes and escapes are replaced. With
    /// `expand_variables` each bare `$` opens a variable piece, whose name
    /// runs up to the next boundary and is empty where a boundary follows
    /// at once; a `$` behind a backslash is text.
    pub fn parse(raw: &str, expand_variables: bool) -> (res: FormatString)
        ensures
            res.text() == template_text(raw@, expand_variables),
            res.pieces() == template_pieces(raw@, expand_variables),
            concat_pieces(res.pieces()) == res.text(),
    {
        let stripped = remove_ends(raw);
        let body = chars_of(stripped);
        let n = body.len();
        let mut value = String::new();
        let mut regions: Vec<Region> = Vec::new();
        let mut open: Option<Region> = None;
        let mut i: usize = 0;
        let ghost mut done: Seq<Piece> = Seq::empty();
        let ghost mut cur: Option<Piece> = None;
        proof {
            assert(body@.subrange(0, n as int) =~= body@);
            assert(Seq::<Piece>::empty() + pieces_from(body@, 0, expand_variables, None)
                =~= pieces_from(body@, 0, expand_variables, None));
            assert(Seq::<char>::empty() + text_from(body@, 0, expand_variables) =~= text_from(
                body@,
                0,
                expand_variables,
            ));
            assert(concat_pieces(done) + open_text(cur) =~= Seq::<char>::empty());
        }
        loop
            invariant_except_break
                pieces_from(body@, 0, expand_variables, None) == done + pieces_from(
                    body@,
                    i as int,
                    expand_variables,
                    cur,
                ),
                text_from(body@, 0, expand_variables) == value@ + text_from(
                    body@,
                    i as int,
                    expand_variables,
                ),
                open_region_covers(open, done, cur),
            invariant
                n == body@.len(),
                0 <= i <= n,
                utf8_len(body@) <= usize::MAX,
                value@ == concat_pieces(done) + open_text(cur),
                regions_cover(regions@, done),
                utf8_len(value@) + utf8_len(body@.subrange(i as int, n as int)) <= utf8_len(body@),
            ensures
                cur is None,
                pieces_from(body@, 0, expand_variables, None) == done,
                text_from(body@, 0, expand_variables) == value@,
            decreases n - i,
        {
            let ghost start_done = done;
            let ghost start_cur = cur;
            let ghost start_value = value@;
            let (marker, c, j, raw_boundary, identifier_boundary) = scan(
                &body,
                i,
                expand_variables,
            );
            proof {
                lemma_scan_step(body@, i as int, expand_variables, cur);
                lemma_encode_concat(concat_pieces(done), open_text(cur));
                if marker || c is Some {
                    lemma_scan_bytes(body@, i as int, expand_variables);
                }
                if c is Some {
                    lemma_utf8_len_push(value@, c->0);
                }
            }
            let closes = match &open {
                Some(Region::Raw(_)) => raw_boundary,
                Some(Region::Variable(_)) => identifier_boundary,
                None => false,
            };
            assert(closes == scan_closes(body@, i as int, expand_variables, cur));
            if closes {
                match open {
                    Some(region) => {
                        proof {
                            lemma_close_region(regions@, done, region, cur->0);
                        }
                        regions.push(region);
                    },
                    None => {},
                }
                open = None;
                proof {
                    done = done.push(cur->0);
                    cur = None;
                    assert(done =~= start_done + close_piece(start_cur));
                    assert(value@ =~= concat_pieces(done) + open_text(cur));
                }
            }
            if !marker && c.is_none() {
                proof {
                    assert(done =~= start_done + close_piece(start_cur));
                    assert(value@ =~= value@ + Seq::<char>::empty());
                }
                break ;
            }
            let next = match open {
                Some(Region::Raw(mut range)) => {
                    range.grow(c);
                    Region::Raw(range)
                },
                Some(Region::Variable(mut range)) => {
                    range.grow(c);
                    Region::Variable(range)
                },
                None => {
                    let count = regions.len();
                    proof {
                        if count > 0 {
                            lemma_last_region_end(regions@, done);
                        }
                    }
                    let range = if count > 0 {
                        Range::first_after(Some(regions[count - 1].range()), c)
                    } else {
                        Range::first_after(None, c)
                    };
                    if marker {
                        Region::Variable(range)
                    } else {
                        Region::Raw(range)
                    }
                },
            };
            open = Some(next);
            match c {
                Some(ch) => {
                    value.push(ch);
                },
                None => {},
            }
            proof {
                let before = cur;
                cur = Some(scan_current(body@, i as int, expand_variables, start_cur));
                if c is Some {
                    let ch = c->0;
                    lemma_utf8_len_push(Seq::empty(), ch);
                    assert(Seq::<char>::empty().push(ch) =~= seq![ch]);
                    if before is None {
                        assert(open_text(cur) =~= seq![ch]);
                    } else {
                        assert(open_text(cur) =~= open_text(before).push(ch));
                        lemma_utf8_len_push(open_text(before), ch);
                    }
                    assert(value@ =~= start_value + seq![ch]);
                } else {
                    assert(open_text(cur) =~= Seq::<char>::empty());
                    assert(value@ =~= start_value + Seq::<char>::empty());
                }
                assert(value@ =~= concat_pieces(done) + open_text(cur));
                assert(done + pieces_from(body@, j as int, expand_variables, cur) =~= start_done
                    + pieces_from(body@, i as int, expand_variables, start_cur));
                assert(value@ + text_from(body@, j as int, expand_variables) =~= start_value
                    + text_from(body@, i as int, expand_variables));
            }
            i = j;
        }
        proof {
            assert(value@ =~= concat_pieces(done));
            lemma_regions_spell(regions@, done, value@);
            assert(strip_quotes(raw@) == body@);
        }
        let res = FormatString { value, regions };
        assert(res.pieces() =~= done);
        res
    }

    /// A walk over the pieces, starting at the first.
    pub fn into_iter(&self) -> (res: FormatStringIter<'_>)
        ensures
            res.position() == 0,
            res.template() == *self,
    {
        FormatStringIter { target: self, region: 0usize }
    }

    /// Gives up the template for its backing text.
    pub fn into_string(self) -> (res: String)
        ensures
            res@ == self.text(),
    {
        self.value
    }

    /// The backing text.
    pub fn as_str(&self) -> (res: &str)
        ensures
            res@ == self.text(),
    {
        self.value.as_str()
    }
}

impl From<FormatString> for String {
    /// The backing text of the template.
    fn from(value: FormatString) -> (res: String) {
        value.value
    }
}

impl vstd::std_specs::convert::FromSpecImpl<FormatString> for String {
    open spec fn obeys_from_spec() -> bool {
        true
    }

    open spec fn from_spec(value: FormatString) -> String {
        value.backing()
    }
}

/// The string that a template gives up spells its backing text.
pub proof fn lemma_backing_spells_text(template: FormatString)
    ensures
        template.backing()@ == template.text(),
{
}

impl Clone for FormatString {
    fn clone(&self) -> (res: Self)
        ensures
            res.text() == self.text(),
            res.pieces() == self.pieces(),
    {
        proof {
            use_type_invariant(self);
        }
        let mut regions: Vec<Region> = Vec::new();
        let mut k: usize = 0;
        while k < self.regions.len()
            invariant
                0 <= k <= self.regions.len(),
                regions@ == self.regions@.take(k as int),
            decreases self.regions.len() - k,
        {
            regions.push(self.regions[k]);
            k += 1;
            assert(regions@ =~= self.regions@.take(k as int));
        }
        assert(regions@ =~= self.regions@);
        let res = FormatString { value: self.value.clone(), regions };
        assert(res.pieces() =~= self.pieces());
        res
    }
}

impl<'a> FormatStringIter<'a> {
    /// Number of pieces already handed out.
    pub closed spec fn position(&self) -> nat {
        self.region as nat
    }

    /// The template that is walked.
    pub closed spec fn template(&self) -> FormatString {
        *self.target
    }

    /// The pieces still to come.
    pub open spec fn remaining(&self) -> Seq<Piece> {
        if self.position() <= self.template().pieces().len() {
            self.template().pieces().skip(self.position() as int)
        } else {
            Seq::empty()
        }
    }

    /// Hands out the next piece, if one is left.
    pub fn next(&mut self) -> (res: Option<FormatStringPiece<'a>>)
        ensures
            final(self).template() == old(self).template(),
            old(self).position() < old(self).template().pieces().len() ==> res is Some && res->0@
                == old(self).template().pieces()[old(self).position() as int]
                && final(self).position() == old(self).position() + 1,
            old(self).position() >= old(self).template().pieces().len() ==> res is None
                && final(self).position() == old(self).position(),
    {
        let target = self.target;
        proof {
            use_type_invariant(target);
        }
        if self.region < target.regions.len() {
            let region = &target.regions[self.region];
            self.region += 1;
            Some(
                match region {
                    Region::Raw(range) => FormatStringPiece::Raw(range.slice(target.value.as_str())),
                    Region::Variable(range) => FormatStringPiece::Variable(
                        range.slice(target.value.as_str()),
                    ),
                },
            )
        } else {
            None
        }
    }
}

/// The pieces that a scan yields spell the text that it yields, after the
/// text of the open piece.
pub proof fn lemma_pieces_spell_text_from(
    body: Seq<char>,
    i: int,
    expand: bool,
    current: Option<Piece>,
)
    requires
        0 <= i <= body.len(),
    ensures
        concat_pieces(pieces_from(body, i, expand, current)) == open_text(current) + text_from(
            body,
            i,
            expand,
        ),
    decreases body.len() - i,
{
    lemma_scan_step(body, i, expand, current);
    if current is Some {
        lemma_concat_push(Seq::empty(), current->0);
        assert(Seq::<Piece>::empty().push(current->0) =~= close_piece(current));
        assert(concat_pieces(close_piece(current)) =~= open_text(current));
    }
    if scan_ends(body, i, expand) {
        assert(concat_pieces(close_piece(current)) =~= open_text(current) + Seq::<char>::empty());
    } else {
        let j = scan_next(body, i, expand);
        let after = scan_current(body, i, expand, current);
        let rest = pieces_from(body, j, expand, Some(after));
        let added = char_text(scan_char(body, i, expand));
        lemma_pieces_spell_text_from(body, j, expand, Some(after));
        if scan_closes(body, i, expand, current) {
            lemma_concat_add(close_piece(current), rest);
            assert(after.text() =~= added);
        } else {
            assert(Seq::<Piece>::empty() + rest =~= rest);
            if scan_marker(body, i, expand) {
                assert(after.text() =~= added);
                assert(open_text(current) =~= Seq::<char>::empty());
            } else if current is None {
                assert(after.text() =~= added);
            } else {
                assert(after.text() =~= open_text(current) + added);
            }
        }
        assert(concat_pieces(pieces_from(body, i, expand, current)) =~= open_text(current)
            + text_from(body, i, expand));
    }
}

/// Round trip: the texts of the pieces of a template, one after the other,
/// are its backing text.
pub proof fn lemma_pieces_spell_text(raw: Seq<char>, expand: bool)
    ensures
        concat_pieces(template_pieces(raw, expand)) == template_text(raw, expand),
{
    lemma_pieces_spell_text_from(strip_quotes(raw), 0, expand, None);
    assert(open_text(None) + template_text(raw, expand) =~= template_text(raw, expand));
}

/// Without variable expansion a scan that starts in no piece or in a
/// literal piece yields one literal piece, or none where there is no text.
pub proof fn lemma_literal_scan(body: Seq<char>, i: int, current: Option<Piece>)
    requires
        0 <= i <= body.len(),
        current matches Some(p) ==> p is Raw,
    ensures
        pieces_from(body, i, false, current) == (if current is None && text_from(
            body,
            i,
            false,
        ).len() == 0 {
            Seq::<Piece>::empty()
        } else {
            seq![Piece::Raw(open_text(current) + text_from(body, i, false))]
        }),
    decreases body.len() - i,
{
    lemma_scan_step(body, i, false, current);
    if scan_ends(body, i, false) {
        if current is Some {
            assert(open_text(current) + Seq::<char>::empty() =~= open_text(current));
        }
    } else {
        let j = scan_next(body, i, false);
        let after = scan_current(body, i, false, current);
        lemma_literal_scan(body, j, Some(after));
        let rest = pieces_from(body, j, false, Some(after));
        assert(Seq::<Piece>::empty() + rest =~= rest);
        assert(after.text() + text_from(body, j, false) =~= open_text(current) + text_from(
            body,
            i,
            false,
        ));
    }
}

/// A `$` behind a backslash is text: it is no marker, it joins the backing
/// text, and it goes to a literal piece, after closing an open variable
/// piece.
pub proof fn lemma_escaped_marker_is_text(
    body: Seq<char>,
    i: int,
    expand: bool,
    current: Option<Piece>,
)
    requires
        0 <= i,
        i + 1 < body.len(),
        body[i] == '\\',
        body[i + 1] == '$',
    ensures
        !scan_marker(body, i, expand),
        text_from(body, i, expand) == seq!['$'] + text_from(body, i + 2, expand),
        pieces_from(body, i, expand, current) == (match current {
            Some(Piece::Raw(t)) => pieces_from(
                body,
                i + 2,
                expand,
                Some(Piece::Raw(t.push('$'))),
            ),
            Some(Piece::Variable(t)) => seq![Piece::Variable(t)] + pieces_from(
                body,
                i + 2,
                expand,
                Some(Piece::Raw(seq!['$'])),
            ),
            None => pieces_from(body, i + 2, expand, Some(Piece::Raw(seq!['$']))),
        }),
{
}

/// A variable name ends before a space, before a line feed and before
/// each sign of punctuation but `%`, and at the end of input.
pub proof fn lemma_name_boundaries()
    ensures
        spec_is_identifier_boundary(None),
        spec_is_identifier_boundary(Some(' ')),
        spec_is_identifier_boundary(Some('\n')),
        forall|c: char| spec_is_special(c) && c != '%' ==> spec_is_identifier_boundary(Some(c)),
        !spec_is_identifier_boundary(Some('%')),
{
}

/// A marker opens a variable piece whatever follows: where a boundary or
/// the end of input follows at once, the name is empty.
pub proof fn lemma_marker_opens_variable(body: Seq<char>, i: int, current: Option<Piece>)
    requires
        0 <= i < body.len(),
        body[i] == '$',
    ensures
        pieces_from(body, i, true, current) == close_piece(current) + pieces_from(
            body,
            i + 1,
            true,
            Some(Piece::Variable(Seq::empty())),
        ),
        text_from(body, i, true) == text_from(body, i + 1, true),
        i + 1 == body.len() ==> pieces_from(body, i, true, current) == close_piece(current)
            + seq![Piece::Variable(Seq::empty())],
{
}

/// A template parsed without variable expansion is a single literal piece
/// that holds its whole text: `$` is an ordinary character there.
pub proof fn lemma_literal_template(raw: Seq<char>)
    ensures
        template_pieces(raw, false) == (if template_text(raw, false).len() == 0 {
            Seq::<Piece>::empty()
        } else {
            seq![Piece::Raw(template_text(raw, false))]
        }),
{
    lemma_literal_scan(strip_quotes(raw), 0, None);
    assert(open_text(None) + template_text(raw, false) =~= template_text(raw, false));
}

/// Walking a template does not change it: two walks that start afresh on
/// one template hand out the same pieces in the same order.
pub proof fn lemma_walks_agree(first: FormatStringIter, second: FormatStringIter)
    requires
        first.template() == second.template(),
        first.position() == 0,
        second.position() == 0,
    ensures
        first.remaining() == first.template().pieces(),
        second.remaining() == first.remaining(),
{
    assert(first.template().pieces().skip(0) =~= first.template().pieces());
}

} // verus!
