//! [`Span`]: a range of a source text that shares the text with every span
//! derived from it.
use std::string::String;
use std::sync::Arc;

use vstd::prelude::*;
use vstd::string::StringSliceAdditionalSpecFns;
use vstd::utf8::{decode_utf8, encode_utf8, encode_utf8_decode_utf8, is_char_boundary};

use crate::model::{
    byte_position, lemma_boundary_after_newline, lemma_boundary_in_suffix, lemma_char_boundary,
    lemma_encode_concat, lemma_line_end_facts, lemma_line_end_same, lemma_line_start_facts,
    line_end_after, line_start_before, pos,
};

pub mod wrapper;

verus! {

/// A half-open range `[start, end)` of byte offsets.
#[derive(Clone, Copy, Debug, Default, PartialEq, Eq, Structural, Hash)]
pub struct TextRange {
    pub start: u32,
    pub end: u32,
}

impl TextRange {
    /// The range `[start, end)`.
    pub fn new(start: u32, end: u32) -> (r: TextRange)
        requires
            start <= end,
        ensures
            r.start == start,
            r.end == end,
    {
        TextRange { start, end }
    }
}

/// Whether `c` has Unicode's `White_Space` property.
pub open spec fn is_whitespace(c: char) -> bool {
    let u = c as u32;
    (0x9 <= u && u <= 0xd) || u == 0x20 || u == 0x85 || u == 0xa0 || u == 0x1680 || (0x2000 <= u
        && u <= 0x200a) || u == 0x2028 || u == 0x2029 || u == 0x202f || u == 0x205f || u == 0x3000
}

/// Number of whitespace characters at the start of `cs`.
pub open spec fn leading_whitespace(cs: Seq<char>) -> nat
    decreases cs.len(),
{
    if cs.len() > 0 && is_whitespace(cs[0]) {
        1 + leading_whitespace(cs.drop_first())
    } else {
        0
    }
}

/// Number of whitespace characters at the end of `cs`.
pub open spec fn trailing_whitespace(cs: Seq<char>) -> nat
    decreases cs.len(),
{
    if cs.len() > 0 && is_whitespace(cs.last()) {
        1 + trailing_whitespace(cs.drop_last())
    } else {
        0
    }
}

/// The whitespace at either end is part of the text.
pub proof fn lemma_whitespace_len(cs: Seq<char>)
    ensures
        leading_whitespace(cs) <= cs.len(),
        trailing_whitespace(cs) <= cs.len(),
    decreases cs.len(),
{
    if cs.len() > 0 {
        lemma_whitespace_len(cs.drop_first());
        lemma_whitespace_len(cs.drop_last());
    }
}

/// Relies on `str::trim_start`: it drops the leading characters that have
/// the `White_Space` property and keeps the rest.
#[verifier::external_body]
fn trim_start_str(s: &str) -> (r: &str)
    ensures
        r@ == s@.subrange(leading_whitespace(s@) as int, s@.len() as int),
{
    s.trim_start()
}

/// Relies on `str::trim_end`: it drops the trailing characters that have the
/// `White_Space` property and keeps the rest.
#[verifier::external_body]
fn trim_end_str(s: &str) -> (r: &str)
    ensures
        r@ == s@.subrange(0, s@.len() - trailing_whitespace(s@)),
{
    s.trim_end()
}

/// What a [`Span`] is: a source text and a byte range of it.
pub struct SpanView {
    pub source: Seq<char>,
    pub start: nat,
    pub end: nat,
}

impl SpanView {
    /// The UTF-8 bytes of the source.
    pub open spec fn bytes(self) -> Seq<u8> {
        encode_utf8(self.source)
    }

    /// The range lies in the source, whose length fits a `u32`.
    pub open spec fn wf(self) -> bool {
        self.start <= self.end <= self.bytes().len() <= u32::MAX
    }

    /// Both ends of the range are character boundaries of the source.
    pub open spec fn on_boundaries(self) -> bool {
        is_char_boundary(self.bytes(), self.start as int) && is_char_boundary(
            self.bytes(),
            self.end as int,
        )
    }

    /// The same source with the range `[start, end)`.
    pub open spec fn with_range(self, start: int, end: int) -> SpanView {
        SpanView { source: self.source, start: start as nat, end: end as nat }
    }

    /// The whole line that holds the start of the range, with its `'\n'` if
    /// it has one.
    pub open spec fn line_of(self) -> SpanView {
        let ls = line_start_before(self.bytes(), 10u8, self.start as int);
        self.with_range(ls, line_end_after(self.bytes(), 10u8, ls))
    }

    /// The bytes that the range selects.
    pub open spec fn text_bytes(self) -> Seq<u8> {
        self.bytes().subrange(self.start as int, self.end as int)
    }

    /// The characters that the range selects.
    pub open spec fn text(self) -> Seq<char> {
        decode_utf8(self.text_bytes())
    }
}

/// A byte range of a source text that is held behind a shared pointer, so
/// that spans made from one another share one allocation of the text.
#[derive(Debug)]
pub struct Span {
    source: Arc<String>,
    range: TextRange,
}

impl View for Span {
    type V = SpanView;

    closed spec fn view(&self) -> SpanView {
        SpanView {
            source: self.source@,
            start: self.range.start as nat,
            end: self.range.end as nat,
        }
    }
}

impl Clone for Span {
    /// Another handle on the same source, with the same range.
    fn clone(&self) -> (r: Span)
        ensures
            r@ == self@,
    {
        proof {
            use_type_invariant(self);
        }
        Span { source: self.source.clone(), range: self.range }
    }
}

impl Default for Span {
    /// The empty span over an empty source.
    fn default() -> (r: Span)
        ensures
            r@ == (SpanView { source: Seq::empty(), start: 0, end: 0 }),
    {
        let source = String::new();
        proof {
            assert(encode_utf8(source@).len() == 0);
        }
        Span { source: Arc::new(source), range: TextRange { start: 0, end: 0 } }
    }
}

impl Span {
    #[verifier::type_invariant]
    closed spec fn inv(self) -> bool {
        self@.wf()
    }

    fn checked_new(source: Arc<String>, range: TextRange) -> (r: Span)
        requires
            range.start <= range.end <= encode_utf8(source@).len() <= u32::MAX,
        ensures
            r@ == (SpanView { source: source@, start: range.start as nat, end: range.end as nat }),
    {
        Span { source, range }
    }

    /// A span of `range` over a fresh copy of `source`.
    pub fn new(source: &str, range: TextRange) -> (r: Span)
        requires
            range.start <= range.end <= source.spec_bytes().len() <= u32::MAX,
        ensures
            r@ == (SpanView { source: source@, start: range.start as nat, end: range.end as nat }),
            r@.wf(),
    {
        Self::checked_new(Arc::new(source.to_owned()), range)
    }

    /// A span over the whole of a fresh copy of `source`.
    pub fn new_full(source: &str) -> (r: Span)
        requires
            source.spec_bytes().len() <= u32::MAX,
        ensures
            r@ == (SpanView { source: source@, start: 0, end: source.spec_bytes().len() }),
            r@.wf(),
            r@.on_boundaries(),
    {
        proof {
            lemma_char_boundary(source@, 0);
        }
        let len = source.len() as u32;
        Self::checked_new(Arc::new(source.to_owned()), TextRange { start: 0, end: len })
    }

    /// A span of `range` over the same source.
    pub fn create(&self, range: TextRange) -> (r: Span)
        requires
            range.start <= range.end <= self@.bytes().len(),
        ensures
            r@ == self@.with_range(range.start as int, range.end as int),
            r@.wf(),
    {
        proof {
            use_type_invariant(self);
        }
        Self::checked_new(self.source.clone(), range)
    }

    /// A span of `range` taken relative to the start of this span.
    pub fn slice(&self, range: TextRange) -> (r: Span)
        requires
            range.start <= range.end,
            self@.start + range.end <= self@.bytes().len(),
        ensures
            r@ == self@.with_range(self@.start + range.start, self@.start + range.end),
            r@.wf(),
    {
        proof {
            use_type_invariant(self);
        }
        let start = self.range.start;
        self.create(TextRange { start: start + range.start, end: start + range.end })
    }

    /// This span cut in two after its first `len` bytes.
    pub fn split(&self, len: u32) -> (r: (Span, Span))
        requires
            self@.start + len <= self@.end,
        ensures
            r.0@ == self@.with_range(self@.start as int, self@.start + len),
            r.1@ == self@.with_range(self@.start + len, self@.end as int),
            r.0@.wf(),
            r.1@.wf(),
    {
        proof {
            use_type_invariant(self);
        }
        let start = self.range.start;
        let end = self.range.end;
        let point = start + len;
        (
            self.create(TextRange { start, end: point }),
            self.create(TextRange { start: point, end }),
        )
    }

    /// Whether the range is empty.
    pub fn is_empty(&self) -> (r: bool)
        ensures
            r == (self@.start == self@.end),
    {
        self.range.start == self.range.end
    }

    /// The length of the range in bytes.
    pub fn len(&self) -> (r: u32)
        ensures
            r == self@.end - self@.start,
    {
        proof {
            use_type_invariant(self);
        }
        self.range.end - self.range.start
    }

    /// The length of the source in bytes.
    fn source_len(&self) -> (r: u32)
        ensures
            r == self@.bytes().len(),
    {
        proof {
            use_type_invariant(self);
        }
        self.source.as_str().as_bytes().len() as u32
    }

    /// The part of the source before this span.
    pub fn before(&self) -> (r: Span)
        ensures
            r@ == self@.with_range(0, self@.start as int),
            r@.wf(),
    {
        proof {
            use_type_invariant(self);
        }
        self.create(TextRange { start: 0, end: self.range.start })
    }

    /// The part of the source after this span.
    pub fn after(&self) -> (r: Span)
        ensures
            r@ == self@.with_range(self@.end as int, self@.bytes().len() as int),
            r@.wf(),
    {
        proof {
            use_type_invariant(self);
        }
        let end = self.source_len();
        self.create(TextRange { start: self.range.end, end })
    }

    /// The first `len` bytes of this span, or all of it when it is shorter.
    pub fn take(&self, len: u32) -> (r: Span)
        ensures
            r@ == self@.with_range(
                self@.start as int,
                self@.start + if len < self@.end - self@.start {
                    len as int
                } else {
                    self@.end - self@.start
                },
            ),
            r@.wf(),
    {
        proof {
            use_type_invariant(self);
        }
        let range = self.range;
        let whole = range.end - range.start;
        let new_len = if len < whole { len } else { whole };
        self.create(TextRange { start: range.start, end: range.start + new_len })
    }

    /// The empty span at the start of this span.
    pub fn start(&self) -> (r: Span)
        ensures
            r@ == self@.with_range(self@.start as int, self@.start as int),
            r@.wf(),
    {
        proof {
            use_type_invariant(self);
        }
        self.create(TextRange { start: self.range.start, end: self.range.start })
    }

    /// The empty span at the end of this span.
    pub fn end(&self) -> (r: Span)
        ensures
            r@ == self@.with_range(self@.end as int, self@.end as int),
            r@.wf(),
    {
        proof {
            use_type_invariant(self);
        }
        self.create(TextRange { start: self.range.end, end: self.range.end })
    }

    /// The byte offset where this span starts.
    pub fn index(&self) -> (r: u32)
        ensures
            r == self@.start,
    {
        self.range.start
    }

    /// The range of this span.
    pub fn range(&self) -> (r: TextRange)
        ensures
            r.start == self@.start,
            r.end == self@.end,
    {
        self.range
    }

    /// The whole source text.
    pub fn source(&self) -> (r: &str)
        ensures
            r@ == self@.source,
    {
        self.source.as_str()
    }

    /// The text that the range selects; both ends must be character
    /// boundaries.
    pub fn text(&self) -> (r: &str)
        requires
            self@.on_boundaries(),
        ensures
            r.spec_bytes() == self@.text_bytes(),
            r@ == self@.text(),
    {
        proof {
            use_type_invariant(self);
        }
        let source = self.source.as_str();
        let start = self.range.start as usize;
        let end = self.range.end as usize;
        let (_, rest) = source.split_at(start);
        proof {
            lemma_boundary_in_suffix(self@.source, start as int, end as int);
        }
        let (text, _) = rest.split_at(end - start);
        proof {
            encode_utf8_decode_utf8(text@);
            assert(text.spec_bytes() == self@.text_bytes());
        }
        text
    }

    /// This span without the whitespace at the end of its text; both ends
    /// must be character boundaries.
    pub fn trim_end(&self) -> (r: Span)
        requires
            self@.on_boundaries(),
        ensures
            r@ == self@.with_range(
                self@.start as int,
                self@.start + encode_utf8(
                    self@.text().take(self@.text().len() - trailing_whitespace(self@.text())),
                ).len() as int,
            ),
            r@.wf(),
    {
        proof {
            use_type_invariant(self);
        }
        let text = self.text();
        proof {
            encode_utf8_decode_utf8(text@);
            lemma_whitespace_len(text@);
        }
        let trimmed = trim_end_str(text);
        proof {
            assert(trimmed@ =~= text@.take(text@.len() - trailing_whitespace(text@)));
            lemma_encode_concat(trimmed@, text@.skip(trimmed@.len() as int));
            assert(text@ =~= trimmed@ + text@.skip(trimmed@.len() as int));
        }
        let len = trimmed.len() as u32;
        self.create(TextRange { start: self.range.start, end: self.range.start + len })
    }

    /// This span without the whitespace at the start of its text; both ends
    /// must be character boundaries.
    pub fn trim_start(&self) -> (r: Span)
        requires
            self@.on_boundaries(),
        ensures
            r@ == self@.with_range(
                self@.start + encode_utf8(
                    self@.text().take(leading_whitespace(self@.text()) as int),
                ).len() as int,
                self@.end as int,
            ),
            r@.wf(),
    {
        proof {
            use_type_invariant(self);
        }
        let text = self.text();
        proof {
            encode_utf8_decode_utf8(text@);
            lemma_whitespace_len(text@);
        }
        let trimmed = trim_start_str(text);
        let ghost head = text@.take(leading_whitespace(text@) as int);
        proof {
            lemma_encode_concat(head, trimmed@);
            assert(text@ =~= head + trimmed@);
        }
        let offset = (text.len() - trimmed.len()) as u32;
        self.create(TextRange { start: self.range.start + offset, end: self.range.end })
    }

    /// The position of the start of this span in its source.
    pub fn line_column(&self) -> (r: (u32, u32))
        requires
            self@.bytes().len() < u32::MAX,
            is_char_boundary(self@.bytes(), self@.start as int),
        ensures
            pos(r) == byte_position(self@.bytes(), self@.start as int),
    {
        crate::position::line_column(self.source(), self.range.start as usize)
    }

    /// The line of the start of this span.
    pub fn line(&self) -> (r: u32)
        requires
            self@.bytes().len() < u32::MAX,
            is_char_boundary(self@.bytes(), self@.start as int),
        ensures
            r == byte_position(self@.bytes(), self@.start as int).0,
    {
        self.line_column().0
    }

    /// The column of the start of this span.
    pub fn column(&self) -> (r: u32)
        requires
            self@.bytes().len() < u32::MAX,
            is_char_boundary(self@.bytes(), self@.start as int),
        ensures
            r == byte_position(self@.bytes(), self@.start as int).1,
    {
        self.line_column().1
    }

    /// The line that holds the start of this span, with its `'\n'` if it has
    /// one.
    pub fn current_line(&self) -> (r: Span)
        ensures
            r@ == self@.line_of(),
            r@.wf(),
            r@.on_boundaries(),
    {
        proof {
            use_type_invariant(self);
        }
        let bytes = self.source.as_str().as_bytes();
        let len = bytes.len();
        let ghost b = self@.bytes();
        let ghost start = self@.start as int;
        let mut ls: usize = self.range.start as usize;
        while ls > 0 && bytes[ls - 1] != 10u8
            invariant
                bytes@ == b,
                ls <= start <= b.len(),
                line_start_before(b, 10u8, ls as int) == line_start_before(b, 10u8, start),
            decreases ls,
        {
            ls -= 1;
        }
        let mut le: usize = ls;
        while le < len && bytes[le] != 10u8
            invariant
                bytes@ == b,
                len == b.len(),
                ls <= le <= len,
                line_end_after(b, 10u8, le as int) == line_end_after(b, 10u8, ls as int),
            decreases len - le,
        {
            le += 1;
        }
        if le < len {
            le += 1;
        }
        proof {
            lemma_line_start_facts(b, 10u8, start);
            lemma_line_end_facts(b, 10u8, ls as int);
            lemma_char_boundary(self@.source, 0);
            if ls > 0 {
                lemma_boundary_after_newline(self@.source, ls - 1);
            }
            if le < b.len() {
                lemma_boundary_after_newline(self@.source, le - 1);
            }
        }
        self.create(TextRange { start: ls as u32, end: le as u32 })
    }

    /// The line after the one that holds the start of this span, or the empty
    /// span at the end of the source when that line is the last.
    pub fn next_line(&self) -> (r: Span)
        ensures
            r@ == if self@.line_of().end == self@.bytes().len() {
                self@.with_range(self@.bytes().len() as int, self@.bytes().len() as int)
            } else {
                self@.with_range(
                    self@.line_of().end as int,
                    line_end_after(self@.bytes(), 10u8, self@.line_of().end as int),
                )
            },
            r@.wf(),
            r@.on_boundaries(),
    {
        proof {
            use_type_invariant(self);
        }
        let current = self.current_line();
        let end = current.range.end;
        if end == self.source_len() {
            proof {
                lemma_char_boundary(self@.source, end as int);
            }
            self.create(TextRange { start: end, end })
        } else {
            proof {
                let b = self@.bytes();
                lemma_line_start_facts(b, 10u8, self@.start as int);
                lemma_line_end_facts(b, 10u8, current@.start as int);
            }
            self.create(TextRange { start: end, end }).current_line()
        }
    }

    /// The line before the one that holds the start of this span, or the
    /// empty span at offset 0 when that line is the first.
    pub fn prev_line(&self) -> (r: Span)
        ensures
            r@ == if self@.line_of().start == 0 {
                self@.with_range(0, 0)
            } else {
                self@.with_range(
                    line_start_before(self@.bytes(), 10u8, self@.line_of().start - 1),
                    self@.line_of().start as int,
                )
            },
            r@.wf(),
            r@.on_boundaries(),
    {
        proof {
            use_type_invariant(self);
        }
        let start = self.current_line().range.start;
        if start == 0 {
            proof {
                lemma_char_boundary(self@.source, 0);
            }
            self.create(TextRange { start: 0, end: 0 })
        } else {
            proof {
                let b = self@.bytes();
                let j = start - 1;
                lemma_line_start_facts(b, 10u8, self@.start as int);
                lemma_line_start_facts(b, 10u8, j);
                lemma_line_end_same(b, 10u8, line_start_before(b, 10u8, j), j);
            }
            self.create(TextRange { start: start - 1, end: start - 1 }).current_line()
        }
    }
}

} // verus!
