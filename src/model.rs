//! The mathematical model of positions in a text.
//!
//! A text is looked at as a sequence of units: the characters of `s@`, or the
//! UTF-8 bytes of `s.spec_bytes()`. In both index spaces a line ends right
//! after a newline unit, and the column counts the characters that stand
//! between the start of the line and the index.
use vstd::prelude::*;
use vstd::utf8::{
    encode_utf8, encode_utf8_valid_utf8, is_char_boundary,
    is_char_boundary_iff_not_is_continuation_byte, is_char_boundary_start_end_of_seq,
    is_continuation_byte, length_of_first_scalar, pop_first_scalar, valid_utf8, valid_utf8_split,
};

verus! {

/// Number of occurrences of `x` among the first `i` units of `s`.
pub open spec fn count_before<T>(s: Seq<T>, x: T, i: int) -> nat
    decreases i,
{
    if i <= 0 {
        0
    } else {
        count_before(s, x, i - 1) + if s[i - 1] == x { 1nat } else { 0nat }
    }
}

/// Number of lines of `s`: one more than the number of newlines `nl`.
pub open spec fn line_count<T>(s: Seq<T>, nl: T) -> nat {
    1 + count_before(s, nl, s.len() as int)
}

/// Start of the line that holds index `i`: the index just after the last
/// newline `nl` before `i`, or 0 when there is none.
pub open spec fn line_start_before<T>(s: Seq<T>, nl: T, i: int) -> int
    decreases i,
{
    if i <= 0 {
        0
    } else if s[i - 1] == nl {
        i
    } else {
        line_start_before(s, nl, i - 1)
    }
}

/// End of the line that starts at or before index `i`: the index just after
/// the first newline `nl` at or after `i`, or the length of `s` when there is
/// none.
pub open spec fn line_end_after<T>(s: Seq<T>, nl: T, i: int) -> int
    decreases s.len() - i,
{
    if i >= s.len() || i < 0 {
        s.len() as int
    } else if s[i] == nl {
        i + 1
    } else {
        line_end_after(s, nl, i + 1)
    }
}

/// Index of the first newline `nl` at or after `i`, or the length of `s`
/// when there is none: where the characters of the line end.
pub open spec fn line_content_end<T>(s: Seq<T>, nl: T, i: int) -> int
    decreases s.len() - i,
{
    if i >= s.len() || i < 0 {
        s.len() as int
    } else if s[i] == nl {
        i
    } else {
        line_content_end(s, nl, i + 1)
    }
}

/// Start of the line reached from index `i` by passing `k` more newlines
/// `nl`; `None` when fewer than `k` newlines follow `i`.
pub open spec fn line_start<T>(s: Seq<T>, nl: T, i: int, k: nat) -> Option<int>
    decreases s.len() - i, k,
{
    if k == 0 {
        Some(i)
    } else if i >= s.len() || i < 0 {
        None
    } else if s[i] == nl {
        line_start(s, nl, i + 1, (k - 1) as nat)
    } else {
        line_start(s, nl, i + 1, k)
    }
}

/// Start of the one-based line `line` of `s`, if `s` has that many lines.
pub open spec fn line_start_of<T>(s: Seq<T>, nl: T, line: nat) -> Option<int> {
    line_start(s, nl, 0, (line - 1) as nat)
}

/// The one-based `(line, column)` of character index `i` in `s`.
pub open spec fn char_position(s: Seq<char>, i: int) -> (nat, nat) {
    (1 + count_before(s, '\n', i), (1 + i - line_start_before(s, '\n', i)) as nat)
}

/// Number of bytes in `b[lo..hi]` that begin a character, that is, that are
/// not UTF-8 continuation bytes.
pub open spec fn starts_between(b: Seq<u8>, lo: int, hi: int) -> nat
    decreases hi - lo,
{
    if hi <= lo {
        0
    } else {
        starts_between(b, lo, hi - 1) + if is_continuation_byte(b[hi - 1]) { 0nat } else { 1nat }
    }
}

/// The one-based `(line, column)` of byte index `i` in the UTF-8 bytes `b`.
pub open spec fn byte_position(b: Seq<u8>, i: int) -> (nat, nat) {
    (1 + count_before(b, 10u8, i), 1 + starts_between(b, line_start_before(b, 10u8, i), i))
}

/// The positions of the character indices `indexs`.
pub open spec fn char_positions(s: Seq<char>, indexs: Seq<usize>) -> Seq<(nat, nat)> {
    Seq::new(indexs.len(), |k: int| char_position(s, indexs[k] as int))
}

/// The positions of the byte indices `indexs`: the position of each index
/// that is a character boundary of `b`, and `(0, 0)` for any other.
pub open spec fn byte_positions(b: Seq<u8>, indexs: Seq<usize>) -> Seq<(nat, nat)> {
    Seq::new(
        indexs.len(),
        |k: int|
            if is_char_boundary(b, indexs[k] as int) {
                byte_position(b, indexs[k] as int)
            } else {
                (0nat, 0nat)
            },
    )
}

/// `p` comes no later than `q`: on an earlier line, or on the same line at
/// the same or an earlier column.
pub open spec fn position_le(p: (nat, nat), q: (nat, nat)) -> bool {
    p.0 < q.0 || (p.0 == q.0 && p.1 <= q.1)
}

/// A position as the model sees it.
pub open spec fn pos(p: (u32, u32)) -> (nat, nat) {
    (p.0 as nat, p.1 as nat)
}

/// The character index reached from index `i` by moving over `n` more
/// characters, stopping early at a `'\n'` or at the end of `s`.
pub open spec fn char_column_index(s: Seq<char>, i: int, n: nat) -> int
    decreases s.len() - i,
{
    if i >= s.len() || i < 0 {
        s.len() as int
    } else if n == 0 || s[i] == '\n' {
        i
    } else {
        char_column_index(s, i + 1, (n - 1) as nat)
    }
}

/// The byte index reached from byte index `i` by moving over `n` more
/// characters, stopping early at a `'\n'` or at the end of `b`; continuation
/// bytes are stepped over, so the result is always a character boundary.
pub open spec fn byte_column_index(b: Seq<u8>, i: int, n: nat) -> int
    decreases b.len() - i,
{
    if i >= b.len() || i < 0 {
        b.len() as int
    } else if is_continuation_byte(b[i]) {
        byte_column_index(b, i + 1, n)
    } else if n == 0 || b[i] == 10u8 {
        i
    } else {
        byte_column_index(b, i + 1, (n - 1) as nat)
    }
}

/// The character index of the one-based `(line, column)` of `s`.
///
/// A line past the last one gives the number of characters; a column past
/// the end of its line gives the index of the line's `'\n'` (or the end of
/// `s`); column 0 gives the index just before the line's start, or 0 on the
/// first line.
pub open spec fn char_index_of(s: Seq<char>, line: nat, column: nat) -> int {
    match line_start_of(s, '\n', line) {
        None => s.len() as int,
        Some(ls) => if column == 0 {
            if ls > 0 { ls - 1 } else { 0 }
        } else {
            char_column_index(s, ls, (column - 1) as nat)
        },
    }
}

/// The byte index of the one-based `(line, column)` of the UTF-8 bytes `b`,
/// with the same clamping as [`char_index_of`].
pub open spec fn byte_index_of(b: Seq<u8>, line: nat, column: nat) -> int {
    match line_start_of(b, 10u8, line) {
        None => b.len() as int,
        Some(ls) => if column == 0 {
            if ls > 0 { ls - 1 } else { 0 }
        } else {
            byte_column_index(b, ls, (column - 1) as nat)
        },
    }
}

/// The start of a line lies between 0 and the index it was asked for.
pub proof fn lemma_line_start_bounds<T>(s: Seq<T>, nl: T, i: int)
    requires
        0 <= i,
    ensures
        0 <= line_start_before(s, nl, i) <= i,
    decreases i,
{
    if i > 0 && s[i - 1] != nl {
        lemma_line_start_bounds(s, nl, i - 1);
    }
}

/// A line starts at 0 or just after a newline, and no newline stands between
/// its start and the index it was asked for.
pub proof fn lemma_line_start_facts<T>(s: Seq<T>, nl: T, i: int)
    requires
        0 <= i <= s.len(),
    ensures
        0 <= line_start_before(s, nl, i) <= i,
        line_start_before(s, nl, i) == 0 || s[line_start_before(s, nl, i) - 1] == nl,
        forall|k: int| line_start_before(s, nl, i) <= k < i ==> s[k] != nl,
    decreases i,
{
    if i > 0 && s[i - 1] != nl {
        lemma_line_start_facts(s, nl, i - 1);
    }
}

/// A line ends at the end of `s` or just after a newline, and no newline
/// stands before that between the index it was asked for and its end.
pub proof fn lemma_line_end_facts<T>(s: Seq<T>, nl: T, i: int)
    requires
        0 <= i <= s.len(),
    ensures
        i <= line_end_after(s, nl, i) <= s.len(),
        line_end_after(s, nl, i) == s.len() || (line_end_after(s, nl, i) > i && s[line_end_after(
            s,
            nl,
            i,
        ) - 1] == nl),
        forall|k: int| i <= k < line_end_after(s, nl, i) - 1 ==> s[k] != nl,
    decreases s.len() - i,
{
    if i < s.len() && s[i] != nl {
        lemma_line_end_facts(s, nl, i + 1);
    }
}

/// Two indices with no newline between them end on the same line end.
pub proof fn lemma_line_end_same<T>(s: Seq<T>, nl: T, i: int, j: int)
    requires
        0 <= i <= j <= s.len(),
        forall|k: int| i <= k < j ==> s[k] != nl,
    ensures
        line_end_after(s, nl, i) == line_end_after(s, nl, j),
    decreases j - i,
{
    if i < j {
        lemma_line_end_same(s, nl, i + 1, j);
    }
}

/// The encoding of two texts one after the other is the two encodings one
/// after the other.
pub proof fn lemma_encode_concat(a: Seq<char>, b: Seq<char>)
    ensures
        encode_utf8(a + b) == encode_utf8(a) + encode_utf8(b),
    decreases a.len(),
{
    if a.len() == 0 {
        assert(a + b =~= b);
        assert(encode_utf8(a) + encode_utf8(b) =~= encode_utf8(b));
    } else {
        assert((a + b).drop_first() =~= a.drop_first() + b);
        lemma_encode_concat(a.drop_first(), b);
        assert(encode_utf8(a + b) =~= encode_utf8(a) + encode_utf8(b));
    }
}

/// Every character takes at least one byte.
pub proof fn lemma_encoded_len(cs: Seq<char>)
    ensures
        cs.len() <= encode_utf8(cs).len(),
    decreases cs.len(),
{
    if cs.len() > 0 {
        lemma_encoded_len(cs.drop_first());
    }
}

/// In the encoding of a text, a byte index is a character boundary exactly
/// when it is the end of the bytes or a byte there begins a character; the
/// start and the end are boundaries.
pub proof fn lemma_char_boundary(cs: Seq<char>, i: int)
    ensures
        is_char_boundary(encode_utf8(cs), 0),
        is_char_boundary(encode_utf8(cs), encode_utf8(cs).len() as int),
        is_char_boundary(encode_utf8(cs), i) <==> (i == encode_utf8(cs).len() || (0 <= i
            < encode_utf8(cs).len() && !is_continuation_byte(encode_utf8(cs)[i]))),
{
    let b = encode_utf8(cs);
    encode_utf8_valid_utf8(cs);
    is_char_boundary_start_end_of_seq(b);
    if 0 <= i < b.len() {
        is_char_boundary_iff_not_is_continuation_byte(b, i);
    }
}

/// In valid UTF-8, the byte after a one-byte character starts a character or
/// ends the bytes.
proof fn lemma_boundary_after_ascii(b: Seq<u8>, j: int)
    requires
        valid_utf8(b),
        0 <= j < b.len(),
        is_char_boundary(b, j),
        b[j] <= 0x7f,
    ensures
        is_char_boundary(b, j + 1),
    decreases b.len(),
{
    let rest = pop_first_scalar(b);
    let l = length_of_first_scalar(b);
    assert(valid_utf8(rest));
    if j == 0 {
        assert(is_char_boundary(rest, 0));
    } else {
        assert(is_char_boundary(rest, j - l));
        lemma_boundary_after_ascii(rest, j - l);
    }
}

/// In the encoding of a text, the index just after a `'\n'` byte is a
/// character boundary.
pub proof fn lemma_boundary_after_newline(cs: Seq<char>, j: int)
    requires
        0 <= j < encode_utf8(cs).len(),
        encode_utf8(cs)[j] == 10u8,
    ensures
        is_char_boundary(encode_utf8(cs), j + 1),
{
    lemma_char_boundary(cs, j);
    encode_utf8_valid_utf8(cs);
    lemma_boundary_after_ascii(encode_utf8(cs), j);
}

/// A boundary at or after a boundary `start` is a boundary of the bytes
/// that follow `start`.
pub proof fn lemma_boundary_in_suffix(cs: Seq<char>, start: int, end: int)
    requires
        start <= end,
        is_char_boundary(encode_utf8(cs), start),
        is_char_boundary(encode_utf8(cs), end),
    ensures
        is_char_boundary(
            encode_utf8(cs).subrange(start, encode_utf8(cs).len() as int),
            end - start,
        ),
{
    let b = encode_utf8(cs);
    let rest = b.subrange(start, b.len() as int);
    lemma_char_boundary(cs, start);
    lemma_char_boundary(cs, end);
    encode_utf8_valid_utf8(cs);
    valid_utf8_split(b, start);
    is_char_boundary_start_end_of_seq(rest);
    if end - start < rest.len() {
        is_char_boundary_iff_not_is_continuation_byte(rest, end - start);
    }
}

} // verus!
