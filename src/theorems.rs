//! What holds of the model across lookups: index and position lookups undo
//! each other, positions grow with indices, batch lookups agree with single
//! ones, and lines past the last clamp to the end.
use vstd::prelude::*;
use vstd::utf8::{is_char_boundary, is_continuation_byte};

use crate::model::{
    byte_column_index, byte_index_of, byte_position, byte_positions, char_column_index,
    char_index_of, char_position, char_positions, count_before, lemma_line_start_bounds,
    line_content_end, line_count, line_start, line_start_before, line_start_of, position_le,
    starts_between,
};

verus! {

/// Passing `k` more newlines from `i` finds a line start exactly when at
/// least `k` newlines follow `i`; that start lies after exactly `k` more
/// newlines, and just after one of them when `k > 0`.
pub proof fn lemma_line_start<T>(s: Seq<T>, nl: T, i: int, k: nat)
    requires
        0 <= i <= s.len(),
    ensures
        line_start(s, nl, i, k) is Some <==> k <= count_before(s, nl, s.len() as int) - count_before(
            s,
            nl,
            i,
        ),
        line_start(s, nl, i, k) matches Some(j) ==> i <= j <= s.len() && count_before(s, nl, j)
            == count_before(s, nl, i) + k && (k > 0 ==> s[j - 1] == nl),
    decreases s.len() - i,
{
    lemma_count_monotonic(s, nl, i, s.len() as int);
    if k > 0 && i < s.len() {
        if s[i] == nl {
            lemma_line_start(s, nl, i + 1, (k - 1) as nat);
        } else {
            lemma_line_start(s, nl, i + 1, k);
        }
    }
}

/// Counting over a longer prefix never counts less.
pub proof fn lemma_count_monotonic<T>(s: Seq<T>, x: T, i: int, j: int)
    requires
        0 <= i <= j,
    ensures
        count_before(s, x, i) <= count_before(s, x, j),
    decreases j - i,
{
    if i < j {
        lemma_count_monotonic(s, x, i, j - 1);
    }
}

/// With no newline in `s[i..j]`, the count of newlines and the start of the
/// line are the same at `j` as at `i`, when `i` starts a line.
proof fn lemma_same_line<T>(s: Seq<T>, nl: T, i: int, j: int)
    requires
        0 <= i <= j <= s.len(),
        i == 0 || s[i - 1] == nl,
        forall|k: int| i <= k < j ==> s[k] != nl,
    ensures
        count_before(s, nl, j) == count_before(s, nl, i),
        line_start_before(s, nl, j) == i,
    decreases j - i,
{
    if i < j {
        lemma_same_line(s, nl, i, j - 1);
    }
}

/// Counting character starts from the front: the first byte, then the rest.
proof fn lemma_starts_front(b: Seq<u8>, lo: int, hi: int)
    requires
        lo < hi,
    ensures
        starts_between(b, lo, hi) == starts_between(b, lo + 1, hi) + if is_continuation_byte(
            b[lo],
        ) {
            0nat
        } else {
            1nat
        },
    decreases hi - lo,
{
    if lo + 1 < hi {
        lemma_starts_front(b, lo, hi - 1);
    } else {
        assert(starts_between(b, lo, lo) == 0);
        assert(starts_between(b, lo + 1, hi) == 0);
    }
}

/// Moving over `n` characters that the line holds stops after exactly `n`
/// characters and passes no newline.
proof fn lemma_byte_column_reached(b: Seq<u8>, i: int, e: int, n: nat)
    requires
        0 <= i <= b.len(),
        e == line_content_end(b, 10u8, i),
        n <= starts_between(b, i, e),
    ensures
        i <= byte_column_index(b, i, n) <= e,
        starts_between(b, i, byte_column_index(b, i, n)) == n,
        forall|k: int| i <= k < byte_column_index(b, i, n) ==> b[k] != 10u8,
    decreases b.len() - i,
{
    lemma_line_content_end_bound(b, 10u8, i);
    if i < b.len() {
        lemma_line_content_end_bound(b, 10u8, i + 1);
    }
    if i < e {
        lemma_starts_front(b, i, e);
        if is_continuation_byte(b[i]) {
            lemma_byte_column_reached(b, i + 1, e, n);
            lemma_starts_front(b, i, byte_column_index(b, i, n));
        } else if n > 0 {
            lemma_byte_column_reached(b, i + 1, e, (n - 1) as nat);
            lemma_starts_front(b, i, byte_column_index(b, i, n));
        }
    }
}

/// Moving over `n` characters that the line holds lands `n` characters on.
proof fn lemma_char_column_reached(s: Seq<char>, i: int, n: nat)
    requires
        0 <= i,
        i + n <= line_content_end(s, '\n', i),
    ensures
        char_column_index(s, i, n) == i + n,
        forall|k: int| i <= k < i + n ==> s[k] != '\n',
    decreases n,
{
    if n > 0 {
        lemma_char_column_reached(s, i + 1, (n - 1) as nat);
    }
}

/// Looking up the character index of a position that names a character of
/// the text (or the place just after a line's last character), and then the
/// position of that index, gives the position back.
pub proof fn char_index_round_trip(s: Seq<char>, line: nat, column: nat)
    requires
        line >= 1,
        column >= 1,
        line_start_of(s, '\n', line) matches Some(ls) && ls + column - 1 <= line_content_end(
            s,
            '\n',
            ls,
        ),
    ensures
        char_position(s, char_index_of(s, line, column)) == (line, column),
{
    let ls = line_start_of(s, '\n', line)->0;
    lemma_line_start(s, '\n', 0, (line - 1) as nat);
    lemma_line_content_end_bound(s, '\n', ls);
    lemma_char_column_reached(s, ls, (column - 1) as nat);
    lemma_same_line(s, '\n', ls, ls + column - 1);
}

/// Looking up the byte index of a position that names a character of the
/// text (or the place just after a line's last character), and then the
/// position of that index, gives the position back.
pub proof fn byte_index_round_trip(b: Seq<u8>, line: nat, column: nat)
    requires
        line >= 1,
        column >= 1,
        line_start_of(b, 10u8, line) matches Some(ls) && column - 1 <= starts_between(
            b,
            ls,
            line_content_end(b, 10u8, ls),
        ),
    ensures
        byte_position(b, byte_index_of(b, line, column)) == (line, column),
{
    let ls = line_start_of(b, 10u8, line)->0;
    lemma_line_start(b, 10u8, 0, (line - 1) as nat);
    lemma_line_content_end_bound(b, 10u8, ls);
    lemma_byte_column_reached(b, ls, line_content_end(b, 10u8, ls), (column - 1) as nat);
    lemma_same_line(b, 10u8, ls, byte_column_index(b, ls, (column - 1) as nat));
}

/// The end of a line's characters lies between its start and the end of `s`.
proof fn lemma_line_content_end_bound<T>(s: Seq<T>, nl: T, i: int)
    requires
        0 <= i <= s.len(),
    ensures
        i <= line_content_end(s, nl, i) <= s.len(),
    decreases s.len() - i,
{
    if i < s.len() && s[i] != nl {
        lemma_line_content_end_bound(s, nl, i + 1);
    }
}

/// A later character index never has an earlier position.
pub proof fn char_position_monotonic(s: Seq<char>, i: int, j: int)
    requires
        0 <= i <= j <= s.len(),
    ensures
        position_le(char_position(s, i), char_position(s, j)),
    decreases j - i,
{
    if i < j {
        char_position_monotonic(s, i, j - 1);
        lemma_line_start_bounds(s, '\n', j - 1);
        lemma_line_start_bounds(s, '\n', j);
    }
}

/// A later byte index never has an earlier position.
pub proof fn byte_position_monotonic(b: Seq<u8>, i: int, j: int)
    requires
        0 <= i <= j <= b.len(),
    ensures
        position_le(byte_position(b, i), byte_position(b, j)),
    decreases j - i,
{
    if i < j {
        byte_position_monotonic(b, i, j - 1);
    }
}

/// Each slot of a batch lookup of byte indices holds what a single lookup of
/// that slot's index gives.
pub proof fn byte_batch_is_pointwise(b: Seq<u8>, indexs: Seq<usize>, k: int)
    requires
        0 <= k < indexs.len(),
        is_char_boundary(b, indexs[k] as int),
    ensures
        byte_positions(b, indexs)[k] == byte_position(b, indexs[k] as int),
{
}

/// Each slot of a batch lookup of character indices holds what a single
/// lookup of that slot's index gives.
pub proof fn char_batch_is_pointwise(s: Seq<char>, indexs: Seq<usize>, k: int)
    requires
        0 <= k < indexs.len(),
    ensures
        char_positions(s, indexs)[k] == char_position(s, indexs[k] as int),
{
}

/// A line past the last line has no start, so the character index lookup
/// clamps it to the number of characters.
pub proof fn char_index_past_last_line(s: Seq<char>, line: nat, column: nat)
    requires
        line > line_count(s, '\n'),
    ensures
        char_index_of(s, line, column) == s.len(),
{
    lemma_line_start(s, '\n', 0, (line - 1) as nat);
}

/// A line past the last line has no start, so the byte index lookup clamps
/// it to the number of bytes.
pub proof fn byte_index_past_last_line(b: Seq<u8>, line: nat, column: nat)
    requires
        line > line_count(b, 10u8),
    ensures
        byte_index_of(b, line, column) == b.len(),
{
    lemma_line_start(b, 10u8, 0, (line - 1) as nat);
}

} // verus!
