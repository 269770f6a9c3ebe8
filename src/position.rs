//! Index to position lookups and position to index lookups.
use vstd::prelude::*;
use vstd::string::StringSliceAdditionalSpecFns;
use vstd::utf8::{is_char_boundary, is_continuation_byte};

use crate::model::{
    byte_column_index, byte_index_of, byte_position, byte_positions, char_column_index,
    char_index_of, char_position, char_positions, lemma_char_boundary, lemma_encoded_len,
    lemma_line_start_bounds, line_count, line_start, line_start_of, pos,
};
use crate::theorems::{byte_index_past_last_line, char_index_past_last_line};

verus! {

/// Whether `byte` begins a character, that is, is no UTF-8 continuation byte.
fn starts_char(byte: u8) -> (r: bool)
    ensures
        r == !is_continuation_byte(byte),
{
    !(0x80u8 <= byte && byte <= 0xbfu8)
}

/// Positions of several byte indices of `s`, computed in one pass.
///
/// Every index must be a character boundary of `s` (which includes being at
/// most `s.len()`); `s.len()` itself gives the position just after the last
/// character.
pub fn line_columns<const N: usize>(s: &str, indexs: [usize; N]) -> (r: [(u32, u32); N])
    requires
        s.spec_bytes().len() < u32::MAX,
        forall|k: int| 0 <= k < N ==> is_char_boundary(s.spec_bytes(), #[trigger] indexs[k] as int),
    ensures
        forall|k: int| 0 <= k < N ==> pos(#[trigger] r[k]) == byte_positions(s.spec_bytes(), indexs@)[k],
{
    line_columns_unchecked(s, indexs)
}

/// Positions of several byte indices of `s`, computed in one pass, without
/// checking the indices first.
///
/// Each index that is a character boundary of `s` gets its position; any
/// other index (inside a character, or past the end) gets `(0, 0)`.
pub fn line_columns_unchecked<const N: usize>(s: &str, indexs: [usize; N]) -> (r: [(u32, u32); N])
    requires
        s.spec_bytes().len() < u32::MAX,
    ensures
        forall|k: int| 0 <= k < N ==> pos(#[trigger] r[k]) == byte_positions(s.spec_bytes(), indexs@)[k],
{
    let bytes = s.as_bytes();
    let len = bytes.len();
    let ghost b = s.spec_bytes();
    let mut result: [(u32, u32); N] = [(0u32, 0u32); N];
    let mut line: u32 = 1;
    let mut column: u32 = 1;
    let mut cur: usize = 0;
    while cur < len
        invariant
            bytes@ == b,
            len == b.len(),
            b.len() < u32::MAX,
            cur <= len,
            pos((line, column)) == byte_position(b, cur as int),
            line <= cur + 1,
            column <= cur + 1,
            forall|k: int|
                0 <= k < N ==> pos(#[trigger] result[k]) == if indexs[k] < cur && !is_continuation_byte(
                    b[indexs[k] as int],
                ) {
                    byte_position(b, indexs[k] as int)
                } else {
                    (0nat, 0nat)
                },
        decreases len - cur,
    {
        let byte = bytes[cur];
        let starts = starts_char(byte);
        let mut n: usize = 0;
        while n < N
            invariant
                0 <= n <= N,
                cur < len,
                bytes@ == b,
                byte == b[cur as int],
                starts == !is_continuation_byte(byte),
                pos((line, column)) == byte_position(b, cur as int),
                forall|k: int|
                    0 <= k < N ==> pos(#[trigger] result[k]) == if (indexs[k] < cur
                        || (k < n && indexs[k] == cur)) && !is_continuation_byte(
                        b[indexs[k] as int],
                    ) {
                        byte_position(b, indexs[k] as int)
                    } else {
                        (0nat, 0nat)
                    },
            decreases N - n,
        {
            if starts && indexs[n] == cur {
                result[n] = (line, column);
            }
            n += 1;
        }
        proof {
            lemma_line_start_bounds(b, 10u8, cur as int);
        }
        if byte == 10u8 {
            line += 1;
            column = 1;
        } else if starts {
            column += 1;
        }
        cur += 1;
    }
    let mut n: usize = 0;
    while n < N
        invariant
            0 <= n <= N,
            cur == len,
            len == b.len(),
            b == s.spec_bytes(),
            pos((line, column)) == byte_position(b, cur as int),
            forall|k: int|
                0 <= k < N ==> pos(#[trigger] result[k]) == if (indexs[k] < cur && !is_continuation_byte(
                    b[indexs[k] as int],
                )) || (k < n && indexs[k] == cur) {
                    byte_position(b, indexs[k] as int)
                } else {
                    (0nat, 0nat)
                },
        decreases N - n,
    {
        if indexs[n] == cur {
            result[n] = (line, column);
        }
        n += 1;
    }
    assert forall|k: int| 0 <= k < N implies pos(#[trigger] result[k]) == if is_char_boundary(
        b,
        indexs[k] as int,
    ) {
        byte_position(b, indexs[k] as int)
    } else {
        (0nat, 0nat)
    } by {
        lemma_char_boundary(s@, indexs[k] as int);
    }
    result
}

/// The position of byte index `index` of `s`.
pub fn line_column(s: &str, index: usize) -> (r: (u32, u32))
    requires
        s.spec_bytes().len() < u32::MAX,
        is_char_boundary(s.spec_bytes(), index as int),
    ensures
        pos(r) == byte_position(s.spec_bytes(), index as int),
{
    let r = line_columns(s, [index]);
    r[0]
}

/// Positions of several character indices of `s`, computed in one pass.
///
/// Each index must be at most the number of characters of `s`; the index
/// equal to that number gives the position just after the last character.
pub fn char_line_columns<const N: usize>(s: &str, indexs: [usize; N]) -> (r: [(u32, u32); N])
    requires
        s@.len() < u32::MAX,
        forall|k: int| 0 <= k < N ==> indexs[k] <= s@.len(),
    ensures
        forall|k: int| 0 <= k < N ==> pos(#[trigger] r[k]) == char_positions(s@, indexs@)[k],
{
    let mut result: [(u32, u32); N] = [(0u32, 0u32); N];
    let mut line: u32 = 1;
    let mut column: u32 = 1;
    let mut cur: usize = 0;
    for ch in it: s.chars()
        invariant
            cur == it.index(),
            it.seq() == s@,
            s@.len() < u32::MAX,
            pos((line, column)) == char_position(s@, cur as int),
            line <= cur + 1,
            column <= cur + 1,
            forall|k: int|
                0 <= k < N ==> (indexs[k] < cur ==> pos(#[trigger] result[k]) == char_position(
                    s@,
                    indexs[k] as int,
                )),
    {
        let mut n: usize = 0;
        while n < N
            invariant
                0 <= n <= N,
                pos((line, column)) == char_position(s@, cur as int),
                forall|k: int|
                    0 <= k < N ==> ((indexs[k] < cur || (k < n && indexs[k] == cur)) ==> pos(
                        #[trigger] result[k],
                    ) == char_position(s@, indexs[k] as int)),
            decreases N - n,
        {
            if indexs[n] == cur {
                result[n] = (line, column);
            }
            n += 1;
        }
        proof {
            lemma_line_start_bounds(s@, '\n', cur as int);
        }
        if ch == '\n' {
            line += 1;
            column = 1;
        } else {
            column += 1;
        }
        cur += 1;
    }
    let mut n: usize = 0;
    while n < N
        invariant
            0 <= n <= N,
            cur == s@.len(),
            pos((line, column)) == char_position(s@, cur as int),
            forall|k: int|
                0 <= k < N ==> ((indexs[k] < cur || (k < n && indexs[k] == cur)) ==> pos(
                    #[trigger] result[k],
                ) == char_position(s@, indexs[k] as int)),
        decreases N - n,
    {
        if indexs[n] == cur {
            result[n] = (line, column);
        }
        n += 1;
    }
    result
}

/// The position of character index `index` of `s`.
pub fn char_line_column(s: &str, index: usize) -> (r: (u32, u32))
    requires
        s@.len() < u32::MAX,
        index <= s@.len(),
    ensures
        pos(r) == char_position(s@, index as int),
{
    char_line_columns(s, [index])[0]
}

/// The byte index of the one-based `(line, column)` of `s`.
///
/// A line past the last one gives `s.len()`; a column past the end of its
/// line gives the index of the line's `'\n'`, or `s.len()` on the last line.
/// Column 0 gives the index just before the line's start (0 on line 1).
pub fn index(s: &str, line: u32, column: u32) -> (r: usize)
    requires
        line >= 1,
    ensures
        r == byte_index_of(s.spec_bytes(), line as nat, column as nat),
        line > line_count(s.spec_bytes(), 10u8) ==> r == s.spec_bytes().len(),
{
    proof {
        if line > line_count(s.spec_bytes(), 10u8) {
            byte_index_past_last_line(s.spec_bytes(), line as nat, column as nat);
        }
    }
    let bytes = s.as_bytes();
    let len = bytes.len();
    let ghost b = s.spec_bytes();
    if line == 1 && column == 0 {
        return 0;
    }
    let mut k: u32 = line - 1;
    let mut cur: usize = 0;
    while k > 0 && cur < len
        invariant
            bytes@ == b,
            b == s.spec_bytes(),
            len == b.len(),
            cur <= len,
            line >= 1,
            line_start_of(b, 10u8, line as nat) == line_start(b, 10u8, cur as int, k as nat),
            line > line_count(b, 10u8) ==> byte_index_of(b, line as nat, column as nat) == len,
            line == 1 ==> column > 0,
            k == 0 ==> column > 0,
        decreases len - cur,
    {
        if bytes[cur] == 10u8 {
            assert(line_start(b, 10u8, cur as int, k as nat) == line_start(
                b,
                10u8,
                cur + 1,
                (k - 1) as nat,
            ));
            k -= 1;
            if k == 0 && column == 0 {
                return cur;
            }
        }
        cur += 1;
    }
    if k > 0 {
        return len;
    }
    let ghost ls = cur as int;
    let mut n: u32 = column - 1;
    while cur < len && (!starts_char(bytes[cur]) || (n > 0 && bytes[cur] != 10u8))
        invariant
            bytes@ == b,
            len == b.len(),
            cur <= len,
            byte_column_index(b, ls, (column - 1) as nat) == byte_column_index(b, cur as int, n as nat),
        decreases len - cur,
    {
        if starts_char(bytes[cur]) {
            n -= 1;
        }
        cur += 1;
    }
    cur
}

/// The character index of the one-based `(line, column)` of `s`.
///
/// A line past the last one gives the number of characters; a column past
/// the end of its line gives the index of the line's `'\n'`, or the number
/// of characters on the last line. Column 0 gives the index just before the
/// line's start (0 on line 1).
pub fn char_index(s: &str, line: u32, column: u32) -> (r: usize)
    requires
        line >= 1,
    ensures
        r == char_index_of(s@, line as nat, column as nat),
        line > line_count(s@, '\n') ==> r == s@.len(),
{
    proof {
        if line > line_count(s@, '\n') {
            char_index_past_last_line(s@, line as nat, column as nat);
        }
    }
    let byte_len = s.as_bytes().len();
    proof {
        lemma_encoded_len(s@);
    }
    if line == 1 && column == 0 {
        return 0;
    }
    let mut k: u32 = line - 1;
    let mut n: u32 = if column > 0 { column - 1 } else { 0 };
    let ghost mut ls: int = 0;
    let mut cur: usize = 0;
    for ch in it: s.chars()
        invariant
            cur == it.index(),
            it.seq() == s@,
            s@.len() <= byte_len,
            line > line_count(s@, '\n') ==> char_index_of(s@, line as nat, column as nat) == s@.len(),
            line >= 1,
            line == 1 ==> column > 0,
            k > 0 ==> line_start_of(s@, '\n', line as nat) == line_start(s@, '\n', cur as int, k as nat),
            k == 0 ==> column > 0 && line_start_of(s@, '\n', line as nat) == Some(ls)
                && char_column_index(s@, ls, (column - 1) as nat) == char_column_index(s@, cur as int, n as nat),
            column > 0 ==> n == column - 1 || k == 0,
    {
        if k > 0 {
            if ch == '\n' {
                assert(line_start(s@, '\n', cur as int, k as nat) == line_start(
                    s@,
                    '\n',
                    cur + 1,
                    (k - 1) as nat,
                ));
                k -= 1;
                if k == 0 {
                    if column == 0 {
                        return cur;
                    }
                    proof {
                        ls = cur + 1;
                    }
                }
            }
        } else if n == 0 || ch == '\n' {
            return cur;
        } else {
            n -= 1;
        }
        cur += 1;
    }
    cur
}

} // verus!
