//! Splitting a byte stream into lines.
//!
//! A line runs up to and including a `\n` terminator; the terminator is
//! stripped from the line's content.  A final line without a terminator still
//! counts as a line, and empty input holds no lines at all.

use vstd::prelude::*;

verus! {

/// Number of bytes before the first `\n` of `bytes` (all of them if none).
pub open spec fn first_line_len(bytes: Seq<u8>) -> int
    decreases bytes.len(),
{
    if bytes.len() == 0 {
        0
    } else if bytes[0] == 10 {
        0
    } else {
        1 + first_line_len(bytes.skip(1))
    }
}

pub proof fn lemma_first_line_len_bounds(bytes: Seq<u8>)
    ensures
        0 <= first_line_len(bytes) <= bytes.len(),
    decreases bytes.len(),
{
    if bytes.len() > 0 && bytes[0] != 10 {
        lemma_first_line_len_bounds(bytes.skip(1));
    }
}

/// The first line of `bytes`, terminator stripped.
pub open spec fn first_line(bytes: Seq<u8>) -> Seq<u8> {
    bytes.take(first_line_len(bytes))
}

/// How many bytes reading the first line consumes: its content plus the
/// terminator, when one is present.
pub open spec fn line_consumed(bytes: Seq<u8>) -> int {
    if first_line_len(bytes) < bytes.len() {
        first_line_len(bytes) + 1
    } else {
        first_line_len(bytes)
    }
}

/// What remains of `bytes` once the first line has been read.
pub open spec fn rest_after_line(bytes: Seq<u8>) -> Seq<u8> {
    bytes.skip(line_consumed(bytes))
}

/// All lines of `bytes`, in stream order.
pub open spec fn lines_of(bytes: Seq<u8>) -> Seq<Seq<u8>>
    decreases bytes.len(),
{
    if bytes.len() == 0 {
        Seq::empty()
    } else {
        proof {
            lemma_first_line_len_bounds(bytes);
        }
        seq![first_line(bytes)] + lines_of(rest_after_line(bytes))
    }
}

/// `first_line_len` is the position of the first `\n`, characterised without
/// recursion: no `\n` before `m`, and a `\n` (or the end) at `m`.
pub proof fn lemma_first_line_len_at(bytes: Seq<u8>, m: int)
    requires
        0 <= m <= bytes.len(),
        forall|k: int| 0 <= k < m ==> bytes[k] != 10,
        m < bytes.len() ==> bytes[m] == 10,
    ensures
        first_line_len(bytes) == m,
    decreases m,
{
    if m == 0 {
    } else {
        assert(bytes[0] != 10);
        lemma_first_line_len_at(bytes.skip(1), m - 1);
    }
}

/// Reads one line of `data` starting at byte `start`: returns its content and
/// the position just past its terminator.
pub fn take_line(data: &Vec<u8>, start: usize) -> (r: (Vec<u8>, usize))
    requires
        start < data@.len(),
    ensures
        r.0@ == first_line(data@.skip(start as int)),
        r.1 == start + line_consumed(data@.skip(start as int)),
        start < r.1 <= data@.len(),
{
    let ghost tail = data@.skip(start as int);
    let mut j = start;
    let mut line: Vec<u8> = Vec::new();
    while j < data.len() && data[j] != 10u8
        invariant
            start <= j <= data@.len(),
            tail == data@.skip(start as int),
            line@ == data@.subrange(start as int, j as int),
            forall|k: int| start <= k < j ==> data@[k] != 10,
        decreases data@.len() - j,
    {
        let b = data[j];
        line.push(b);
        proof {
            assert(line@ =~= data@.subrange(start as int, j + 1));
        }
        j = j + 1;
    }
    proof {
        let m = j - start;
        assert(forall|k: int| 0 <= k < m ==> tail[k] == data@[start + k] && tail[k] != 10);
        assert(m < tail.len() ==> tail[m] == 10);
        lemma_first_line_len_at(tail, m);
        assert(line@ =~= tail.take(m));
    }
    if j < data.len() {
        (line, j + 1)
    } else {
        (line, j)
    }
}

} // verus!
