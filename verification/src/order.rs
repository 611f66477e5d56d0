//! Lexicographic order on lines, treated as plain byte sequences.

use vstd::prelude::*;

verus! {

/// `a` comes at or before `b` in lexicographic byte order: the empty sequence
/// comes first, and otherwise the first differing byte decides.
pub open spec fn line_le(a: Seq<u8>, b: Seq<u8>) -> bool
    decreases a.len(),
{
    if a.len() == 0 {
        true
    } else if b.len() == 0 {
        false
    } else if a[0] < b[0] {
        true
    } else if a[0] > b[0] {
        false
    } else {
        line_le(a.skip(1), b.skip(1))
    }
}

/// `a` comes strictly before `b`; with totality and antisymmetry this is the
/// complement of `line_le(b, a)`.
pub open spec fn line_lt(a: Seq<u8>, b: Seq<u8>) -> bool {
    !line_le(b, a)
}

pub proof fn lemma_line_le_refl(a: Seq<u8>)
    ensures
        line_le(a, a),
    decreases a.len(),
{
    if a.len() > 0 {
        lemma_line_le_refl(a.skip(1));
    }
}

pub proof fn lemma_line_le_total(a: Seq<u8>, b: Seq<u8>)
    ensures
        line_le(a, b) || line_le(b, a),
    decreases a.len(),
{
    if a.len() > 0 && b.len() > 0 && a[0] == b[0] {
        lemma_line_le_total(a.skip(1), b.skip(1));
    }
}

pub proof fn lemma_line_le_trans(a: Seq<u8>, b: Seq<u8>, c: Seq<u8>)
    requires
        line_le(a, b),
        line_le(b, c),
    ensures
        line_le(a, c),
    decreases a.len(),
{
    if a.len() > 0 && c.len() > 0 && a[0] == c[0] {
        lemma_line_le_trans(a.skip(1), b.skip(1), c.skip(1));
    }
}

pub proof fn lemma_line_le_antisym(a: Seq<u8>, b: Seq<u8>)
    requires
        line_le(a, b),
        line_le(b, a),
    ensures
        a == b,
    decreases a.len(),
{
    if a.len() == 0 {
        assert(a =~= b);
    } else {
        lemma_line_le_antisym(a.skip(1), b.skip(1));
        assert(a =~= b) by {
            assert(forall|i: int|
                1 <= i < a.len() ==> a[i] == a.skip(1)[i - 1] && b[i] == b.skip(1)[i - 1]);
        }
    }
}

/// Compares the suffixes of `a` and `b` that start at `i`.
fn bytes_lt_from(a: &Vec<u8>, b: &Vec<u8>, i: usize) -> (r: bool)
    requires
        i <= a@.len(),
        i <= b@.len(),
    ensures
        r == line_lt(a@.skip(i as int), b@.skip(i as int)),
    decreases a@.len() - i,
{
    if i == a.len() {
        i < b.len()
    } else if i == b.len() {
        false
    } else if a[i] < b[i] {
        true
    } else if a[i] > b[i] {
        false
    } else {
        let r = bytes_lt_from(a, b, i + 1);
        proof {
            assert(a@.skip(i as int).skip(1) =~= a@.skip(i + 1));
            assert(b@.skip(i as int).skip(1) =~= b@.skip(i + 1));
        }
        r
    }
}

/// Decides whether line `a` comes strictly before line `b`.
pub fn bytes_lt(a: &Vec<u8>, b: &Vec<u8>) -> (r: bool)
    ensures
        r == line_lt(a@, b@),
{
    let r = bytes_lt_from(a, b, 0);
    proof {
        assert(a@.skip(0) =~= a@);
        assert(b@.skip(0) =~= b@);
    }
    r
}

} // verus!
