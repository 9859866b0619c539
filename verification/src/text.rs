//! Byte strings as the file holds them: runs of non-zero bytes closed by a
//! zero byte.

use vstd::prelude::*;

verus! {

/// The byte that closes a key or a text value.
pub const NUL: u8 = 0;

/// No byte of `s` is the terminator, so `s` can stand as a key or a text
/// value.
pub open spec fn nul_free(s: Seq<u8>) -> bool {
    forall|i: int| 0 <= i < s.len() ==> s[i] != NUL
}

/// Index of the first terminator at or after `p`; the length of `b` where
/// there is none.
pub open spec fn text_end(b: Seq<u8>, p: int) -> int
    decreases b.len() - p,
{
    if p < 0 || p >= b.len() {
        b.len() as int
    } else if b[p] == NUL {
        p
    } else {
        text_end(b, p + 1)
    }
}

/// `text_end` stays inside the buffer, passes only non-zero bytes and stops
/// on a terminator unless the buffer ran out.
pub proof fn lemma_text_end(b: Seq<u8>, p: int)
    requires
        0 <= p <= b.len(),
    ensures
        p <= text_end(b, p) <= b.len(),
        nul_free(b.subrange(p, text_end(b, p))),
        text_end(b, p) < b.len() ==> b[text_end(b, p)] == NUL,
    decreases b.len() - p,
{
    if p < b.len() && b[p] != NUL {
        lemma_text_end(b, p + 1);
        let e = text_end(b, p);
        assert forall|i: int| 0 <= i < e - p implies b.subrange(p, e)[i] != NUL by {
            if i > 0 {
                assert(b.subrange(p + 1, e)[i - 1] == b[p + i]);
            }
        }
    }
}

/// The first terminator after a run of non-zero bytes is where `text_end`
/// stops.
pub proof fn lemma_text_end_is(b: Seq<u8>, p: int, q: int)
    requires
        0 <= p <= q < b.len(),
        b[q] == NUL,
        forall|i: int| p <= i < q ==> b[i] != NUL,
    ensures
        text_end(b, p) == q,
    decreases q - p,
{
    if p < q {
        lemma_text_end_is(b, p + 1, q);
    }
}

/// A text without a terminator, followed by one, ends where the terminator
/// stands.
pub proof fn lemma_text_end_of(b: Seq<u8>, p: int, t: Seq<u8>)
    requires
        0 <= p,
        p + t.len() < b.len(),
        b.subrange(p, p + t.len()) == t,
        nul_free(t),
        b[p + t.len()] == NUL,
    ensures
        text_end(b, p) == p + t.len(),
{
    assert forall|i: int| p <= i < p + t.len() implies b[i] != NUL by {
        assert(b.subrange(p, p + t.len())[i - p] == b[i]);
    }
    lemma_text_end_is(b, p, p + t.len());
}

/// A part of a window of a buffer is the same part of the bytes that the
/// window holds.
pub proof fn lemma_window_part(b: Seq<u8>, p: int, w: Seq<u8>, i: int, j: int)
    requires
        0 <= p,
        p + w.len() <= b.len(),
        b.subrange(p, p + w.len()) == w,
        0 <= i <= j <= w.len(),
    ensures
        b.subrange(p + i, p + j) == w.subrange(i, j),
{
    let x = b.subrange(p + i, p + j);
    let y = w.subrange(i, j);
    assert forall|n: int| 0 <= n < j - i implies #[trigger] x[n] == y[n] by {
        assert(b.subrange(p, p + w.len())[i + n] == b[p + i + n]);
    }
    assert(x =~= y);
}

/// Finds the terminator of the text that starts at `p`: its index, or the
/// length of the buffer where there is none.
pub fn find_nul(b: &[u8], p: usize) -> (q: usize)
    ensures
        q == text_end(b@, p as int),
{
    if p >= b.len() {
        return b.len();
    }
    let mut q: usize = p;
    while q < b.len() && b[q] != NUL
        invariant
            p <= q <= b@.len(),
            text_end(b@, p as int) == text_end(b@, q as int),
        decreases b@.len() - q,
    {
        q += 1;
    }
    q
}

/// Whether two byte strings hold the same bytes.
pub fn bytes_eq(a: &[u8], b: &[u8]) -> (same: bool)
    ensures
        same == (a@ == b@),
{
    if a.len() != b.len() {
        return false;
    }
    let mut i: usize = 0;
    while i < a.len()
        invariant
            a@.len() == b@.len(),
            i <= a@.len(),
            forall|j: int| 0 <= j < i ==> a@[j] == b@[j],
        decreases a@.len() - i,
    {
        if a[i] != b[i] {
            return false;
        }
        i += 1;
    }
    assert(a@ =~= b@);
    true
}

/// A copy of the bytes of `b` from `from` up to `to`.
pub(crate) fn copy_range(b: &[u8], from: usize, to: usize) -> (out: Vec<u8>)
    requires
        from <= to <= b@.len(),
    ensures
        out@ == b@.subrange(from as int, to as int),
{
    vstd::slice::slice_to_vec(vstd::slice::slice_subrange(b, from, to))
}

} // verus!
