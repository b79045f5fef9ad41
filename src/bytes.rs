//! Raw byte fields: fixed-size arrays read from and written to a buffer.
use vstd::prelude::*;

verus! {

/// Where `a + b` stands at offset `p` of `s`, `a` stands at `p` and `b` right after it.
pub proof fn lemma_split_at(s: Seq<u8>, p: int, a: Seq<u8>, b: Seq<u8>)
    requires
        0 <= p,
        p + a.len() + b.len() <= s.len(),
        s.subrange(p, p + a.len() + b.len()) == a + b,
    ensures
        s.subrange(p, p + a.len()) == a,
        s.subrange(p + a.len(), p + a.len() + b.len()) == b,
{
    let whole = s.subrange(p, p + a.len() + b.len());
    assert forall|k: int| 0 <= k < a.len() implies s.subrange(p, p + a.len())[k] == a[k] by {
        assert(whole[k] == (a + b)[k]);
    }
    assert forall|k: int| 0 <= k < b.len() implies s.subrange(p + a.len(), p + a.len() + b.len())[k] == b[k] by {
        assert(whole[a.len() + k] == (a + b)[a.len() + k]);
    }
    assert(s.subrange(p, p + a.len()) =~= a);
    assert(s.subrange(p + a.len(), p + a.len() + b.len()) =~= b);
}

/// The `N` bytes of `s` that start at `p`, as an array.
pub(crate) fn read_array<const N: usize>(s: &[u8], p: usize) -> (a: [u8; N])
    requires
        p + N <= s@.len(),
    ensures
        a@ == s@.subrange(p as int, p + N),
{
    let mut a: [u8; N] = [0u8; N];
    let mut j: usize = 0;
    while j < N
        invariant
            j <= N,
            p + N <= s.len(),
            a@.len() == N,
            forall|k: int| 0 <= k < j ==> a@[k] == s@[p + k],
        decreases N - j,
    {
        a[j] = s[p + j];
        j = j + 1;
    }
    assert(a@ =~= s@.subrange(p as int, p + N));
    a
}

/// A copy of the bytes of `s` from `a` up to `b`.
pub(crate) fn copy_range(s: &[u8], a: usize, b: usize) -> (r: Vec<u8>)
    requires
        a <= b <= s@.len(),
    ensures
        r@ == s@.subrange(a as int, b as int),
{
    let mut r: Vec<u8> = Vec::new();
    let mut j: usize = a;
    while j < b
        invariant
            a <= j <= b <= s.len(),
            r@ == s@.subrange(a as int, j as int),
        decreases b - j,
    {
        r.push(s[j]);
        assert(s@.subrange(a as int, j + 1) =~= s@.subrange(a as int, j as int).push(s@[j as int]));
        j = j + 1;
    }
    r
}

/// Appends the bytes of `b` to `out`.
pub(crate) fn push_bytes(out: &mut Vec<u8>, b: &[u8])
    ensures
        final(out)@ == old(out)@ + b@,
{
    let mut j: usize = 0;
    while j < b.len()
        invariant
            j <= b@.len(),
            out@ == old(out)@ + b@.subrange(0, j as int),
        decreases b@.len() - j,
    {
        out.push(b[j]);
        assert(b@.subrange(0, j + 1) =~= b@.subrange(0, j as int).push(b@[j as int]));
        j = j + 1;
    }
    assert(b@.subrange(0, b@.len() as int) =~= b@);
}

} // verus!
