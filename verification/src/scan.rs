use vstd::prelude::*;

verus! {

/// The index of the first `b` in `s`, or the length of `s` if it holds none.
pub open spec fn offset_of<T>(s: Seq<T>, b: T) -> nat
    decreases s.len(),
{
    if s.len() == 0 || s[0] == b {
        0
    } else {
        1 + offset_of(s.drop_first(), b)
    }
}

/// The smaller of two numbers.
pub open spec fn least(a: nat, b: nat) -> nat {
    if a <= b {
        a
    } else {
        b
    }
}

/// `offset_of` lies within `s`, nothing before it is `b`, and what stands
/// at it, if anything, is `b`.
pub proof fn lemma_offset_of<T>(s: Seq<T>, b: T)
    ensures
        offset_of(s, b) <= s.len(),
        forall|i: int| 0 <= i < offset_of(s, b) ==> s[i] != b,
        offset_of(s, b) < s.len() ==> s[offset_of(s, b) as int] == b,
    decreases s.len(),
{
    if s.len() == 0 || s[0] == b {
    } else {
        let t = s.drop_first();
        lemma_offset_of(t, b);
        assert forall|i: int| 0 <= i < offset_of(s, b) implies s[i] != b by {
            if i > 0 {
                assert(s[i] == t[i - 1]);
            }
        }
    }
}

/// An index with no `b` before it, which is the end of `s` or holds `b`, is
/// `offset_of`.
pub proof fn lemma_offset_of_is<T>(s: Seq<T>, b: T, k: nat)
    requires
        k <= s.len(),
        forall|i: int| 0 <= i < k ==> s[i] != b,
        k == s.len() || s[k as int] == b,
    ensures
        offset_of(s, b) == k,
{
    lemma_offset_of(s, b);
}

/// With no `b` among the first `k` bytes, `offset_of` is at least `k`.
pub proof fn lemma_offset_of_at_least<T>(s: Seq<T>, b: T, k: nat)
    requires
        k <= s.len(),
        forall|i: int| 0 <= i < k ==> s[i] != b,
    ensures
        offset_of(s, b) >= k,
{
    lemma_offset_of(s, b);
}

/// Dropping bytes that stand before the first `b` moves `offset_of` by
/// as many.
pub proof fn lemma_offset_of_skip<T>(s: Seq<T>, b: T, k: nat)
    requires
        k <= offset_of(s, b),
    ensures
        k <= s.len(),
        offset_of(s.skip(k as int), b) == offset_of(s, b) - k,
{
    lemma_offset_of(s, b);
    lemma_offset_of_is(s.skip(k as int), b, (offset_of(s, b) - k) as nat);
}

} // verus!
