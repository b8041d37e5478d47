use vstd::prelude::*;

verus! {

/// The elements of `s` whose mark in `m` equals `b`, in their order.
pub open spec fn select<T>(s: Seq<T>, m: Seq<bool>, b: bool) -> Seq<T>
    decreases s.len(),
{
    if s.len() == 0 {
        Seq::empty()
    } else {
        let r = select(s.drop_last(), m.take(s.len() - 1), b);
        if m[s.len() - 1] == b {
            r.push(s.last())
        } else {
            r
        }
    }
}

/// The selected elements come from `s`, in increasing positions, each marked
/// `b`; every element marked `b` is selected.
pub proof fn lemma_select<T>(s: Seq<T>, m: Seq<bool>, b: bool) -> (idx: Seq<int>)
    requires
        m.len() == s.len(),
    ensures
        idx.len() == select(s, m, b).len(),
        forall|k: int| 0 <= k < idx.len() ==> 0 <= #[trigger] idx[k] < s.len() && m[idx[k]] == b
            && select(s, m, b)[k] == s[idx[k]],
        forall|k1: int, k2: int| 0 <= k1 < k2 < idx.len() ==> #[trigger] idx[k1] < #[trigger] idx[k2],
        forall|j: int| 0 <= j < s.len() && m[j] == b ==> exists|k: int| 0 <= k < idx.len() && #[trigger] idx[k] == j,
    decreases s.len(),
{
    if s.len() == 0 {
        Seq::empty()
    } else {
        let n = s.len() - 1;
        let sub = lemma_select(s.drop_last(), m.take(n), b);
        if m[n] == b {
            let idx = sub.push(n);
            assert forall|j: int| 0 <= j < s.len() && m[j] == b implies exists|k: int| 0 <= k < idx.len() && #[trigger] idx[k] == j by {
                if j == n {
                    assert(idx[sub.len() as int] == j);
                } else {
                    assert(m.take(n)[j] == m[j]);
                    let k = choose|k: int| 0 <= k < sub.len() && #[trigger] sub[k] == j;
                    assert(idx[k] == j);
                }
            }
            idx
        } else {
            assert forall|j: int| 0 <= j < s.len() && m[j] == b implies exists|k: int| 0 <= k < sub.len() && #[trigger] sub[k] == j by {
                assert(m.take(n)[j] == m[j]);
            }
            sub
        }
    }
}

/// Moves the elements whose mark in `remove` is set out of `vec`, keeping
/// the order of the rest, and returns them in their order.
pub fn clear_by_cond<T: Copy>(vec: &mut Vec<T>, remove: &Vec<bool>) -> (removed: Vec<T>)
    requires
        remove@.len() == old(vec)@.len(),
    ensures
        final(vec)@ == select(old(vec)@, remove@, false),
        removed@ == select(old(vec)@, remove@, true),
{
    let ghost s = vec@;
    let mut kept: Vec<T> = Vec::new();
    let mut removed: Vec<T> = Vec::new();
    let mut i: usize = 0;
    while i < vec.len()
        invariant
            vec@ == s,
            remove@.len() == s.len(),
            i <= s.len(),
            kept@ == select(s.take(i as int), remove@.take(i as int), false),
            removed@ == select(s.take(i as int), remove@.take(i as int), true),
        decreases s.len() - i,
    {
        let x = vec[i];
        proof {
            assert(s.take(i + 1).drop_last() =~= s.take(i as int));
            assert(remove@.take(i + 1).take(i as int) =~= remove@.take(i as int));
        }
        if remove[i] {
            removed.push(x);
        } else {
            kept.push(x);
        }
        i = i + 1;
    }
    proof {
        assert(s.take(s.len() as int) =~= s);
        assert(remove@.take(s.len() as int) =~= remove@);
    }
    *vec = kept;
    removed
}

} // verus!
