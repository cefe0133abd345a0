//! Operations on literal sequences: sorting, removing repeats, and counting
//! distinct values.
use vstd::prelude::*;

verus! {

pub open spec fn sorted(s: Seq<u32>) -> bool {
    forall|i: int, j: int| 0 <= i <= j < s.len() ==> s[i] <= s[j]
}

pub open spec fn strictly_sorted(s: Seq<u32>) -> bool {
    forall|i: int, j: int| 0 <= i < j < s.len() ==> s[i] < s[j]
}

/// Sorts `v` ascending (insertion sort by adjacent swaps).
pub fn sort_u32(v: &mut Vec<u32>)
    ensures
        sorted(final(v)@),
        final(v)@.to_multiset() == old(v)@.to_multiset(),
        final(v)@.len() == old(v)@.len(),
{
    let n = v.len();
    let mut i: usize = 1;
    while i < n
        invariant
            n == v@.len(),
            1 <= i,
            forall|a: int, b: int| 0 <= a <= b < i && b < n ==> v@[a] <= v@[b],
            v@.to_multiset() == old(v)@.to_multiset(),
        decreases n - i,
    {
        let mut j = i;
        while j > 0 && v[j - 1] > v[j]
            invariant
                0 <= j <= i < n,
                n == v@.len(),
                forall|a: int, b: int| 0 <= a <= b <= i && b != j ==> v@[a] <= v@[b],
                forall|a: int, b: int| 0 <= a < j && j < b <= i ==> v@[a] <= v@[b],
                v@.to_multiset() == old(v)@.to_multiset(),
            decreases j,
        {
            let a = v[j - 1];
            let b = v[j];
            proof {
                lemma_swap_multiset(v@, j - 1, j as int);
            }
            v.set(j - 1, b);
            v.set(j, a);
            j = j - 1;
        }
        i = i + 1;
    }
}

/// Exchanging two entries keeps the multiset of a sequence.
pub proof fn lemma_swap_multiset<A>(s: Seq<A>, i: int, j: int)
    requires
        0 <= i < s.len(),
        0 <= j < s.len(),
    ensures
        s.update(i, s[j]).update(j, s[i]).to_multiset() == s.to_multiset(),
{
    broadcast use vstd::multiset::group_multiset_axioms;
    let t = s.update(i, s[j]);
    vstd::seq_lib::to_multiset_update(s, i, s[j]);
    vstd::seq_lib::to_multiset_update(t, j, s[i]);
    vstd::seq_lib::to_multiset_contains(s, s[i]);
    vstd::seq_lib::to_multiset_contains(s, s[j]);
    assert(s.contains(s[i]));
    assert(s.contains(s[j]));
    if i == j {
        assert(s.update(i, s[j]).update(j, s[i]) =~= s);
    } else {
        assert(t[j] == s[j]);
        assert(t.update(j, s[i]).to_multiset() =~= s.to_multiset());
    }
}

/// Sequences with the same multiset hold the same elements.
pub proof fn lemma_multiset_same_set<A>(s1: Seq<A>, s2: Seq<A>)
    requires
        s1.to_multiset() == s2.to_multiset(),
    ensures
        s1.to_set() == s2.to_set(),
{
    assert forall|a: A| s1.to_set().contains(a) <==> s2.to_set().contains(a) by {
        vstd::seq_lib::to_multiset_contains(s1, a);
        vstd::seq_lib::to_multiset_contains(s2, a);
    }
    assert(s1.to_set() =~= s2.to_set());
}

/// Removes repeated entries from a sorted vector, leaving each value once.
pub fn dedup_sorted(v: &mut Vec<u32>)
    requires
        sorted(old(v)@),
    ensures
        strictly_sorted(final(v)@),
        final(v)@.to_set() == old(v)@.to_set(),
        final(v)@.len() <= old(v)@.len(),
{
    let mut out: Vec<u32> = Vec::new();
    let n = v.len();
    let mut i: usize = 0;
    while i < n
        invariant
            n == v@.len(),
            i <= n,
            sorted(v@),
            strictly_sorted(out@),
            out@.len() <= i,
            out@.to_set() == v@.subrange(0, i as int).to_set(),
            out@.len() > 0 ==> i > 0 && out@.last() == v@[i - 1],
        decreases n - i,
    {
        let x = v[i];
        proof {
            assert(v@.subrange(0, i + 1) =~= v@.subrange(0, i as int).push(x));
            v@.subrange(0, i as int).lemma_push_to_set_commute(x);
        }
        if out.len() == 0 || out[out.len() - 1] != x {
            proof {
                out@.lemma_push_to_set_commute(x);
            }
            out.push(x);
        } else {
            proof {
                assert(out@.to_set().contains(x)) by {
                    assert(out@[out@.len() - 1] == x);
                }
                assert(out@.to_set().insert(x) =~= out@.to_set());
            }
        }
        i = i + 1;
    }
    proof {
        assert(v@.subrange(0, n as int) =~= v@);
    }
    *v = out;
}

/// The number of distinct values in `v`.
pub fn count_distinct(v: &Vec<u32>) -> (r: usize)
    ensures
        r == v@.to_set().len(),
        r <= v@.len(),
{
    let mut w = v.clone();
    sort_u32(&mut w);
    proof {
        lemma_multiset_same_set(w@, v@);
    }
    dedup_sorted(&mut w);
    proof {
        assert(w@.no_duplicates()) by {
            assert forall|i: int, j: int| 0 <= i < w@.len() && 0 <= j < w@.len() && i != j implies w@[i]
                != w@[j] by {
                if i < j {
                    assert(w@[i] < w@[j]);
                } else {
                    assert(w@[j] < w@[i]);
                }
            }
        }
        w@.unique_seq_to_set();
    }
    w.len()
}

} // verus!
