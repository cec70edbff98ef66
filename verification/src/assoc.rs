//! Association lists keyed by character sequences, with the semantics of
//! a hash map that is only ever inserted into: the latest entry for a key wins.
use vstd::prelude::*;

verus! {

pub open spec fn assoc_get<V>(t: Seq<(Seq<char>, V)>, k: Seq<char>) -> Option<V>
    decreases t.len(),
{
    if t.len() == 0 {
        None
    } else if t.last().0 == k {
        Some(t.last().1)
    } else {
        assoc_get(t.drop_last(), k)
    }
}

pub open spec fn pairs_view<V>(v: Seq<(Vec<char>, V)>) -> Seq<(Seq<char>, V)> {
    v.map_values(|p: (Vec<char>, V)| (p.0@, p.1))
}

pub fn assoc_lookup<V: Copy>(t: &Vec<(Vec<char>, V)>, k: &[char]) -> (r: Option<V>)
    ensures
        r == assoc_get(pairs_view(t@), k@),
{
    let mut i = t.len();
    proof {
        assert(t@.take(i as int) =~= t@);
    }
    while i > 0
        invariant
            i <= t@.len(),
            assoc_get(pairs_view(t@.take(i as int)), k@) == assoc_get(pairs_view(t@), k@),
        decreases i,
    {
        let ghost pv = pairs_view(t@.take(i as int));
        proof {
            assert(pairs_view(t@.take(i - 1)) =~= pv.drop_last());
            assert(pv.last() == (t@[i - 1].0@, t@[i - 1].1));
        }
        if crate::text::eq_chars(t[i - 1].0.as_slice(), k) {
            return Some(t[i - 1].1);
        }
        i = i - 1;
    }
    proof {
        assert(t@.take(i as int) =~= Seq::<(Vec<char>, V)>::empty());
        assert(pairs_view(t@.take(i as int)) =~= Seq::<(Seq<char>, V)>::empty());
    }
    None
}

/// A lookup after adding an entry finds that entry's value for its key,
/// and what it found before for every other key.
pub proof fn lemma_assoc_get_push<V>(t: Seq<(Seq<char>, V)>, k: Seq<char>, v: V, q: Seq<char>)
    ensures
        assoc_get(t.push((k, v)), q) == (if q == k {
            Some(v)
        } else {
            assoc_get(t, q)
        }),
{
    assert(t.push((k, v)).drop_last() =~= t);
}

} // verus!
