//! The register file's names and numeric ids.
use vstd::prelude::*;
use crate::assoc::{assoc_get, pairs_view, assoc_lookup};
use crate::fmt::{dec, dec_chars};

verus! {

pub open spec fn named_regs() -> Seq<Seq<char>> {
    seq![
        seq!['R', 'A', 'X'],
        seq!['R', 'B', 'X'],
        seq!['R', 'C', 'X'],
        seq!['R', 'D', 'X'],
        seq!['R', 'S', 'I'],
        seq!['R', 'D', 'I'],
        seq!['R', 'B', 'P'],
        seq!['R', 'S', 'P'],
        seq!['R', 'I', 'P'],
    ]
}

pub open spec fn flag_regs() -> Seq<Seq<char>> {
    seq![seq!['Z', 'F'], seq!['S', 'F'], seq!['O', 'F']]
}

/// The register table in the order it is built: `RAX`..`RIP` are 1..9,
/// `R0`..`R15` are 32..47, `ZF`, `SF`, `OF` are 100..102 and
/// `FPR0`..`FPR15` are 200..215.
pub open spec fn reg_table() -> Seq<(Seq<char>, u16)> {
    Seq::new(9, |i: int| (named_regs()[i], (i + 1) as u16)) + Seq::new(
        16,
        |i: int| (seq!['R'] + dec(i as nat), (32 + i) as u16),
    ) + Seq::new(3, |i: int| (flag_regs()[i], (100 + i) as u16)) + Seq::new(
        16,
        |i: int| (seq!['F', 'P', 'R'] + dec(i as nat), (200 + i) as u16),
    )
}

/// Register id of a (case-sensitive) register name.
pub open spec fn spec_reg_id(name: Seq<char>) -> Option<u16> {
    assoc_get(reg_table(), name)
}

pub open spec fn id_get(t: Seq<(Seq<char>, u16)>, id: u16) -> Option<Seq<char>>
    decreases t.len(),
{
    if t.len() == 0 {
        None
    } else if t.last().1 == id {
        Some(t.last().0)
    } else {
        id_get(t.drop_last(), id)
    }
}

/// Register name of an id.
pub open spec fn spec_reg_name(id: u16) -> Option<Seq<char>> {
    id_get(reg_table(), id)
}

pub struct RegisterMap;

impl RegisterMap {
    /// The table of `(name, id)` pairs, in the order in which it is built.
    pub fn build_name_to_id() -> (r: Vec<(Vec<char>, u16)>)
        ensures
            pairs_view(r@) == reg_table(),
    {
        let mut m: Vec<(Vec<char>, u16)> = Vec::new();
        m.push((vec!['R', 'A', 'X'], 1));
        m.push((vec!['R', 'B', 'X'], 2));
        m.push((vec!['R', 'C', 'X'], 3));
        m.push((vec!['R', 'D', 'X'], 4));
        m.push((vec!['R', 'S', 'I'], 5));
        m.push((vec!['R', 'D', 'I'], 6));
        m.push((vec!['R', 'B', 'P'], 7));
        m.push((vec!['R', 'S', 'P'], 8));
        m.push((vec!['R', 'I', 'P'], 9));
        proof {
            assert(pairs_view(m@) =~= reg_table().take(9));
        }
        let mut i: u16 = 0;
        while i < 16
            invariant
                i <= 16,
                pairs_view(m@) =~= reg_table().take(9 + i),
            decreases 16 - i,
        {
            let mut name = vec!['R'];
            let d = dec_chars(i as u64);
            crate::fmt::append_chars(&mut name, d.as_slice());
            let ghost before = pairs_view(m@);
            m.push((name, 32 + i));
            proof {
                assert(pairs_view(m@) =~= before.push((name@, (32 + i) as u16)));
                assert(reg_table()[9 + i] == (seq!['R'] + dec(i as nat), (32 + i) as u16));
                assert(reg_table().take(9 + i + 1) =~= reg_table().take(9 + i).push(reg_table()[9 + i]));
                assert(name@ == seq!['R'] + dec(i as nat));
                assert(pairs_view(m@) =~= reg_table().take(9 + i + 1));
            }
            i = i + 1;
        }
        let ghost before = pairs_view(m@);
        m.push((vec!['Z', 'F'], 100));
        m.push((vec!['S', 'F'], 101));
        m.push((vec!['O', 'F'], 102));
        proof {
            assert(pairs_view(m@) =~= reg_table().take(28));
        }
        let mut i: u16 = 0;
        while i < 16
            invariant
                i <= 16,
                pairs_view(m@) =~= reg_table().take(28 + i),
            decreases 16 - i,
        {
            let mut name = vec!['F', 'P', 'R'];
            let d = dec_chars(i as u64);
            crate::fmt::append_chars(&mut name, d.as_slice());
            let ghost before = pairs_view(m@);
            m.push((name, 200 + i));
            proof {
                assert(pairs_view(m@) =~= before.push((name@, (200 + i) as u16)));
                assert(reg_table()[28 + i] == (seq!['F', 'P', 'R'] + dec(i as nat), (200 + i) as u16));
                assert(reg_table().take(28 + i + 1) =~= reg_table().take(28 + i).push(reg_table()[28 + i]));
            }
            i = i + 1;
        }
        proof {
            assert(reg_table().take(44) =~= reg_table());
        }
        m
    }

    /// The table of `(id, name)` pairs.
    pub fn build_id_to_name() -> (r: Vec<(u16, Vec<char>)>)
        ensures
            r@.len() == reg_table().len(),
            forall|i: int|
                0 <= i < r@.len() ==> (#[trigger] r@[i]).0 == reg_table()[i].1 && r@[i].1@
                    == reg_table()[i].0,
    {
        let m = Self::build_name_to_id();
        let mut r: Vec<(u16, Vec<char>)> = Vec::new();
        let mut i: usize = 0;
        while i < m.len()
            invariant
                i <= m@.len(),
                pairs_view(m@) == reg_table(),
                r@.len() == i,
                forall|k: int|
                    0 <= k < i ==> (#[trigger] r@[k]).0 == reg_table()[k].1 && r@[k].1@
                        == reg_table()[k].0,
            decreases m.len() - i,
        {
            let name = crate::text::slice_chars(m[i].0.as_slice(), 0, m[i].0.len());
            proof {
                assert(pairs_view(m@)[i as int] == (m@[i as int].0@, m@[i as int].1));
                assert(name@ =~= m@[i as int].0@);
            }
            r.push((m[i].1, name));
            i = i + 1;
        }
        r
    }
}

/// Id of the register called `name`.
pub fn reg_id(name: &[char]) -> (r: Option<u16>)
    ensures
        r == spec_reg_id(name@),
{
    let t = RegisterMap::build_name_to_id();
    assoc_lookup(&t, name)
}

/// Name of the register with id `id`.
pub fn reg_name(id: u16) -> (r: Option<Vec<char>>)
    ensures
        match spec_reg_name(id) {
            Some(n) => r matches Some(v) && v@ == n,
            None => r is None,
        },
{
    let t = RegisterMap::build_name_to_id();
    let mut i = t.len();
    proof {
        assert(pairs_view(t@).take(i as int) =~= pairs_view(t@));
    }
    while i > 0
        invariant
            i <= t@.len(),
            pairs_view(t@) == reg_table(),
            id_get(pairs_view(t@).take(i as int), id) == spec_reg_name(id),
        decreases i,
    {
        let ghost pv = pairs_view(t@).take(i as int);
        proof {
            assert(pairs_view(t@).take(i - 1) =~= pv.drop_last());
            assert(pv.last() == (t@[i - 1].0@, t@[i - 1].1));
        }
        if t[i - 1].1 == id {
            let n = crate::text::slice_chars(t[i - 1].0.as_slice(), 0, t[i - 1].0.len());
            assert(n@ =~= t@[i - 1].0@);
            return Some(n);
        }
        i = i - 1;
    }
    proof {
        assert(pairs_view(t@).take(0) =~= Seq::<(Seq<char>, u16)>::empty());
    }
    None
}

} // verus!

verus! {

proof fn lemma_assoc_get_entry(t: Seq<(Seq<char>, u16)>, k: Seq<char>)
    requires
        assoc_get(t, k) is Some,
    ensures
        exists|i: int| 0 <= i < t.len() && #[trigger] t[i] == (k, assoc_get(t, k)->Some_0),
    decreases t.len(),
{
    if t.last().0 == k {
        assert(t[t.len() - 1] == (k, assoc_get(t, k)->Some_0));
    } else {
        lemma_assoc_get_entry(t.drop_last(), k);
        let i = choose|i: int| 0 <= i < t.drop_last().len() && #[trigger] t.drop_last()[i] == (k, assoc_get(
            t.drop_last(),
            k,
        )->Some_0);
        assert(t[i] == t.drop_last()[i]);
    }
}

proof fn lemma_id_get_unique(t: Seq<(Seq<char>, u16)>, i: int)
    requires
        0 <= i < t.len(),
        forall|a: int, b: int| 0 <= a < b < t.len() ==> t[a].1 < t[b].1,
    ensures
        id_get(t, t[i].1) == Some(t[i].0),
    decreases t.len(),
{
    if i < t.len() - 1 {
        assert(t.last().1 != t[i].1);
        let p = t.drop_last();
        assert(p[i] == t[i]);
        lemma_id_get_unique(p, i);
    }
}

/// The two register tables are inverse to each other: a register's name
/// gives its id, and that id gives the name back.
pub proof fn lemma_reg_name_of_id(name: Seq<char>)
    requires
        spec_reg_id(name) is Some,
    ensures
        spec_reg_name(spec_reg_id(name)->Some_0) == Some(name),
{
    let t = reg_table();
    lemma_assoc_get_entry(t, name);
    let i = choose|i: int| 0 <= i < t.len() && #[trigger] t[i] == (name, assoc_get(t, name)->Some_0);
    assert forall|a: int, b: int| 0 <= a < b < t.len() implies t[a].1 < t[b].1 by {
        assert(t[a].1 as int == (if a < 9 { a + 1 } else if a < 25 { a + 23 } else if a < 28 { a + 75 } else { a + 172 }));
        assert(t[b].1 as int == (if b < 9 { b + 1 } else if b < 25 { b + 23 } else if b < 28 { b + 75 } else { b + 172 }));
    }
    lemma_id_get_unique(t, i);
}

/// A character of a register name: a capital letter other than `E`, or a
/// digit.
pub open spec fn reg_name_char(c: char) -> bool {
    ('A' <= c && c <= 'Z' && c != 'E') || ('0' <= c && c <= '9')
}

proof fn lemma_small_dec_chars(i: nat)
    requires
        i < 16,
    ensures
        forall|k: int| 0 <= k < dec(i).len() ==> reg_name_char(#[trigger] dec(i)[k]),
{
    reveal_with_fuel(crate::fmt::digits, 3);
    if i < 10 {
        assert(dec(i) == seq![crate::fmt::digit_char(i, true)]);
    } else {
        assert(dec(i) == seq![crate::fmt::digit_char(1, true), crate::fmt::digit_char((i % 10) as nat, true)]);
    }
}

/// Register names are written with capital letters (never `E`) and
/// digits only.
pub proof fn lemma_reg_name_chars(name: Seq<char>)
    requires
        spec_reg_id(name) is Some,
    ensures
        name.len() > 0,
        'A' <= name[0] && name[0] <= 'Z',
        forall|k: int| 0 <= k < name.len() ==> reg_name_char(#[trigger] name[k]),
{
    let t = reg_table();
    lemma_assoc_get_entry(t, name);
    let i = choose|i: int| 0 <= i < t.len() && #[trigger] t[i] == (name, assoc_get(t, name)->Some_0);
    if i < 9 {
        assert(name == named_regs()[i]);
    } else if i < 25 {
        let j = (i - 9) as nat;
        assert(name == seq!['R'] + dec(j));
        lemma_small_dec_chars(j);
        assert forall|k: int| 0 <= k < name.len() implies reg_name_char(#[trigger] name[k]) by {
            if k > 0 {
                assert(name[k] == dec(j)[k - 1]);
            }
        }
    } else if i < 28 {
        assert(name == flag_regs()[i - 25]);
    } else {
        let j = (i - 28) as nat;
        assert(name == seq!['F', 'P', 'R'] + dec(j));
        lemma_small_dec_chars(j);
        assert forall|k: int| 0 <= k < name.len() implies reg_name_char(#[trigger] name[k]) by {
            if k > 2 {
                assert(name[k] == dec(j)[k - 3]);
            }
        }
    }
}

} // verus!
