//! The symbol tables of an assembled image: data and code label tables,
//! the export table, and the import table with its relocations grouped by
//! symbol in name order.
use vstd::prelude::*;
use vstd::utf8::encode_utf8;
use crate::text::{starts_with, starts_with_str, utf8_bytes, slice_chars, copy_chars, views, eq_chars};
use crate::fmt::{append_chars, append_str};
use crate::assoc::assoc_get;
use crate::le::{le_bytes, push_le, write_u64_le};
use crate::layout::{labels_view, lookup};
use crate::encode::{SReloc, rels_view};

verus! {

// ------------------------------------------------------------ label tables

/// A table entry: the name's UTF-8 length (two bytes), the name, and an offset (eight bytes).
pub open spec fn name_entry(name: Seq<char>, off: nat) -> Seq<u8> {
    le_bytes(encode_utf8(name).len(), 2) + encode_utf8(name) + le_bytes(off, 8)
}

pub open spec fn entries_bytes(es: Seq<(Seq<char>, nat)>) -> Seq<u8>
    decreases es.len(),
{
    if es.len() == 0 {
        seq![]
    } else {
        entries_bytes(es.drop_last()) + name_entry(es.last().0, es.last().1)
    }
}

/// A label table: the entry count (two bytes) and the entries.
pub open spec fn offset_table(es: Seq<(Seq<char>, nat)>) -> Seq<u8> {
    le_bytes(es.len(), 2) + entries_bytes(es)
}

fn push_name(out: &mut Vec<u8>, name: &[char])
    ensures
        final(out)@ == old(out)@ + le_bytes(encode_utf8(name@).len(), 2) + encode_utf8(name@),
{
    let b = utf8_bytes(name);
    push_le(b.len() as u64, 2, out);
    let ghost pre = out@;
    let mut k: usize = 0;
    while k < b.len()
        invariant
            k <= b@.len(),
            out@ == pre + b@.take(k as int),
        decreases b.len() - k,
    {
        out.push(b[k]);
        k = k + 1;
        proof {
            assert(out@ =~= pre + b@.take(k as int));
        }
    }
    proof {
        assert(b@.take(k as int) =~= b@);
    }
}

pub fn offset_table_exec(es: &Vec<(Vec<char>, u64)>) -> (r: Vec<u8>)
    ensures
        r@ == offset_table(labels_view(es@)),
{
    let ghost ev = labels_view(es@);
    let mut out: Vec<u8> = Vec::new();
    push_le(es.len() as u64, 2, &mut out);
    let ghost head = out@;
    let mut i: usize = 0;
    proof {
        assert(ev.take(0) =~= Seq::<(Seq<char>, nat)>::empty());
        assert(out@ =~= head + entries_bytes(ev.take(0)));
    }
    while i < es.len()
        invariant
            i <= es@.len(),
            ev == labels_view(es@),
            head == le_bytes(ev.len(), 2),
            out@ == head + entries_bytes(ev.take(i as int)),
        decreases es.len() - i,
    {
        push_name(&mut out, es[i].0.as_slice());
        write_u64_le(es[i].1, &mut out);
        proof {
            assert(ev.take(i + 1).drop_last() =~= ev.take(i as int));
            assert(ev.take(i + 1).last() == (es@[i as int].0@, es@[i as int].1 as nat));
            assert(out@ =~= head + entries_bytes(ev.take(i + 1)));
        }
        i = i + 1;
    }
    proof {
        assert(ev.take(i as int) =~= ev);
    }
    out
}

// ------------------------------------------------------------ exports

/// Kind and name of an export: `#name` code, `$name` data, a bare name code.
pub open spec fn export_split(raw: Seq<char>) -> (u8, Seq<char>) {
    if starts_with(raw, "#"@) {
        (0, raw.drop_first())
    } else if starts_with(raw, "$"@) {
        (1, raw.drop_first())
    } else {
        (0, raw)
    }
}

pub open spec fn unknown_export(kind: u8, name: Seq<char>) -> Seq<char> {
    if kind == 0 {
        "error[EASM003]: export of unknown code symbol '"@ + name + "'"@
    } else {
        "error[EASM003]: export of unknown data symbol '"@ + name + "'"@
    }
}

/// The first export that names no known symbol, as an error message.
pub open spec fn export_error(raws: Seq<Seq<char>>, labels: Seq<(Seq<char>, nat)>, data: Seq<(Seq<char>, nat)>) -> Option<Seq<char>>
    decreases raws.len(),
{
    if raws.len() == 0 {
        None
    } else {
        let (k, n) = export_split(raws[0]);
        let known = if k == 0 { assoc_get(labels, n) is Some } else { assoc_get(data, n) is Some };
        if !known {
            Some(unknown_export(k, n))
        } else {
            export_error(raws.drop_first(), labels, data)
        }
    }
}

/// The exports with their kinds and offsets, in order.
pub open spec fn export_list(raws: Seq<Seq<char>>, labels: Seq<(Seq<char>, nat)>, data: Seq<(Seq<char>, nat)>) -> Seq<(u8, Seq<char>, nat)>
    decreases raws.len(),
{
    if raws.len() == 0 {
        seq![]
    } else {
        let prev = export_list(raws.drop_last(), labels, data);
        let (k, n) = export_split(raws.last());
        match if k == 0 { assoc_get(labels, n) } else { assoc_get(data, n) } {
            Some(o) => prev.push((k, n, o)),
            None => prev,
        }
    }
}

pub open spec fn export_entries(es: Seq<(u8, Seq<char>, nat)>) -> Seq<u8>
    decreases es.len(),
{
    if es.len() == 0 {
        seq![]
    } else {
        let e = es.last();
        export_entries(es.drop_last()) + seq![e.0] + le_bytes(encode_utf8(e.1).len(), 2) + encode_utf8(e.1)
            + le_bytes(e.2, 8)
    }
}

/// The export table: count, then kind, name and offset of each export.
pub open spec fn export_bytes(es: Seq<(u8, Seq<char>, nat)>) -> Seq<u8> {
    le_bytes(es.len(), 2) + export_entries(es)
}

fn export_split_exec(raw: &[char]) -> (r: (u8, Vec<char>))
    ensures
        r.0 == export_split(raw@).0,
        r.1@ == export_split(raw@).1,
{
    proof {
        reveal_strlit("#");
        reveal_strlit("$");
    }
    if starts_with_str(raw, "#") {
        let n = slice_chars(raw, 1, raw.len());
        assert(n@ =~= raw@.drop_first());
        (0, n)
    } else if starts_with_str(raw, "$") {
        let n = slice_chars(raw, 1, raw.len());
        assert(n@ =~= raw@.drop_first());
        (1, n)
    } else {
        (0, copy_chars(raw))
    }
}

fn unknown_export_exec(kind: u8, name: &[char]) -> (r: Vec<char>)
    ensures
        r@ == unknown_export(kind, name@),
{
    let mut m: Vec<char> = Vec::new();
    if kind == 0 {
        append_str(&mut m, "error[EASM003]: export of unknown code symbol '");
    } else {
        append_str(&mut m, "error[EASM003]: export of unknown data symbol '");
    }
    append_chars(&mut m, name);
    append_str(&mut m, "'");
    m
}

pub fn export_error_exec(raws: &Vec<Vec<char>>, labels: &Vec<(Vec<char>, u64)>, data: &Vec<(Vec<char>, u64)>) -> (r: Option<Vec<char>>)
    ensures
        match export_error(views(raws@), labels_view(labels@), labels_view(data@)) {
            None => r is None,
            Some(m) => r matches Some(x) && x@ == m,
        },
{
    let ghost rv = views(raws@);
    let mut i: usize = 0;
    proof {
        assert(rv.skip(0) =~= rv);
    }
    while i < raws.len()
        invariant
            i <= raws@.len(),
            rv == views(raws@),
            export_error(rv.skip(i as int), labels_view(labels@), labels_view(data@)) == export_error(
                rv,
                labels_view(labels@),
                labels_view(data@),
            ),
        decreases raws.len() - i,
    {
        proof {
            assert(rv.skip(i as int).drop_first() =~= rv.skip(i + 1));
            assert(rv.skip(i as int)[0] == raws@[i as int]@);
        }
        let (k, n) = export_split_exec(raws[i].as_slice());
        let known = if k == 0 {
            lookup(labels, n.as_slice()).is_some()
        } else {
            lookup(data, n.as_slice()).is_some()
        };
        if !known {
            return Some(unknown_export_exec(k, n.as_slice()));
        }
        i = i + 1;
    }
    proof {
        assert(rv.skip(i as int) =~= Seq::<Seq<char>>::empty());
    }
    None
}

pub fn export_table_exec(raws: &Vec<Vec<char>>, labels: &Vec<(Vec<char>, u64)>, data: &Vec<(Vec<char>, u64)>) -> (r: Vec<u8>)
    ensures
        r@ == export_bytes(export_list(views(raws@), labels_view(labels@), labels_view(data@))),
{
    let ghost rv = views(raws@);
    let ghost lv = labels_view(labels@);
    let ghost dv = labels_view(data@);
    let mut count: u64 = 0;
    let mut body: Vec<u8> = Vec::new();
    let mut i: usize = 0;
    proof {
        assert(rv.take(0) =~= Seq::<Seq<char>>::empty());
    }
    while i < raws.len()
        invariant
            i <= raws@.len(),
            rv == views(raws@),
            lv == labels_view(labels@),
            dv == labels_view(data@),
            count as nat == export_list(rv.take(i as int), lv, dv).len(),
            count <= i,
            body@ == export_entries(export_list(rv.take(i as int), lv, dv)),
        decreases raws.len() - i,
    {
        proof {
            assert(rv.take(i + 1).drop_last() =~= rv.take(i as int));
            assert(rv.take(i + 1).last() == raws@[i as int]@);
        }
        let (k, n) = export_split_exec(raws[i].as_slice());
        let found = if k == 0 {
            lookup(labels, n.as_slice())
        } else {
            lookup(data, n.as_slice())
        };
        match found {
            Some(o) => {
                body.push(k);
                push_name(&mut body, n.as_slice());
                write_u64_le(o, &mut body);
                count = count + 1;
                proof {
                    let l = export_list(rv.take(i + 1), lv, dv);
                    assert(l.drop_last() =~= export_list(rv.take(i as int), lv, dv));
                    assert(body@ =~= export_entries(l));
                }
            },
            None => {},
        }
        i = i + 1;
    }
    proof {
        assert(rv.take(i as int) =~= rv);
    }
    let mut out: Vec<u8> = Vec::new();
    push_le(count, 2, &mut out);
    let ghost head = out@;
    let mut k: usize = 0;
    while k < body.len()
        invariant
            k <= body@.len(),
            out@ == head + body@.take(k as int),
        decreases body.len() - k,
    {
        out.push(body[k]);
        k = k + 1;
        proof {
            assert(out@ =~= head + body@.take(k as int));
        }
    }
    proof {
        assert(body@.take(k as int) =~= body@);
    }
    out
}

} // verus!

verus! {

// ------------------------------------------------------------ imports

/// Lexicographic order of character sequences by code point (the order of
/// their UTF-8 bytes).
pub open spec fn seq_lt(a: Seq<char>, b: Seq<char>) -> bool
    decreases a.len(),
{
    if a.len() == 0 {
        b.len() > 0
    } else if b.len() == 0 {
        false
    } else if (a[0] as u32) < (b[0] as u32) {
        true
    } else if a[0] == b[0] {
        seq_lt(a.drop_first(), b.drop_first())
    } else {
        false
    }
}

/// Order of imported symbols: by name, then by kind.
pub open spec fn key_lt(a: (Seq<char>, u8), b: (Seq<char>, u8)) -> bool {
    seq_lt(a.0, b.0) || (a.0 == b.0 && a.1 < b.1)
}

pub type Group = ((Seq<char>, u8), Seq<nat>);

/// A relocation offset added to the group of its symbol, groups kept in key order.
pub open spec fn group_insert(g: Seq<Group>, key: (Seq<char>, u8), off: nat) -> Seq<Group>
    decreases g.len(),
{
    if g.len() == 0 {
        seq![(key, seq![off])]
    } else if g[0].0 == key {
        seq![(key, g[0].1.push(off))] + g.drop_first()
    } else if key_lt(key, g[0].0) {
        seq![(key, seq![off])] + g
    } else {
        seq![g[0]] + group_insert(g.drop_first(), key, off)
    }
}

/// Relocations grouped by symbol, in key order, offsets in order of appearance.
pub open spec fn group(rs: Seq<SReloc>) -> Seq<Group>
    decreases rs.len(),
{
    if rs.len() == 0 {
        seq![]
    } else {
        let r = rs.last();
        group_insert(group(rs.drop_last()), (r.0, r.1), r.2)
    }
}

pub open spec fn ref_bytes(offs: Seq<nat>) -> Seq<u8>
    decreases offs.len(),
{
    if offs.len() == 0 {
        seq![]
    } else {
        ref_bytes(offs.drop_last()) + seq![0u8] + le_bytes(offs.last(), 8)
    }
}

pub open spec fn group_entries(g: Seq<Group>) -> Seq<u8>
    decreases g.len(),
{
    if g.len() == 0 {
        seq![]
    } else {
        let e = g.last();
        group_entries(g.drop_last()) + seq![e.0.1] + le_bytes(encode_utf8(e.0.0).len(), 2) + encode_utf8(e.0.0)
            + le_bytes(e.1.len(), 2) + ref_bytes(e.1)
    }
}

/// The import table: count, then per symbol its kind, name, and the code
/// offsets (section 0) that refer to it.
pub open spec fn import_bytes(g: Seq<Group>) -> Seq<u8> {
    le_bytes(g.len(), 2) + group_entries(g)
}

pub open spec fn offs_view(v: Seq<u64>) -> Seq<nat> {
    v.map_values(|o: u64| o as nat)
}

pub open spec fn groups_view(v: Seq<((Vec<char>, u8), Vec<u64>)>) -> Seq<Group> {
    v.map_values(|e: ((Vec<char>, u8), Vec<u64>)| ((e.0.0@, e.0.1), offs_view(e.1@)))
}

fn seq_lt_exec(a: &[char], b: &[char]) -> (r: bool)
    ensures
        r == seq_lt(a@, b@),
{
    let mut i: usize = 0;
    proof {
        assert(a@.skip(0) =~= a@);
        assert(b@.skip(0) =~= b@);
    }
    while i < a.len() && i < b.len() && a[i] == b[i]
        invariant
            i <= a@.len(),
            i <= b@.len(),
            seq_lt(a@.skip(i as int), b@.skip(i as int)) == seq_lt(a@, b@),
        decreases a.len() - i,
    {
        proof {
            assert(a@.skip(i as int).drop_first() =~= a@.skip(i + 1));
            assert(b@.skip(i as int).drop_first() =~= b@.skip(i + 1));
        }
        i = i + 1;
    }
    if i == a.len() {
        i < b.len()
    } else if i == b.len() {
        false
    } else {
        (a[i] as u32) < (b[i] as u32)
    }
}

fn key_lt_exec(an: &[char], ak: u8, bn: &[char], bk: u8) -> (r: bool)
    ensures
        r == key_lt((an@, ak), (bn@, bk)),
{
    seq_lt_exec(an, bn) || (eq_chars(an, bn) && ak < bk)
}

fn copy_offs(v: &Vec<u64>) -> (r: Vec<u64>)
    ensures
        r@ == v@,
{
    let mut out: Vec<u64> = Vec::new();
    let mut i: usize = 0;
    while i < v.len()
        invariant
            i <= v@.len(),
            out@ == v@.take(i as int),
        decreases v.len() - i,
    {
        out.push(v[i]);
        i = i + 1;
        proof {
            assert(out@ =~= v@.take(i as int));
        }
    }
    proof {
        assert(v@.take(i as int) =~= v@);
    }
    out
}

fn group_insert_exec(g: &mut Vec<((Vec<char>, u8), Vec<u64>)>, name: &[char], kind: u8, off: u64)
    ensures
        groups_view(final(g)@) == group_insert(groups_view(old(g)@), (name@, kind), off as nat),
{
    let ghost g0 = groups_view(g@);
    let ghost key = (name@, kind);
    let mut i: usize = 0;
    proof {
        assert(g0.take(0) + group_insert(g0.skip(0), key, off as nat) =~= group_insert(g0, key, off as nat)) by {
            assert(g0.skip(0) =~= g0);
        }
    }
    while i < g.len() && !(eq_chars(g[i].0.0.as_slice(), name) && g[i].0.1 == kind)
        && !key_lt_exec(name, kind, g[i].0.0.as_slice(), g[i].0.1)
        invariant
            i <= g@.len(),
            g0 == groups_view(g@),
            key == (name@, kind),
            g0.take(i as int) + group_insert(g0.skip(i as int), key, off as nat) == group_insert(g0, key, off as nat),
        decreases g.len() - i,
    {
        proof {
            let t = g0.skip(i as int);
            assert(t[0] == g0[i as int]);
            assert(t.drop_first() =~= g0.skip(i + 1));
            assert(g0.take(i + 1) =~= g0.take(i as int).push(g0[i as int]));
            assert(g0.take(i as int) + group_insert(t, key, off as nat) =~= g0.take(i + 1) + group_insert(g0.skip(i + 1), key, off as nat));
        }
        i = i + 1;
    }
    if i == g.len() {
        let mut offs: Vec<u64> = Vec::new();
        offs.push(off);
        let nm = copy_chars(name);
        proof {
            assert(offs_view(offs@) =~= seq![off as nat]);
        }
        g.push(((nm, kind), offs));
        proof {
            assert(g0.skip(i as int) =~= Seq::<Group>::empty());
            assert(groups_view(g@) =~= g0.push((key, seq![off as nat])));
            assert(g0.take(i as int) =~= g0);
        }
    } else if eq_chars(g[i].0.0.as_slice(), name) && g[i].0.1 == kind {
        let mut offs = copy_offs(&g[i].1);
        offs.push(off);
        let old_e = g.remove(i);
        let ghost nv = name@;
        g.insert(i, ((copy_chars(name), kind), offs));
        proof {
            let t = g0.skip(i as int);
            assert(t[0] == g0[i as int]);
            assert(t.drop_first() =~= g0.skip(i + 1));
            assert(offs_view(offs@) =~= g0[i as int].1.push(off as nat));
            assert(groups_view(g@) =~= g0.take(i as int) + (seq![(key, g0[i as int].1.push(off as nat))] + t.drop_first()));
        }
    } else {
        let mut offs: Vec<u64> = Vec::new();
        offs.push(off);
        let nm = copy_chars(name);
        proof {
            assert(offs_view(offs@) =~= seq![off as nat]);
        }
        g.insert(i, ((nm, kind), offs));
        proof {
            let t = g0.skip(i as int);
            assert(t[0] == g0[i as int]);
            assert(groups_view(g@) =~= g0.take(i as int) + (seq![(key, seq![off as nat])] + t));
        }
    }
}

/// Relocations grouped by imported symbol.
pub fn group_exec(rs: &Vec<(Vec<char>, u8, u64)>) -> (r: Vec<((Vec<char>, u8), Vec<u64>)>)
    ensures
        groups_view(r@) == group(rels_view(rs@)),
{
    let ghost rv = rels_view(rs@);
    let mut g: Vec<((Vec<char>, u8), Vec<u64>)> = Vec::new();
    let mut i: usize = 0;
    proof {
        assert(rv.take(0) =~= Seq::<SReloc>::empty());
        assert(groups_view(g@) =~= Seq::<Group>::empty());
    }
    while i < rs.len()
        invariant
            i <= rs@.len(),
            rv == rels_view(rs@),
            groups_view(g@) == group(rv.take(i as int)),
        decreases rs.len() - i,
    {
        proof {
            assert(rv.take(i + 1).drop_last() =~= rv.take(i as int));
            assert(rv.take(i + 1).last() == (rs@[i as int].0@, rs@[i as int].1, rs@[i as int].2 as nat));
        }
        group_insert_exec(&mut g, rs[i].0.as_slice(), rs[i].1, rs[i].2);
        i = i + 1;
    }
    proof {
        assert(rv.take(i as int) =~= rv);
    }
    g
}

pub fn import_table_exec(g: &Vec<((Vec<char>, u8), Vec<u64>)>) -> (r: Vec<u8>)
    ensures
        r@ == import_bytes(groups_view(g@)),
{
    let ghost gv = groups_view(g@);
    let mut out: Vec<u8> = Vec::new();
    push_le(g.len() as u64, 2, &mut out);
    let ghost head = out@;
    let mut i: usize = 0;
    proof {
        assert(gv.take(0) =~= Seq::<Group>::empty());
        assert(out@ =~= head + group_entries(gv.take(0)));
    }
    while i < g.len()
        invariant
            i <= g@.len(),
            gv == groups_view(g@),
            head == le_bytes(gv.len(), 2),
            out@ == head + group_entries(gv.take(i as int)),
        decreases g.len() - i,
    {
        let e = &g[i];
        let ghost ov = offs_view(e.1@);
        out.push(e.0.1);
        push_name(&mut out, e.0.0.as_slice());
        push_le(e.1.len() as u64, 2, &mut out);
        let ghost pre = out@;
        let mut k: usize = 0;
        proof {
            assert(ov.take(0) =~= Seq::<nat>::empty());
            assert(out@ =~= pre + ref_bytes(ov.take(0)));
        }
        while k < e.1.len()
            invariant
                k <= e.1@.len(),
                ov == offs_view(e.1@),
                out@ == pre + ref_bytes(ov.take(k as int)),
            decreases e.1.len() - k,
        {
            out.push(0u8);
            write_u64_le(e.1[k], &mut out);
            proof {
                assert(ov.take(k + 1).drop_last() =~= ov.take(k as int));
                assert(out@ =~= pre + ref_bytes(ov.take(k + 1)));
            }
            k = k + 1;
        }
        proof {
            assert(ov.take(k as int) =~= ov);
            assert(gv.take(i + 1).drop_last() =~= gv.take(i as int));
            assert(gv.take(i + 1).last() == ((e.0.0@, e.0.1), ov));
            assert(out@ =~= head + group_entries(gv.take(i + 1)));
        }
        i = i + 1;
    }
    proof {
        assert(gv.take(i as int) =~= gv);
    }
    out
}

} // verus!
