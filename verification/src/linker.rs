//! The linker: several MASI files into one, with imports resolved against
//! the other files' exports.
use vstd::prelude::*;
use crate::text::{str_chars, chars_to_string, copy_chars, eq_chars};
use crate::fmt::{append_chars, append_str};
use crate::le::{le_bytes, le_value, push_le, write_u64_le};
use crate::masi::{
    MASIFile, masi_image, compose_masi, offset_names, export_view, import_view, refs_view, chunks_small, decodes_to,
    has_header, chunks_fit, import_table, export_table, name_table, label_fallback, data_fallback,
    lemma_masi_image_decodes,
};
use crate::tables::{offset_table, offset_table_exec, export_bytes, export_entries};
use crate::layout::labels_view;
use crate::vm::wadd;

verus! {

/// A linked MASI file.
pub struct LinkedOutput {
    pub bytes: Vec<u8>,
}

pub open spec fn code_base(fs: Seq<MASIFile>, i: int) -> nat
    decreases i,
{
    if i <= 0 {
        0
    } else {
        code_base(fs, i - 1) + fs[i - 1].code@.len()
    }
}

pub open spec fn data_base(fs: Seq<MASIFile>, i: int) -> nat
    decreases i,
{
    if i <= 0 {
        0
    } else {
        data_base(fs, i - 1) + fs[i - 1].data@.len()
    }
}

/// Every export of every file: kind, name, file index and offset.
pub open spec fn all_exports(fs: Seq<MASIFile>) -> Seq<(u8, Seq<char>, int, u64)>
    decreases fs.len(),
{
    if fs.len() == 0 {
        seq![]
    } else {
        let i = fs.len() - 1;
        all_exports(fs.drop_last()) + export_view(fs.last().exports@).map_values(
            |e: (u8, Seq<char>, u64)| (e.0, e.1, i, e.2),
        )
    }
}

/// The last export of a symbol (a later one replaces an earlier one).
pub open spec fn find_export(es: Seq<(u8, Seq<char>, int, u64)>, kind: u8, name: Seq<char>) -> Option<(int, u64)>
    decreases es.len(),
{
    if es.len() == 0 {
        None
    } else if es.last().0 == kind && es.last().1 == name {
        Some((es.last().2, es.last().3))
    } else {
        find_export(es.drop_last(), kind, name)
    }
}

/// Every import, in order of file and of appearance, with its file index.
pub open spec fn all_imports(fs: Seq<MASIFile>) -> Seq<(int, (u8, Seq<char>, Seq<(u8, u64)>))>
    decreases fs.len(),
{
    if fs.len() == 0 {
        seq![]
    } else {
        let i = fs.len() - 1;
        all_imports(fs.drop_last()) + import_view(fs.last().imports@).map_values(
            |im: (u8, Seq<char>, Seq<(u8, u64)>)| (i, im),
        )
    }
}

/// The first import that no export provides.
pub open spec fn first_unresolved(ims: Seq<(int, (u8, Seq<char>, Seq<(u8, u64)>))>, es: Seq<(u8, Seq<char>, int, u64)>) -> Option<(u8, Seq<char>)>
    decreases ims.len(),
{
    if ims.len() == 0 {
        None
    } else if find_export(es, ims[0].1.0, ims[0].1.1) is None {
        Some((ims[0].1.0, ims[0].1.1))
    } else {
        first_unresolved(ims.drop_first(), es)
    }
}

pub open spec fn kind_text(kind: u8) -> Seq<char> {
    if kind == 0 {
        "code"@
    } else {
        "data"@
    }
}

/// `error[ELD002]` for an import that no export provides.
pub open spec fn unresolved_msg(kind: u8, name: Seq<char>) -> Seq<char> {
    "error[ELD002]: unresolved import: "@ + kind_text(kind) + " "@ + name
        + "\n   = help: ensure the providing object exports this symbol or link it before users"@
}

/// The first export whose kind and name an earlier export already has.
pub open spec fn first_duplicate(es: Seq<(u8, Seq<char>, int, u64)>) -> Option<(u8, Seq<char>)>
    decreases es.len(),
{
    if es.len() == 0 {
        None
    } else {
        match first_duplicate(es.drop_last()) {
            Some(d) => Some(d),
            None => if find_export(es.drop_last(), es.last().0, es.last().1) is Some {
                Some((es.last().0, es.last().1))
            } else {
                None
            },
        }
    }
}

/// `error[ELD001]` for a symbol exported twice.
pub open spec fn duplicate_msg(kind: u8, name: Seq<char>) -> Seq<char> {
    "error[ELD001]: duplicate export symbol '"@ + kind_text(kind) + " "@ + name + "'"@
}

/// Where an import points once linked: its export's offset moved by the
/// base of the exporting file's code (kind 0) or data (kind 1).
pub open spec fn target_of(fs: Seq<MASIFile>, kind: u8, ei: int, off: u64) -> u64 {
    if kind == 0 {
        wadd(code_base(fs, ei) as u64, off)
    } else if kind == 1 {
        wadd(data_base(fs, ei) as u64, off)
    } else {
        off
    }
}

/// The patches of one import's code references (section 0) at the file's
/// code base.
pub open spec fn ref_patches(refs: Seq<(u8, u64)>, base: u64, t: u64) -> Seq<(u64, u64)>
    decreases refs.len(),
{
    if refs.len() == 0 {
        seq![]
    } else {
        ref_patches(refs.drop_last(), base, t) + if refs.last().0 == 0 {
            seq![(wadd(base, refs.last().1), t)]
        } else {
            seq![]
        }
    }
}

/// The eight-byte patches to the linked code: for each code reference of
/// each resolved import, its position and the value to write there.
pub open spec fn patches(fs: Seq<MASIFile>, ims: Seq<(int, (u8, Seq<char>, Seq<(u8, u64)>))>, es: Seq<(u8, Seq<char>, int, u64)>) -> Seq<(u64, u64)>
    decreases ims.len(),
{
    if ims.len() == 0 {
        seq![]
    } else {
        let (i, im) = ims.last();
        let prev = patches(fs, ims.drop_last(), es);
        match find_export(es, im.0, im.1) {
            None => prev,
            Some((ei, off)) => prev + ref_patches(im.2, code_base(fs, i) as u64, target_of(fs, im.0, ei, off)),
        }
    }
}

/// The code with the patches applied in turn; one that does not fit in the
/// code is skipped.
pub open spec fn apply_patches(code: Seq<u8>, ps: Seq<(u64, u64)>) -> Seq<u8>
    decreases ps.len(),
{
    if ps.len() == 0 {
        code
    } else {
        let c = apply_patches(code, ps.drop_last());
        let (p, v) = ps.last();
        if p + 8 <= c.len() {
            c.take(p as int) + le_bytes(v as nat, 8) + c.skip(p + 8)
        } else {
            c
        }
    }
}

pub open spec fn concat_code(fs: Seq<MASIFile>) -> Seq<u8>
    decreases fs.len(),
{
    if fs.len() == 0 {
        seq![]
    } else {
        concat_code(fs.drop_last()) + fs.last().code@
    }
}

pub open spec fn concat_data(fs: Seq<MASIFile>) -> Seq<u8>
    decreases fs.len(),
{
    if fs.len() == 0 {
        seq![]
    } else {
        concat_data(fs.drop_last()) + fs.last().data@
    }
}

/// Each file's labels, offsets moved by its base.
pub open spec fn moved_labels(fs: Seq<MASIFile>, data: bool) -> Seq<(Seq<char>, nat)>
    decreases fs.len(),
{
    if fs.len() == 0 {
        seq![]
    } else {
        let i = fs.len() - 1;
        let base = if data { data_base(fs, i) } else { code_base(fs, i) };
        let l = if data { offset_names(fs.last().data_label_map@) } else { offset_names(fs.last().label_map@) };
        moved_labels(fs.drop_last(), data) + l.map_values(|e: (u64, Seq<char>)| (e.1, wadd(base as u64, e.0) as nat))
    }
}

/// Each file's exports, offsets moved by the base of their section.
pub open spec fn moved_exports(fs: Seq<MASIFile>) -> Seq<(u8, Seq<char>, nat)>
    decreases fs.len(),
{
    if fs.len() == 0 {
        seq![]
    } else {
        let i = fs.len() - 1;
        moved_exports(fs.drop_last()) + export_view(fs.last().exports@).map_values(
            |e: (u8, Seq<char>, u64)| (e.0, e.1, wadd((if e.0 == 0 { code_base(fs, i) } else { data_base(fs, i) }) as u64, e.2) as nat),
        )
    }
}

/// The linked file: no imports, the merged label tables and exports, the
/// concatenated data, and the concatenated code with every import patched
/// in; the entry is the first file's. No input files, sections past
/// 64-bit offsets, a symbol exported twice (`ELD001`) or an unresolved
/// import (`ELD002`) are errors, checked in this order.
pub open spec fn link(fs: Seq<MASIFile>) -> Result<Seq<u8>, Seq<char>> {
    if fs.len() == 0 {
        Err("no input files"@)
    } else if code_base(fs, fs.len() as int) > u64::MAX || data_base(fs, fs.len() as int) > u64::MAX {
        Err("link output too large"@)
    } else {
        let es = all_exports(fs);
        let ims = all_imports(fs);
        match first_duplicate(es) {
            Some((k, n)) => Err(duplicate_msg(k, n)),
            None => match first_unresolved(ims, es) {
                Some((k, n)) => Err(unresolved_msg(k, n)),
                None => Ok(
                    masi_image(
                        fs[0].entry,
                        seq![
                            seq![],
                            offset_table(moved_labels(fs, true)),
                            offset_table(moved_labels(fs, false)),
                            seq![],
                            concat_data(fs),
                            export_bytes(moved_exports(fs)),
                            apply_patches(concat_code(fs), patches(fs, ims, es)),
                        ],
                    ),
                ),
            },
        }
    }
}

} // verus!

verus! {

pub open spec fn exports_flat_view(v: Seq<(u8, Vec<char>, usize, u64)>) -> Seq<(u8, Seq<char>, int, u64)> {
    v.map_values(|e: (u8, Vec<char>, usize, u64)| (e.0, e.1@, e.2 as int, e.3))
}

pub open spec fn imports_flat_view(v: Seq<(usize, u8, Vec<char>, Vec<(u8, u64)>)>) -> Seq<(int, (u8, Seq<char>, Seq<(u8, u64)>))> {
    v.map_values(|e: (usize, u8, Vec<char>, Vec<(u8, u64)>)| (e.0 as int, (e.1, e.2@, e.3@)))
}

fn flatten_exports(fs: &Vec<MASIFile>) -> (r: Vec<(u8, Vec<char>, usize, u64)>)
    ensures
        exports_flat_view(r@) == all_exports(fs@),
        forall|k: int| 0 <= k < r@.len() ==> r@[k].2 < fs@.len(),
{
    let mut out: Vec<(u8, Vec<char>, usize, u64)> = Vec::new();
    let mut i: usize = 0;
    proof {
        assert(fs@.take(0) =~= Seq::<MASIFile>::empty());
        assert(exports_flat_view(out@) =~= Seq::<(u8, Seq<char>, int, u64)>::empty());
    }
    while i < fs.len()
        invariant
            i <= fs@.len(),
            exports_flat_view(out@) == all_exports(fs@.take(i as int)),
            forall|k: int| 0 <= k < out@.len() ==> out@[k].2 < fs@.len(),
        decreases fs.len() - i,
    {
        let ex = &fs[i].exports;
        let ghost pre = exports_flat_view(out@);
        let ghost add = export_view(ex@).map_values(|e: (u8, Seq<char>, u64)| (e.0, e.1, i as int, e.2));
        let mut j: usize = 0;
        while j < ex.len()
            invariant
                j <= ex@.len(),
                i < fs@.len(),
                add == export_view(ex@).map_values(|e: (u8, Seq<char>, u64)| (e.0, e.1, i as int, e.2)),
                exports_flat_view(out@) == pre + add.take(j as int),
                forall|k: int| 0 <= k < out@.len() ==> out@[k].2 < fs@.len(),
            decreases ex.len() - j,
        {
            let e = &ex[j];
            let ghost before = exports_flat_view(out@);
            let item = (e.kind, str_chars(e.name.as_str()), i, e.offset);
            let ghost iv = (item.0, item.1@, item.2 as int, item.3);
            out.push(item);
            proof {
                assert(exports_flat_view(out@) =~= before.push(iv));
                assert(pre + add.take(j + 1) =~= (pre + add.take(j as int)).push(add[j as int]));
            }
            j = j + 1;
        }
        proof {
            assert(add.take(j as int) =~= add);
            assert(fs@.take(i + 1).drop_last() =~= fs@.take(i as int));
            assert(fs@.take(i + 1).last() == fs@[i as int]);
        }
        i = i + 1;
    }
    proof {
        assert(fs@.take(i as int) =~= fs@);
    }
    out
}

fn flatten_imports(fs: &Vec<MASIFile>) -> (r: Vec<(usize, u8, Vec<char>, Vec<(u8, u64)>)>)
    ensures
        imports_flat_view(r@) == all_imports(fs@),
        forall|k: int| 0 <= k < r@.len() ==> r@[k].0 < fs@.len(),
{
    let mut out: Vec<(usize, u8, Vec<char>, Vec<(u8, u64)>)> = Vec::new();
    let mut i: usize = 0;
    proof {
        assert(fs@.take(0) =~= Seq::<MASIFile>::empty());
        assert(imports_flat_view(out@) =~= Seq::<(int, (u8, Seq<char>, Seq<(u8, u64)>))>::empty());
    }
    while i < fs.len()
        invariant
            i <= fs@.len(),
            imports_flat_view(out@) == all_imports(fs@.take(i as int)),
            forall|k: int| 0 <= k < out@.len() ==> out@[k].0 < fs@.len(),
        decreases fs.len() - i,
    {
        let ims = &fs[i].imports;
        let ghost pre = imports_flat_view(out@);
        let ghost add = import_view(ims@).map_values(|im: (u8, Seq<char>, Seq<(u8, u64)>)| (i as int, im));
        let mut j: usize = 0;
        while j < ims.len()
            invariant
                j <= ims@.len(),
                i < fs@.len(),
                add == import_view(ims@).map_values(|im: (u8, Seq<char>, Seq<(u8, u64)>)| (i as int, im)),
                imports_flat_view(out@) == pre + add.take(j as int),
                forall|k: int| 0 <= k < out@.len() ==> out@[k].0 < fs@.len(),
            decreases ims.len() - j,
        {
            let im = &ims[j];
            let mut refs: Vec<(u8, u64)> = Vec::new();
            let mut k: usize = 0;
            while k < im.refs.len()
                invariant
                    k <= im.refs@.len(),
                    refs@ == refs_view(im.refs@).take(k as int),
                decreases im.refs.len() - k,
            {
                refs.push((im.refs[k].section, im.refs[k].offset));
                k = k + 1;
                proof {
                    assert(refs@ =~= refs_view(im.refs@).take(k as int));
                }
            }
            proof {
                assert(refs_view(im.refs@).take(k as int) =~= refs_view(im.refs@));
            }
            let ghost before = imports_flat_view(out@);
            let item = (i, im.kind, str_chars(im.name.as_str()), refs);
            let ghost iv = (item.0 as int, (item.1, item.2@, item.3@));
            out.push(item);
            proof {
                assert(imports_flat_view(out@) =~= before.push(iv));
                assert(pre + add.take(j + 1) =~= (pre + add.take(j as int)).push(add[j as int]));
            }
            j = j + 1;
        }
        proof {
            assert(add.take(j as int) =~= add);
            assert(fs@.take(i + 1).drop_last() =~= fs@.take(i as int));
            assert(fs@.take(i + 1).last() == fs@[i as int]);
        }
        i = i + 1;
    }
    proof {
        assert(fs@.take(i as int) =~= fs@);
    }
    out
}

fn find_export_exec(es: &Vec<(u8, Vec<char>, usize, u64)>, kind: u8, name: &[char]) -> (r: Option<(usize, u64)>)
    ensures
        match find_export(exports_flat_view(es@), kind, name@) {
            None => r is None,
            Some((ei, off)) => r matches Some((a, b)) && a as int == ei && b == off,
        },
        r matches Some((a, b)) ==> exists|q: int| 0 <= q < es@.len() && es@[q].2 == a,
{
    let ghost ev = exports_flat_view(es@);
    let mut i = es.len();
    proof {
        assert(ev.take(i as int) =~= ev);
    }
    while i > 0
        invariant
            i <= es@.len(),
            ev == exports_flat_view(es@),
            find_export(ev.take(i as int), kind, name@) == find_export(ev, kind, name@),
        decreases i,
    {
        proof {
            assert(ev.take(i as int).drop_last() =~= ev.take(i - 1));
        }
        if es[i - 1].0 == kind && eq_chars(es[i - 1].1.as_slice(), name) {
            return Some((es[i - 1].2, es[i - 1].3));
        }
        i = i - 1;
    }
    proof {
        assert(ev.take(0) =~= Seq::<(u8, Seq<char>, int, u64)>::empty());
    }
    None
}

proof fn lemma_code_base_mono(fs: Seq<MASIFile>, i: int, j: int)
    requires
        0 <= i <= j,
    ensures
        code_base(fs, i) <= code_base(fs, j),
        data_base(fs, i) <= data_base(fs, j),
    decreases j - i,
{
    if i < j {
        lemma_code_base_mono(fs, i, j - 1);
    }
}

} // verus!

verus! {

proof fn lemma_base_take(fs: Seq<MASIFile>, n: int, i: int)
    requires
        0 <= i <= n <= fs.len(),
    ensures
        code_base(fs.take(n), i) == code_base(fs, i),
        data_base(fs.take(n), i) == data_base(fs, i),
    decreases i,
{
    if i > 0 {
        lemma_base_take(fs, n, i - 1);
    }
}

fn unresolved_exec(kind: u8, name: &[char]) -> (r: String)
    ensures
        r@ == unresolved_msg(kind, name@),
{
    let mut m: Vec<char> = Vec::new();
    append_str(&mut m, "error[ELD002]: unresolved import: ");
    if kind == 0 {
        append_str(&mut m, "code");
    } else {
        append_str(&mut m, "data");
    }
    append_str(&mut m, " ");
    append_chars(&mut m, name);
    append_str(&mut m, "\n   = help: ensure the providing object exports this symbol or link it before users");
    chars_to_string(m.as_slice())
}

fn duplicate_exec(kind: u8, name: &[char]) -> (r: String)
    ensures
        r@ == duplicate_msg(kind, name@),
{
    let mut m: Vec<char> = Vec::new();
    append_str(&mut m, "error[ELD001]: duplicate export symbol '");
    if kind == 0 {
        append_str(&mut m, "code");
    } else {
        append_str(&mut m, "data");
    }
    append_str(&mut m, " ");
    append_chars(&mut m, name);
    append_str(&mut m, "'");
    chars_to_string(m.as_slice())
}

/// Whether an export among the first `upto` has this kind and name.
fn has_export_before(es: &Vec<(u8, Vec<char>, usize, u64)>, upto: usize, kind: u8, name: &[char]) -> (r: bool)
    requires
        upto <= es@.len(),
    ensures
        r == (find_export(exports_flat_view(es@).take(upto as int), kind, name@) is Some),
{
    let ghost ev = exports_flat_view(es@).take(upto as int);
    let mut i = upto;
    proof {
        assert(ev.take(i as int) =~= ev);
    }
    while i > 0
        invariant
            i <= upto <= es@.len(),
            ev == exports_flat_view(es@).take(upto as int),
            find_export(ev.take(i as int), kind, name@) == find_export(ev, kind, name@),
        decreases i,
    {
        proof {
            assert(ev.take(i as int).drop_last() =~= ev.take(i - 1));
        }
        if es[i - 1].0 == kind && eq_chars(es[i - 1].1.as_slice(), name) {
            return true;
        }
        i = i - 1;
    }
    proof {
        assert(ev.take(0) =~= Seq::<(u8, Seq<char>, int, u64)>::empty());
    }
    false
}

/// The first export that repeats an earlier one's kind and name.
fn first_duplicate_exec(es: &Vec<(u8, Vec<char>, usize, u64)>) -> (r: Option<usize>)
    ensures
        match first_duplicate(exports_flat_view(es@)) {
            None => r is None,
            Some((k, n)) => r matches Some(j) && j < es@.len() && es@[j as int].0 == k && es@[j as int].1@ == n,
        },
{
    let ghost ev = exports_flat_view(es@);
    let mut j: usize = 0;
    proof {
        assert(ev.take(0) =~= Seq::<(u8, Seq<char>, int, u64)>::empty());
    }
    while j < es.len()
        invariant
            j <= es@.len(),
            ev == exports_flat_view(es@),
            first_duplicate(ev.take(j as int)) is None,
        decreases es.len() - j,
    {
        let found = has_export_before(es, j, es[j].0, es[j].1.as_slice());
        proof {
            assert(ev.take(j + 1).drop_last() =~= ev.take(j as int));
            assert(ev.take(j + 1).last() == ev[j as int]);
        }
        if found {
            proof {
                assert(ev.take(es@.len() as int) =~= ev);
                lemma_first_duplicate_prefix(ev, j as int + 1, es@.len() as int);
            }
            return Some(j);
        }
        j = j + 1;
    }
    proof {
        assert(ev.take(j as int) =~= ev);
    }
    None
}

proof fn lemma_first_duplicate_prefix(ev: Seq<(u8, Seq<char>, int, u64)>, j: int, n: int)
    requires
        0 < j <= n <= ev.len(),
        first_duplicate(ev.take(j)) is Some,
    ensures
        first_duplicate(ev.take(n)) == first_duplicate(ev.take(j)),
    decreases n - j,
{
    if n > j {
        lemma_first_duplicate_prefix(ev, j, n - 1);
        assert(ev.take(n).drop_last() =~= ev.take(n - 1));
    }
}

fn message(s: &str) -> (r: String)
    ensures
        r@ == s@,
{
    let c = str_chars(s);
    chars_to_string(c.as_slice())
}

fn append_all(dst: &mut Vec<u8>, b: &Vec<u8>)
    ensures
        final(dst)@ == old(dst)@ + b@,
{
    let ghost d0 = dst@;
    let mut k: usize = 0;
    while k < b.len()
        invariant
            k <= b@.len(),
            dst@ == d0 + b@.take(k as int),
        decreases b.len() - k,
    {
        dst.push(b[k]);
        k = k + 1;
        proof {
            assert(dst@ =~= d0 + b@.take(k as int));
        }
    }
    proof {
        assert(b@.take(k as int) =~= b@);
    }
}

fn moved_labels_exec(fs: &Vec<MASIFile>, bases: &Vec<u64>, data: bool) -> (r: Vec<(Vec<char>, u64)>)
    requires
        bases@.len() == fs@.len(),
        forall|k: int| 0 <= k < fs@.len() ==> bases@[k] as nat == (if data { data_base(fs@, k) } else { code_base(fs@, k) }),
    ensures
        labels_view(r@) == moved_labels(fs@, data),
{
    let mut out: Vec<(Vec<char>, u64)> = Vec::new();
    let mut i: usize = 0;
    proof {
        assert(fs@.take(0) =~= Seq::<MASIFile>::empty());
        assert(labels_view(out@) =~= Seq::<(Seq<char>, nat)>::empty());
    }
    while i < fs.len()
        invariant
            i <= fs@.len(),
            bases@.len() == fs@.len(),
            forall|k: int| 0 <= k < fs@.len() ==> bases@[k] as nat == (if data { data_base(fs@, k) } else { code_base(fs@, k) }),
            labels_view(out@) == moved_labels(fs@.take(i as int), data),
        decreases fs.len() - i,
    {
        let l = if data { &fs[i].data_label_map } else { &fs[i].label_map };
        let base = bases[i];
        let ghost pre = labels_view(out@);
        let ghost add = offset_names(l@).map_values(|e: (u64, Seq<char>)| (e.1, wadd(base, e.0) as nat));
        let mut j: usize = 0;
        while j < l.len()
            invariant
                j <= l@.len(),
                add == offset_names(l@).map_values(|e: (u64, Seq<char>)| (e.1, wadd(base, e.0) as nat)),
                labels_view(out@) == pre + add.take(j as int),
            decreases l.len() - j,
        {
            let name = str_chars(l[j].1.as_str());
            let off = base.wrapping_add(l[j].0);
            proof {
                assert(off == wadd(base, l@[j as int].0)) by {
                    let x = base as int + l@[j as int].0 as int;
                    assert(x < 0x1_0000_0000_0000_0000 ==> x % 0x1_0000_0000_0000_0000 == x);
                    assert(x >= 0x1_0000_0000_0000_0000 ==> x % 0x1_0000_0000_0000_0000 == x - 0x1_0000_0000_0000_0000);
                }
            }
            let ghost before = labels_view(out@);
            let ghost nv = name@;
            out.push((name, off));
            proof {
                assert(labels_view(out@) =~= before.push((nv, off as nat)));
                assert(pre + add.take(j + 1) =~= (pre + add.take(j as int)).push(add[j as int]));
            }
            j = j + 1;
        }
        proof {
            assert(add.take(j as int) =~= add);
            let t = fs@.take(i + 1);
            assert(t.drop_last() =~= fs@.take(i as int));
            assert(t.last() == fs@[i as int]);
            lemma_base_take(fs@, i + 1, i as int);
            assert(labels_view(out@) =~= moved_labels(t, data));
        }
        i = i + 1;
    }
    proof {
        assert(fs@.take(i as int) =~= fs@);
    }
    out
}

proof fn lemma_le2_mod(v: nat)
    ensures
        le_bytes(v % 65536, 2) == le_bytes(v, 2),
{
    assert((v % 65536) % 256 == v % 256) by (nonlinear_arith);
    assert(((v % 65536) / 256) % 256 == (v / 256) % 256) by (nonlinear_arith);
    reveal_with_fuel(le_bytes, 3);
    assert(le_bytes(v % 65536, 2) =~= seq![((v % 65536) % 256) as u8, (((v % 65536) / 256) % 256) as u8]);
    assert(le_bytes(v, 2) =~= seq![(v % 256) as u8, ((v / 256) % 256) as u8]);
}

fn moved_exports_exec(fs: &Vec<MASIFile>, cb: &Vec<u64>, db: &Vec<u64>) -> (r: Vec<u8>)
    requires
        cb@.len() == fs@.len(),
        db@.len() == fs@.len(),
        forall|k: int| 0 <= k < fs@.len() ==> cb@[k] as nat == code_base(fs@, k) && db@[k] as nat == data_base(fs@, k),
    ensures
        r@ == export_bytes(moved_exports(fs@)),
{
    let mut body: Vec<u8> = Vec::new();
    let mut count: u16 = 0;
    let mut i: usize = 0;
    proof {
        assert(fs@.take(0) =~= Seq::<MASIFile>::empty());
    }
    while i < fs.len()
        invariant
            i <= fs@.len(),
            cb@.len() == fs@.len(),
            db@.len() == fs@.len(),
            forall|k: int| 0 <= k < fs@.len() ==> cb@[k] as nat == code_base(fs@, k) && db@[k] as nat == data_base(fs@, k),
            body@ == export_entries(moved_exports(fs@.take(i as int))),
            count as nat == moved_exports(fs@.take(i as int)).len() % 65536,
        decreases fs.len() - i,
    {
        let ex = &fs[i].exports;
        let ghost pre = moved_exports(fs@.take(i as int));
        let ghost add = export_view(ex@).map_values(
            |e: (u8, Seq<char>, u64)| (e.0, e.1, wadd((if e.0 == 0 { code_base(fs@, i as int) } else { data_base(fs@, i as int) }) as u64, e.2) as nat),
        );
        let mut j: usize = 0;
        proof {
            assert(pre + add.take(0) =~= pre);
        }
        while j < ex.len()
            invariant
                j <= ex@.len(),
                i < fs@.len(),
                cb@.len() == fs@.len(),
                db@.len() == fs@.len(),
                forall|k: int| 0 <= k < fs@.len() ==> cb@[k] as nat == code_base(fs@, k) && db@[k] as nat == data_base(fs@, k),
                add == export_view(ex@).map_values(
                    |e: (u8, Seq<char>, u64)| (e.0, e.1, wadd((if e.0 == 0 { code_base(fs@, i as int) } else { data_base(fs@, i as int) }) as u64, e.2) as nat),
                ),
                body@ == export_entries(pre + add.take(j as int)),
                count as nat == (pre + add.take(j as int)).len() % 65536,
            decreases ex.len() - j,
        {
            let e = &ex[j];
            let base = if e.kind == 0 { cb[i] } else { db[i] };
            let off = base.wrapping_add(e.offset);
            proof {
                assert(off == add[j as int].2) by {
                    let x = base as int + e.offset as int;
                    assert(x < 0x1_0000_0000_0000_0000 ==> x % 0x1_0000_0000_0000_0000 == x);
                    assert(x >= 0x1_0000_0000_0000_0000 ==> x % 0x1_0000_0000_0000_0000 == x - 0x1_0000_0000_0000_0000);
                }
            }
            body.push(e.kind);
            let n = str_chars(e.name.as_str());
            let b = crate::text::utf8_bytes(n.as_slice());
            push_le(b.len() as u64, 2, &mut body);
            append_all(&mut body, &b);
            write_u64_le(off, &mut body);
            proof {
                let l = pre + add.take(j + 1);
                assert(l.drop_last() =~= pre + add.take(j as int));
                assert(l.last() == add[j as int]);
                assert(body@ =~= export_entries(l));
            }
            count = count.wrapping_add(1);
            proof {
                assert(count as nat == (pre + add.take(j + 1)).len() % 65536) by {
                    let n0 = (pre + add.take(j as int)).len();
                    assert((pre + add.take(j + 1)).len() == n0 + 1);
                    assert(((n0 % 65536) + 1) % 65536 == (n0 + 1) % 65536) by (nonlinear_arith);
                }
            }
            j = j + 1;
        }
        proof {
            assert(add.take(j as int) =~= add);
            let t = fs@.take(i + 1);
            assert(t.drop_last() =~= fs@.take(i as int));
            assert(t.last() == fs@[i as int]);
            lemma_base_take(fs@, i + 1, i as int);
            assert(moved_exports(t) =~= pre + add);
        }
        i = i + 1;
    }
    proof {
        assert(fs@.take(i as int) =~= fs@);
    }
    let mut out: Vec<u8> = Vec::new();
    push_le(count as u64, 2, &mut out);
    proof {
        lemma_le2_mod(moved_exports(fs@).len());
    }
    append_all(&mut out, &body);
    out
}

} // verus!

verus! {

/// Links MASI files: code and data are concatenated in order, each
/// import's code references are patched with the linked offset of the
/// export that provides it, and the label and export tables are merged.
pub fn link_files(files: &Vec<MASIFile>) -> (r: Result<LinkedOutput, String>)
    ensures
        match link(files@) {
            Ok(b) => r matches Ok(o) && o.bytes@ == b,
            Err(m) => r matches Err(e) && e@ == m,
        },
{
    let ghost fs = files@;
    if files.len() == 0 {
        return Err(message("no input files"));
    }
    // section bases
    let mut cb: Vec<u64> = Vec::new();
    let mut db: Vec<u64> = Vec::new();
    let mut c: u64 = 0;
    let mut d: u64 = 0;
    let mut i: usize = 0;
    while i < files.len()
        invariant
            i <= fs.len(),
            fs == files@,
            cb@.len() == i,
            db@.len() == i,
            c as nat == code_base(fs, i as int),
            d as nat == data_base(fs, i as int),
            forall|k: int| 0 <= k < i ==> cb@[k] as nat == code_base(fs, k) && db@[k] as nat == data_base(fs, k),
        decreases files.len() - i,
    {
        cb.push(c);
        db.push(d);
        let cl = files[i].code.len() as u64;
        let dl = files[i].data.len() as u64;
        if cl > u64::MAX - c || dl > u64::MAX - d {
            proof {
                lemma_code_base_mono(fs, i + 1, fs.len() as int);
            }
            return Err(message("link output too large"));
        }
        c = c + cl;
        d = d + dl;
        i = i + 1;
    }
    let es = flatten_exports(files);
    let ims = flatten_imports(files);
    let ghost ev = exports_flat_view(es@);
    let ghost iv = imports_flat_view(ims@);
    match first_duplicate_exec(&es) {
        Some(j) => {
            return Err(duplicate_exec(es[j].0, es[j].1.as_slice()));
        },
        None => {},
    }
    // resolution and patches
    let mut ps: Vec<(u64, u64)> = Vec::new();
    let mut k: usize = 0;
    proof {
        assert(iv.take(0) =~= Seq::<(int, (u8, Seq<char>, Seq<(u8, u64)>))>::empty());
        assert(iv.skip(0) =~= iv);
    }
    while k < ims.len()
        invariant
            k <= ims@.len(),
            fs == files@,
            ev == exports_flat_view(es@),
            iv == imports_flat_view(ims@),
            ev == all_exports(fs),
            iv == all_imports(fs),
            cb@.len() == fs.len(),
            db@.len() == fs.len(),
            forall|q: int| 0 <= q < fs.len() ==> cb@[q] as nat == code_base(fs, q) && db@[q] as nat == data_base(fs, q),
            forall|q: int| 0 <= q < es@.len() ==> es@[q].2 < fs.len(),
            forall|q: int| 0 <= q < ims@.len() ==> ims@[q].0 < fs.len(),
            fs.len() > 0,
            code_base(fs, fs.len() as int) <= u64::MAX,
            data_base(fs, fs.len() as int) <= u64::MAX,
            first_unresolved(iv.skip(k as int), ev) == first_unresolved(iv, ev),
            first_duplicate(ev) is None,
            ps@ == patches(fs, iv.take(k as int), ev),
        decreases ims.len() - k,
    {
        let im = &ims[k];
        proof {
            assert(iv.skip(k as int)[0] == iv[k as int]);
            assert(iv.skip(k as int).drop_first() =~= iv.skip(k + 1));
            assert(iv.take(k + 1).drop_last() =~= iv.take(k as int));
            assert(iv.take(k + 1).last() == iv[k as int]);
        }
        match find_export_exec(&es, im.1, im.2.as_slice()) {
            None => {
                proof {
                    assert(iv[k as int].1.0 == im.1);
                    assert(iv[k as int].1.1 == im.2@);
                    assert(first_unresolved(iv, ev) == Some((im.1, im.2@)));
                }
                return Err(unresolved_exec(im.1, im.2.as_slice()));
            },
            Some((ei, off)) => {
                proof {
                    let q = choose|q: int| 0 <= q < es@.len() && es@[q].2 == ei;
                    assert(es@[q].2 < fs.len());
                }
                let t: u64 = if im.1 == 0 {
                    cb[ei].wrapping_add(off)
                } else if im.1 == 1 {
                    db[ei].wrapping_add(off)
                } else {
                    off
                };
                proof {
                    let x = (if im.1 == 0 { cb@[ei as int] } else { db@[ei as int] }) as int + off as int;
                    assert(x < 0x1_0000_0000_0000_0000 ==> x % 0x1_0000_0000_0000_0000 == x);
                    assert(x >= 0x1_0000_0000_0000_0000 ==> x % 0x1_0000_0000_0000_0000 == x - 0x1_0000_0000_0000_0000);
                    assert(t == target_of(fs, im.1, ei as int, off));
                }
                let base = cb[im.0];
                let refs = &im.3;
                let ghost pre = ps@;
                let mut j: usize = 0;
                proof {
                    assert(refs@.take(0) =~= Seq::<(u8, u64)>::empty());
                    assert(ps@ =~= pre + ref_patches(refs@.take(0), base, t));
                }
                while j < refs.len()
                    invariant
                        j <= refs@.len(),
                        ps@ == pre + ref_patches(refs@.take(j as int), base, t),
                    decreases refs.len() - j,
                {
                    proof {
                        assert(refs@.take(j + 1).drop_last() =~= refs@.take(j as int));
                        assert(refs@.take(j + 1).last() == refs@[j as int]);
                    }
                    if refs[j].0 == 0 {
                        let p = base.wrapping_add(refs[j].1);
                        proof {
                            let x = base as int + refs@[j as int].1 as int;
                            assert(x < 0x1_0000_0000_0000_0000 ==> x % 0x1_0000_0000_0000_0000 == x);
                            assert(x >= 0x1_0000_0000_0000_0000 ==> x % 0x1_0000_0000_0000_0000 == x
                                - 0x1_0000_0000_0000_0000);
                        }
                        ps.push((p, t));
                    }
                    proof {
                        assert(ps@ =~= pre + ref_patches(refs@.take(j + 1), base, t));
                    }
                    j = j + 1;
                }
                proof {
                    assert(refs@.take(j as int) =~= refs@);
                    assert(iv[k as int].1.2 == refs@);
                    assert(base as nat == code_base(fs, iv[k as int].0));
                }
            },
        }
        k = k + 1;
    }
    proof {
        assert(iv.skip(k as int) =~= Seq::<(int, (u8, Seq<char>, Seq<(u8, u64)>))>::empty());
        assert(iv.take(k as int) =~= iv);
    }
    // concatenated sections
    let mut code: Vec<u8> = Vec::new();
    let mut data: Vec<u8> = Vec::new();
    let mut i2: usize = 0;
    proof {
        assert(fs.take(0) =~= Seq::<MASIFile>::empty());
    }
    while i2 < files.len()
        invariant
            i2 <= fs.len(),
            fs == files@,
            code@ == concat_code(fs.take(i2 as int)),
            data@ == concat_data(fs.take(i2 as int)),
        decreases files.len() - i2,
    {
        append_all(&mut code, &files[i2].code);
        append_all(&mut data, &files[i2].data);
        proof {
            let t = fs.take(i2 + 1);
            assert(t.drop_last() =~= fs.take(i2 as int));
            assert(t.last() == fs[i2 as int]);
        }
        i2 = i2 + 1;
    }
    proof {
        assert(fs.take(i2 as int) =~= fs);
    }
    // patches
    let ghost c0 = code@;
    let mut q: usize = 0;
    proof {
        assert(ps@.take(0) =~= Seq::<(u64, u64)>::empty());
    }
    while q < ps.len()
        invariant
            q <= ps@.len(),
            code@ == apply_patches(c0, ps@.take(q as int)),
        decreases ps.len() - q,
    {
        let (p, v) = ps[q];
        proof {
            assert(ps@.take(q + 1).drop_last() =~= ps@.take(q as int));
            assert(ps@.take(q + 1).last() == (p, v));
        }
        if p <= code.len() as u64 && code.len() as u64 - p >= 8 {
            let mut b: Vec<u8> = Vec::new();
            write_u64_le(v, &mut b);
            proof {
                crate::le::lemma_le_bytes_len(v as nat, 8);
            }
            crate::vm::overwrite(&mut code, p as usize, &b);
        }
        q = q + 1;
    }
    proof {
        assert(ps@.take(q as int) =~= ps@);
    }
    // tables
    let locals_e = moved_labels_exec(files, &db, true);
    let labels_e = moved_labels_exec(files, &cb, false);
    let locals = offset_table_exec(&locals_e);
    let labels = offset_table_exec(&labels_e);
    let exports = moved_exports_exec(files, &cb, &db);
    let empty: Vec<u8> = Vec::new();
    let out = compose_masi(
        files[0].entry,
        empty.as_slice(),
        locals.as_slice(),
        labels.as_slice(),
        empty.as_slice(),
        data.as_slice(),
        exports.as_slice(),
        code.as_slice(),
    );
    proof {
        assert(empty@ =~= Seq::<u8>::empty());
    }
    Ok(LinkedOutput { bytes: out })
}

} // verus!

verus! {

// ------------------------------------------------------------ laws

/// The linked code section: all code, one file after another, with the
/// import references patched in.
pub open spec fn linked_code(fs: Seq<MASIFile>) -> Seq<u8> {
    apply_patches(concat_code(fs), patches(fs, all_imports(fs), all_exports(fs)))
}

/// Whether some patch writes the byte at `pos`.
pub open spec fn patched_at(ps: Seq<(u64, u64)>, pos: int) -> bool {
    exists|k: int| 0 <= k < ps.len() && (#[trigger] ps[k]).0 <= pos < ps[k].0 + 8
}

proof fn lemma_concat_len(fs: Seq<MASIFile>)
    ensures
        concat_code(fs).len() == code_base(fs, fs.len() as int),
        concat_data(fs).len() == data_base(fs, fs.len() as int),
    decreases fs.len(),
{
    if fs.len() > 0 {
        let n = fs.len() - 1;
        let p = fs.drop_last();
        lemma_concat_len(p);
        lemma_base_take(fs, n, n);
        assert(fs.take(n) =~= p);
    }
}

proof fn lemma_concat_place(fs: Seq<MASIFile>, i: int, j: int)
    requires
        0 <= i < fs.len(),
    ensures
        concat_code(fs).len() == code_base(fs, fs.len() as int),
        concat_data(fs).len() == data_base(fs, fs.len() as int),
        0 <= j < fs[i].code@.len() ==> concat_code(fs)[code_base(fs, i) + j] == fs[i].code@[j],
        0 <= j < fs[i].data@.len() ==> concat_data(fs)[data_base(fs, i) + j] == fs[i].data@[j],
    decreases fs.len(),
{
    let n = fs.len() - 1;
    let p = fs.drop_last();
    lemma_concat_len(fs);
    lemma_concat_len(p);
    lemma_base_take(fs, n, n);
    assert(fs.take(n) =~= p);
    if i < n {
        lemma_concat_place(p, i, j);
        lemma_base_take(fs, n, i);
        lemma_code_base_mono(fs, i + 1, n);
        assert(fs[i] == p[i]);
    }
}

proof fn lemma_apply_patches(code: Seq<u8>, ps: Seq<(u64, u64)>, pos: int)
    requires
        0 <= pos < code.len(),
        !patched_at(ps, pos),
    ensures
        apply_patches(code, ps).len() == code.len(),
        apply_patches(code, ps)[pos] == code[pos],
    decreases ps.len(),
{
    if ps.len() > 0 {
        let q = ps.drop_last();
        assert(!patched_at(q, pos)) by {
            if patched_at(q, pos) {
                let k = choose|k: int| 0 <= k < q.len() && (#[trigger] q[k]).0 <= pos < q[k].0 + 8;
                assert(ps[k] == q[k]);
            }
        }
        lemma_apply_patches(code, q, pos);
        let c = apply_patches(code, q);
        let (p, v) = ps.last();
        assert(!(p <= pos < p + 8));
        if p + 8 <= c.len() {
            crate::le::lemma_le_bytes_len(v as nat, 8);
            if pos < p {
                assert((c.take(p as int) + le_bytes(v as nat, 8) + c.skip(p + 8))[pos] == c[pos]);
            } else {
                assert((c.take(p as int) + le_bytes(v as nat, 8) + c.skip(p + 8))[pos] == c.skip(p + 8)[pos - p
                    - 8]);
            }
        }
    }
}

/// Linking places every file's code and data after those of the files
/// before it: a successful link's code section holds byte `j` of file
/// `i`'s code at the file's code base plus `j`, unless an import reference
/// was patched over it, and its data section holds byte `j` of file `i`'s
/// data at the file's data base plus `j`.
pub proof fn lemma_link_places_sections(fs: Seq<MASIFile>, i: int, j: int)
    requires
        0 <= i < fs.len(),
    ensures
        linked_code(fs).len() == code_base(fs, fs.len() as int),
        concat_data(fs).len() == data_base(fs, fs.len() as int),
        0 <= j < fs[i].code@.len() && !patched_at(
            patches(fs, all_imports(fs), all_exports(fs)),
            code_base(fs, i) + j,
        ) ==> linked_code(fs)[code_base(fs, i) + j] == fs[i].code@[j],
        0 <= j < fs[i].data@.len() ==> concat_data(fs)[data_base(fs, i) + j] == fs[i].data@[j],
{
    lemma_concat_place(fs, i, j);
    let ps = patches(fs, all_imports(fs), all_exports(fs));
    if 0 <= j < fs[i].code@.len() {
        lemma_code_base_mono(fs, i + 1, fs.len() as int);
        if !patched_at(ps, code_base(fs, i) + j) {
            lemma_apply_patches(concat_code(fs), ps, code_base(fs, i) + j);
        }
    }
    if concat_code(fs).len() > 0 {
        lemma_apply_patches_len(concat_code(fs), ps);
    } else {
        lemma_apply_patches_len(concat_code(fs), ps);
    }
}

/// Every patch that touches one of the eight bytes at `pos` writes `v`
/// there, so no other reference overlaps it.
pub open spec fn only_patch_at(ps: Seq<(u64, u64)>, pos: int, v: u64) -> bool {
    forall|k: int|
        0 <= k < ps.len() && (#[trigger] ps[k]).0 < pos + 8 && pos < ps[k].0 + 8 ==> ps[k].0 == pos && ps[k].1 == v
}

proof fn lemma_apply_patches_writes(code: Seq<u8>, ps: Seq<(u64, u64)>, pos: int, v: u64)
    requires
        0 <= pos <= u64::MAX,
        pos + 8 <= code.len(),
        ps.contains((pos as u64, v)),
        only_patch_at(ps, pos, v),
    ensures
        apply_patches(code, ps).subrange(pos, pos + 8) == le_bytes(v as nat, 8),
    decreases ps.len(),
{
    let q = ps.drop_last();
    lemma_apply_patches_len(code, q);
    let c = apply_patches(code, q);
    let (p, w) = ps.last();
    crate::le::lemma_le_bytes_len(w as nat, 8);
    crate::le::lemma_le_bytes_len(v as nat, 8);
    assert(ps[ps.len() - 1] == ps.last());
    if p == pos && w == v {
        assert((c.take(p as int) + le_bytes(v as nat, 8) + c.skip(p + 8)).subrange(pos, pos + 8) =~= le_bytes(
            v as nat,
            8,
        ));
    } else {
        let k = choose|k: int| 0 <= k < ps.len() && ps[k] == (pos as u64, v);
        assert(k < ps.len() - 1);
        assert(q[k] == ps[k]);
        assert forall|j: int|
            0 <= j < q.len() && (#[trigger] q[j]).0 < pos + 8 && pos < q[j].0 + 8 implies q[j].0 == pos && q[j].1
            == v by {
            assert(q[j] == ps[j]);
        }
        lemma_apply_patches_writes(code, q, pos, v);
        assert(!(p < pos + 8 && pos < p + 8));
        if p + 8 <= c.len() {
            let n = c.take(p as int) + le_bytes(w as nat, 8) + c.skip(p + 8);
            assert forall|x: int| pos <= x < pos + 8 implies n[x] == c[x] by {
                if x < p {
                } else {
                    assert(x >= p + 8);
                }
            }
            assert(n.subrange(pos, pos + 8) =~= c.subrange(pos, pos + 8));
        }
    }
}

proof fn lemma_ref_patches_contain(refs: Seq<(u8, u64)>, base: u64, t: u64, r: int)
    requires
        0 <= r < refs.len(),
        refs[r].0 == 0,
    ensures
        ref_patches(refs, base, t).contains((wadd(base, refs[r].1), t)),
    decreases refs.len(),
{
    let prev = ref_patches(refs.drop_last(), base, t);
    if r == refs.len() - 1 {
        let all = ref_patches(refs, base, t);
        assert(all[prev.len() as int] == (wadd(base, refs[r].1), t));
    } else {
        assert(refs.drop_last()[r] == refs[r]);
        lemma_ref_patches_contain(refs.drop_last(), base, t, r);
        let k = choose|k: int| 0 <= k < prev.len() && prev[k] == (wadd(base, refs[r].1), t);
        assert(ref_patches(refs, base, t)[k] == prev[k]);
    }
}

proof fn lemma_patches_contain(
    fs: Seq<MASIFile>,
    ims: Seq<(int, (u8, Seq<char>, Seq<(u8, u64)>))>,
    es: Seq<(u8, Seq<char>, int, u64)>,
    a: int,
    r: int,
    ei: int,
    off: u64,
)
    requires
        0 <= a < ims.len(),
        find_export(es, ims[a].1.0, ims[a].1.1) == Some((ei, off)),
        0 <= r < ims[a].1.2.len(),
        ims[a].1.2[r].0 == 0,
    ensures
        patches(fs, ims, es).contains(
            (wadd(code_base(fs, ims[a].0) as u64, ims[a].1.2[r].1), target_of(fs, ims[a].1.0, ei, off)),
        ),
    decreases ims.len(),
{
    let q = ims.drop_last();
    let prev = patches(fs, q, es);
    let e = (wadd(code_base(fs, ims[a].0) as u64, ims[a].1.2[r].1), target_of(fs, ims[a].1.0, ei, off));
    if a == ims.len() - 1 {
        let (i, im) = ims.last();
        lemma_ref_patches_contain(im.2, code_base(fs, i) as u64, target_of(fs, im.0, ei, off), r);
        let rp = ref_patches(im.2, code_base(fs, i) as u64, target_of(fs, im.0, ei, off));
        let k = choose|k: int| 0 <= k < rp.len() && rp[k] == e;
        assert(patches(fs, ims, es) == prev + rp);
        assert(patches(fs, ims, es)[prev.len() + k] == e);
    } else {
        assert(q[a] == ims[a]);
        lemma_patches_contain(fs, q, es, a, r, ei, off);
        let k = choose|k: int| 0 <= k < prev.len() && prev[k] == e;
        assert(patches(fs, ims, es)[k] == prev[k]);
    }
}

proof fn lemma_resolved(ims: Seq<(int, (u8, Seq<char>, Seq<(u8, u64)>))>, es: Seq<(u8, Seq<char>, int, u64)>, a: int)
    requires
        first_unresolved(ims, es) is None,
        0 <= a < ims.len(),
    ensures
        find_export(es, ims[a].1.0, ims[a].1.1) is Some,
    decreases ims.len(),
{
    if a > 0 {
        assert(ims.drop_first()[a - 1] == ims[a]);
        lemma_resolved(ims.drop_first(), es, a - 1);
    }
}

proof fn lemma_import_file(fs: Seq<MASIFile>, a: int)
    requires
        0 <= a < all_imports(fs).len(),
    ensures
        0 <= all_imports(fs)[a].0 < fs.len(),
    decreases fs.len(),
{
    let p = fs.drop_last();
    let prev = all_imports(p);
    if a < prev.len() {
        lemma_import_file(p, a);
        assert(all_imports(fs)[a] == prev[a]);
    }
}

/// Whether reference `r` of import `a` (in the order of files and of
/// appearance) is a code reference lying within its file's code that no
/// other reference overlaps with a different value.
pub open spec fn ref_in_place(fs: Seq<MASIFile>, a: int, r: int) -> bool {
    let (i, im) = all_imports(fs)[a];
    &&& 0 <= a < all_imports(fs).len()
    &&& 0 <= r < im.2.len()
    &&& im.2[r].0 == 0
    &&& 0 <= i < fs.len()
    &&& im.2[r].1 + 8 <= fs[i].code@.len()
    &&& (find_export(all_exports(fs), im.0, im.1) matches Some((ei, off)) ==> only_patch_at(
        patches(fs, all_imports(fs), all_exports(fs)),
        code_base(fs, i) + im.2[r].1,
        target_of(fs, im.0, ei, off),
    ))
}

/// Whether `code` holds, at the place of reference `r` of import `a`, the
/// moved offset of the export that the import names.
pub open spec fn ref_holds_target(fs: Seq<MASIFile>, code: Seq<u8>, a: int, r: int) -> bool {
    let (i, im) = all_imports(fs)[a];
    let pos = code_base(fs, i) + im.2[r].1;
    find_export(all_exports(fs), im.0, im.1) matches Some((ei, off)) && code.subrange(pos, pos + 8) == le_bytes(
        target_of(fs, im.0, ei, off) as nat,
        8,
    )
}

/// In a successful link, every code reference of an import that lies
/// within its file's code, and that no other reference overlaps with a
/// different value, holds, in the linked code at that file's code base
/// plus the reference's offset, the offset of the export it names moved
/// by the base of the exporting file's code or data.
pub proof fn lemma_link_patches_imports(fs: Seq<MASIFile>, a: int, r: int)
    requires
        link(fs) is Ok,
        ref_in_place(fs, a, r),
    ensures
        ref_holds_target(fs, linked_code(fs), a, r),
{
    let ims = all_imports(fs);
    let es = all_exports(fs);
    let (i, im) = ims[a];
    lemma_resolved(ims, es, a);
    let (ei, off) = find_export(es, im.0, im.1).unwrap();
    lemma_patches_contain(fs, ims, es, a, r, ei, off);
    let ps = patches(fs, ims, es);
    let pos = code_base(fs, i) + im.2[r].1;
    lemma_code_base_mono(fs, i + 1, fs.len() as int);
    assert(pos + 8 <= code_base(fs, fs.len() as int));
    assert(wadd(code_base(fs, i) as u64, im.2[r].1) == pos);
    lemma_concat_len(fs);
    lemma_apply_patches_writes(concat_code(fs), ps, pos, target_of(fs, im.0, ei, off));
}

proof fn lemma_export_file(fs: Seq<MASIFile>, k: int)
    requires
        0 <= k < all_exports(fs).len(),
    ensures
        0 <= all_exports(fs)[k].2 < fs.len(),
    decreases fs.len(),
{
    let p = fs.drop_last();
    let prev = all_exports(p);
    if k < prev.len() {
        lemma_export_file(p, k);
        assert(all_exports(fs)[k] == prev[k]);
    }
}

proof fn lemma_find_export_entry(es: Seq<(u8, Seq<char>, int, u64)>, kind: u8, name: Seq<char>)
    requires
        find_export(es, kind, name) is Some,
    ensures
        exists|k: int|
            0 <= k < es.len() && (#[trigger] es[k]).0 == kind && es[k].1 == name && (es[k].2, es[k].3) == find_export(
                es,
                kind,
                name,
            )->Some_0,
    decreases es.len(),
{
    if es.last().0 == kind && es.last().1 == name {
        assert(es[es.len() - 1] == es.last());
    } else {
        lemma_find_export_entry(es.drop_last(), kind, name);
        let k = choose|k: int|
            0 <= k < es.drop_last().len() && (#[trigger] es.drop_last()[k]).0 == kind && es.drop_last()[k].1 == name
                && (es.drop_last()[k].2, es.drop_last()[k].3) == find_export(es.drop_last(), kind, name)->Some_0;
        assert(es[k] == es.drop_last()[k]);
    }
}

/// In a successful link, a code reference of an import (in place, as
/// `ref_in_place` says) holds the address, in the linked image, of the
/// byte that the export it names marks: for a data import the exporting
/// file's data offset plus the data of all files before it, where the
/// linked data holds that file's byte; for a code import likewise in the
/// code.
pub proof fn lemma_link_reference_addresses_export(fs: Seq<MASIFile>, a: int, r: int)
    requires
        link(fs) is Ok,
        ref_in_place(fs, a, r),
    ensures
        ({
            let (i, im) = all_imports(fs)[a];
            let pos = code_base(fs, i) + im.2[r].1;
            let t = le_value(linked_code(fs).subrange(pos, pos + 8));
            find_export(all_exports(fs), im.0, im.1) matches Some((ei, off)) && 0 <= ei < fs.len() && (im.0 == 1
                && off < fs[ei].data@.len() ==> t == concat_data(fs.take(ei)).len() + off && concat_data(fs)[t as int]
                == fs[ei].data@[off as int]) && (im.0 == 0 && off < fs[ei].code@.len() ==> t == concat_code(
                fs.take(ei),
            ).len() + off && concat_code(fs)[t as int] == fs[ei].code@[off as int])
        }),
{
    let ims = all_imports(fs);
    let es = all_exports(fs);
    let (i, im) = ims[a];
    lemma_resolved(ims, es, a);
    let (ei, off) = find_export(es, im.0, im.1)->Some_0;
    lemma_find_export_entry(es, im.0, im.1);
    let k = choose|k: int|
        0 <= k < es.len() && (#[trigger] es[k]).0 == im.0 && es[k].1 == im.1 && (es[k].2, es[k].3) == (ei, off);
    lemma_export_file(fs, k);
    lemma_link_patches_imports(fs, a, r);
    let pos = code_base(fs, i) + im.2[r].1;
    let target = target_of(fs, im.0, ei, off);
    crate::le::lemma_le_roundtrip(target as nat, 8);
    crate::le::lemma_pow256_values();
    lemma_concat_len(fs.take(ei));
    lemma_base_take(fs, ei, ei);
    lemma_code_base_mono(fs, ei + 1, fs.len() as int);
    if im.0 == 1 && off < fs[ei].data@.len() {
        assert(data_base(fs, ei) + off < data_base(fs, fs.len() as int));
        assert(target == data_base(fs, ei) + off);
        lemma_concat_place(fs, ei, off as int);
    }
    if im.0 == 0 && off < fs[ei].code@.len() {
        assert(code_base(fs, ei) + off < code_base(fs, fs.len() as int));
        assert(target == code_base(fs, ei) + off);
        lemma_concat_place(fs, ei, off as int);
    }
}

/// The seven chunks of a linked image.
pub open spec fn link_chunks(fs: Seq<MASIFile>) -> Seq<Seq<u8>> {
    seq![
        seq![],
        offset_table(moved_labels(fs, true)),
        offset_table(moved_labels(fs, false)),
        seq![],
        concat_data(fs),
        export_bytes(moved_exports(fs)),
        linked_code(fs),
    ]
}

/// A linked image, when each of its chunks is under 4 GiB, has a sound
/// header and chunks, so it reads back, and what it reads back as is: the
/// first file's entry, no imports, the label tables and exports of all
/// files moved to where their sections went, the data of all files one
/// after another, and their code one after another, where byte `j` of file
/// `i`'s code stands at the file's code base plus `j` unless a reference
/// is patched over it, and each code reference of an import that lies in
/// its file's code and that no other reference overlaps holds the moved
/// offset of the export it names.
pub proof fn lemma_link_reads_back(fs: Seq<MASIFile>, m: MASIFile)
    requires
        link(fs) is Ok,
        chunks_small(link_chunks(fs)),
        decodes_to(link(fs)->Ok_0, m),
    ensures
        has_header(link(fs)->Ok_0),
        chunks_fit(link(fs)->Ok_0),
        m.version == 1,
        m.entry == fs[0].entry,
        import_view(m.imports@) == Seq::<(u8, Seq<char>, Seq<(u8, u64)>)>::empty(),
        offset_names(m.data_label_map@) == name_table(offset_table(moved_labels(fs, true)), data_fallback()),
        offset_names(m.label_map@) == name_table(offset_table(moved_labels(fs, false)), label_fallback()),
        export_view(m.exports@) == export_table(export_bytes(moved_exports(fs))),
        m.data@ == concat_data(fs),
        m.code@ == linked_code(fs),
        m.code@.len() == code_base(fs, fs.len() as int),
        forall|i: int, j: int|
            0 <= i < fs.len() && 0 <= j < fs[i].code@.len() && !patched_at(
                patches(fs, all_imports(fs), all_exports(fs)),
                code_base(fs, i) + j,
            ) ==> #[trigger] m.code@[code_base(fs, i) + j] == fs[i].code@[j],
        forall|i: int, j: int|
            0 <= i < fs.len() && 0 <= j < fs[i].data@.len() ==> #[trigger] m.data@[data_base(fs, i) + j]
                == fs[i].data@[j],
        forall|a: int, r: int| ref_in_place(fs, a, r) ==> #[trigger] ref_holds_target(fs, m.code@, a, r),
{
    lemma_link_result(fs);
    lemma_masi_image_decodes(fs[0].entry, link_chunks(fs));
    assert(link(fs)->Ok_0 == masi_image(fs[0].entry, link_chunks(fs)));
    assert(import_table(seq![]) == Seq::<(u8, Seq<char>, Seq<(u8, u64)>)>::empty());
    lemma_link_places_sections(fs, 0, 0);
    assert forall|i: int, j: int|
        0 <= i < fs.len() && 0 <= j < fs[i].code@.len() && !patched_at(
            patches(fs, all_imports(fs), all_exports(fs)),
            code_base(fs, i) + j,
        ) implies #[trigger] m.code@[code_base(fs, i) + j] == fs[i].code@[j] by {
        lemma_link_places_sections(fs, i, j);
    }
    assert forall|i: int, j: int| 0 <= i < fs.len() && 0 <= j < fs[i].data@.len() implies #[trigger] m.data@[data_base(
        fs,
        i,
    ) + j] == fs[i].data@[j] by {
        lemma_link_places_sections(fs, i, j);
    }
    assert forall|a: int, r: int| ref_in_place(fs, a, r) implies #[trigger] ref_holds_target(fs, m.code@, a, r) by {
        lemma_link_patches_imports(fs, a, r);
    }
}

proof fn lemma_apply_patches_len(code: Seq<u8>, ps: Seq<(u64, u64)>)
    ensures
        apply_patches(code, ps).len() == code.len(),
    decreases ps.len(),
{
    if ps.len() > 0 {
        lemma_apply_patches_len(code, ps.drop_last());
        crate::le::lemma_le_bytes_len(ps.last().1 as nat, 8);
    }
}

/// A successful link writes the linked image: the first file's entry, the
/// moved label tables and exports, the concatenated data and the linked
/// code; linking fails exactly when there is no file, a section outgrows
/// 64-bit offsets, a symbol is exported twice, or an import has no
/// matching export.
pub proof fn lemma_link_result(fs: Seq<MASIFile>)
    ensures
        link(fs) is Err <==> (fs.len() == 0 || code_base(fs, fs.len() as int) > u64::MAX || data_base(
            fs,
            fs.len() as int,
        ) > u64::MAX || first_duplicate(all_exports(fs)) is Some || first_unresolved(all_imports(fs), all_exports(fs))
            is Some),
        link(fs) is Ok ==> link(fs) == Ok::<Seq<u8>, Seq<char>>(
            masi_image(
                fs[0].entry,
                seq![
                    seq![],
                    offset_table(moved_labels(fs, true)),
                    offset_table(moved_labels(fs, false)),
                    seq![],
                    concat_data(fs),
                    export_bytes(moved_exports(fs)),
                    linked_code(fs),
                ],
            ),
        ),
{
}

} // verus!
