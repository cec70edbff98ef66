//! The MASI object format: a 16-byte header (`"MASI"`, version, reserved,
//! entry offset) followed by seven length-prefixed chunks (imports, data
//! labels, code labels, constants, data, exports, code), and its decoder.
use vstd::prelude::*;
use vstd::utf8::{valid_utf8, decode_utf8};
use crate::le::{le_value, le_bytes, read_u16_le, read_u32_le, read_u64_le};

verus! {

#[derive(Clone)]
pub struct ExportSym {
    pub kind: u8,
    pub name: String,
    pub offset: u64,
}

#[derive(Clone, Copy)]
pub struct ImportRef {
    pub section: u8,
    pub offset: u64,
}

#[derive(Clone)]
pub struct ImportSym {
    pub kind: u8,
    pub name: String,
    pub refs: Vec<ImportRef>,
}

/// Byte sizes of the seven chunks of a MASI file.
#[derive(Clone, Copy)]
pub struct SectionSizes {
    pub import: usize,
    pub locals: usize,
    pub labels: usize,
    pub constants: usize,
    pub data: usize,
    pub export: usize,
    pub code: usize,
}

#[derive(Clone)]
pub struct MASIFile {
    pub version: u16,
    pub entry: u64,
    /// Code offset to label name, one entry per offset.
    pub label_map: Vec<(u64, String)>,
    pub code: Vec<u8>,
    pub section_sizes: SectionSizes,
    /// Data offset to label name, one entry per offset.
    pub data_label_map: Vec<(u64, String)>,
    pub data: Vec<u8>,
    pub exports: Vec<ExportSym>,
    pub imports: Vec<ImportSym>,
}

/// Decodes a UTF-8 name, as `String::from_utf8` does.
#[verifier::external_body]
pub(crate) fn utf8_string(b: &[u8]) -> (r: Option<String>)
    ensures
        r is Some <==> valid_utf8(b@),
        r matches Some(s) ==> s@ == decode_utf8(b@),
{
    String::from_utf8(b.to_vec()).ok()
}

// ---------------------------------------------------------------- spec

pub open spec fn le16(b: Seq<u8>, off: int) -> nat {
    le_value(b.subrange(off, off + 2))
}

pub open spec fn le32(b: Seq<u8>, off: int) -> nat {
    le_value(b.subrange(off, off + 4))
}

pub open spec fn le64(b: Seq<u8>, off: int) -> nat {
    le_value(b.subrange(off, off + 8))
}

/// The chunks that start at `off`, `k` of them, when they all fit.
pub open spec fn chunk_list(b: Seq<u8>, off: int, k: nat) -> Option<Seq<Seq<u8>>>
    decreases k,
{
    if k == 0 {
        Some(seq![])
    } else if off + 4 > b.len() {
        None
    } else {
        let sz = le32(b, off as int);
        if off + 4 + sz > b.len() {
            None
        } else {
            match chunk_list(b, off + 4 + sz, (k - 1) as nat) {
                Some(rest) => Some(seq![b.subrange(off + 4, off + 4 + sz)] + rest),
                None => None,
            }
        }
    }
}

pub open spec fn has_header(b: Seq<u8>) -> bool {
    b.len() >= 16 && b.take(4) == seq![77u8, 65u8, 83u8, 73u8]
}

/// A file whose header is sound and whose seven chunks lie within it.
pub open spec fn chunks_fit(b: Seq<u8>) -> bool {
    chunk_list(b, 16, 7) is Some
}

pub open spec fn name_or(b: Seq<u8>, fallback: Seq<char>) -> Seq<char> {
    if valid_utf8(b) {
        decode_utf8(b)
    } else {
        fallback
    }
}

pub open spec fn key_index(l: Seq<(u64, Seq<char>)>, k: u64) -> Option<int>
    decreases l.len(),
{
    if l.len() == 0 {
        None
    } else {
        match key_index(l.drop_last(), k) {
            Some(i) => Some(i),
            None => if l.last().0 == k {
                Some(l.len() - 1)
            } else {
                None
            },
        }
    }
}

/// Inserting into an offset-keyed map: an existing entry is replaced in
/// place, a new key is appended.
pub open spec fn map_insert(l: Seq<(u64, Seq<char>)>, k: u64, v: Seq<char>) -> Seq<(u64, Seq<char>)> {
    match key_index(l, k) {
        Some(i) => l.update(i, (k, v)),
        None => l.push((k, v)),
    }
}

/// Entries of a name table (`nameLen u16, name, offset u64`), read from
/// `off` with `n` entries left, inserted into `acc`.
pub open spec fn name_entries(
    t: Seq<u8>,
    off: int,
    n: nat,
    fallback: Seq<char>,
    acc: Seq<(u64, Seq<char>)>,
) -> Seq<(u64, Seq<char>)>
    decreases n,
{
    if n == 0 || off + 2 > t.len() {
        acc
    } else {
        let len = le16(t, off as int);
        if off + 2 + len + 8 > t.len() {
            acc
        } else {
            let name = name_or(t.subrange(off + 2, off + 2 + len), fallback);
            let addr = le64(t, off + 2 + len) as u64;
            name_entries(t, off + 2 + len + 8, (n - 1) as nat, fallback, map_insert(acc, addr, name))
        }
    }
}

pub open spec fn name_table(t: Seq<u8>, fallback: Seq<char>) -> Seq<(u64, Seq<char>)> {
    if t.len() >= 2 {
        name_entries(t, 2, le16(t, 0), fallback, seq![])
    } else {
        seq![]
    }
}

/// Export entries (`kind u8, nameLen u16, name, offset u64`).
pub open spec fn export_entries(t: Seq<u8>, off: int, n: nat) -> Seq<(u8, Seq<char>, u64)>
    decreases n,
{
    if n == 0 || off + 3 > t.len() {
        seq![]
    } else {
        let kind = t[off];
        let len = le16(t, off + 1);
        if off + 3 + len + 8 > t.len() {
            seq![]
        } else {
            let name = name_or(t.subrange(off + 3, off + 3 + len), seq![]);
            let o = le64(t, off + 3 + len) as u64;
            seq![(kind, name, o)] + export_entries(t, off + 3 + len + 8, (n - 1) as nat)
        }
    }
}

pub open spec fn export_table(t: Seq<u8>) -> Seq<(u8, Seq<char>, u64)> {
    if t.len() >= 2 {
        export_entries(t, 2, le16(t, 0))
    } else {
        seq![]
    }
}

/// References of one import (`section u8, offset u64`), `n` left; also the
/// offset after them.
pub open spec fn ref_entries(t: Seq<u8>, off: int, n: nat) -> (Seq<(u8, u64)>, int)
    decreases n,
{
    if n == 0 || off + 9 > t.len() {
        (seq![], off)
    } else {
        let r = (t[off], le64(t, off + 1) as u64);
        let rest = ref_entries(t, off + 9, (n - 1) as nat);
        (seq![r] + rest.0, rest.1)
    }
}

/// Import entries (`kind u8, nameLen u16, name, refCount u16, refs`).
pub open spec fn import_entries(t: Seq<u8>, off: int, n: nat) -> Seq<(u8, Seq<char>, Seq<(u8, u64)>)>
    decreases n,
{
    if n == 0 || off + 3 > t.len() {
        seq![]
    } else {
        let kind = t[off];
        let len = le16(t, off + 1);
        if off + 3 + len + 2 > t.len() {
            seq![]
        } else {
            let name = name_or(t.subrange(off + 3, off + 3 + len), seq![]);
            let rc = le16(t, off + 3 + len);
            let refs = ref_entries(t, off + 3 + len + 2, rc);
            seq![(kind, name, refs.0)] + import_entries(t, refs.1, (n - 1) as nat)
        }
    }
}

pub open spec fn import_table(t: Seq<u8>) -> Seq<(u8, Seq<char>, Seq<(u8, u64)>)> {
    if t.len() >= 2 {
        import_entries(t, 2, le16(t, 0))
    } else {
        seq![]
    }
}

pub open spec fn label_fallback() -> Seq<char> {
    seq!['l', 'a', 'b', 'e', 'l', '_', '?']
}

pub open spec fn data_fallback() -> Seq<char> {
    seq!['d', 'a', 't', 'a', '_', '?']
}

pub open spec fn offset_names(v: Seq<(u64, String)>) -> Seq<(u64, Seq<char>)> {
    v.map_values(|p: (u64, String)| (p.0, p.1@))
}

pub open spec fn export_view(v: Seq<ExportSym>) -> Seq<(u8, Seq<char>, u64)> {
    v.map_values(|e: ExportSym| (e.kind, e.name@, e.offset))
}

pub open spec fn refs_view(v: Seq<ImportRef>) -> Seq<(u8, u64)> {
    v.map_values(|r: ImportRef| (r.section, r.offset))
}

pub open spec fn import_view(v: Seq<ImportSym>) -> Seq<(u8, Seq<char>, Seq<(u8, u64)>)> {
    v.map_values(|i: ImportSym| (i.kind, i.name@, refs_view(i.refs@)))
}

pub open spec fn sizes_of(s: SectionSizes) -> Seq<nat> {
    seq![
        s.import as nat,
        s.locals as nat,
        s.labels as nat,
        s.constants as nat,
        s.data as nat,
        s.export as nat,
        s.code as nat,
    ]
}

/// What `parse_masi_bytes` decodes from a file with sound chunks.
pub open spec fn decodes_to(b: Seq<u8>, m: MASIFile) -> bool {
    let c = chunk_list(b, 16, 7).unwrap();
    &&& m.version as nat == le16(b, 4)
    &&& m.entry as nat == le64(b, 8)
    &&& offset_names(m.label_map@) == name_table(c[2], label_fallback())
    &&& offset_names(m.data_label_map@) == name_table(c[1], data_fallback())
    &&& m.code@ == c[6]
    &&& m.data@ == c[4]
    &&& export_view(m.exports@) == export_table(c[5])
    &&& import_view(m.imports@) == import_table(c[0])
    &&& sizes_of(m.section_sizes) == c.map_values(|x: Seq<u8>| x.len())
}

// ---------------------------------------------------------------- exec

/// Whether the seven chunks of `b` lie within it (`b` must have a header).
pub fn check_chunks_fit(b: &[u8]) -> (r: bool)
    requires
        b@.len() >= 16,
    ensures
        r == chunks_fit(b@),
{
    let mut off: usize = 16;
    let mut k: usize = 7;
    while k > 0
        invariant
            16 <= off <= b@.len(),
            k <= 7,
            chunks_fit(b@) == (chunk_list(b@, off as int, k as nat) is Some),
        decreases k,
    {
        if b.len() - off < 4 {
            return false;
        }
        let mut o = off;
        let sz = read_u32_le(b, &mut o) as usize;
        if sz > b.len() - (off + 4) {
            return false;
        }
        off = off + 4 + sz;
        k = k - 1;
    }
    true
}

fn map_insert_exec(l: &mut Vec<(u64, String)>, k: u64, v: String)
    ensures
        offset_names(final(l)@) == map_insert(offset_names(old(l)@), k, v@),
{
    let ghost lv = offset_names(l@);
    let mut i: usize = 0;
    while i < l.len()
        invariant
            i <= l@.len(),
            lv == offset_names(l@),
            lv == offset_names(old(l)@),
            key_index(lv.take(i as int), k) is None,
        decreases l.len() - i,
    {
        proof {
            assert(lv.take(i + 1).drop_last() =~= lv.take(i as int));
        }
        if l[i].0 == k {
            proof {
                assert(lv[i as int].0 == k);
                lemma_key_index_prefix(lv, k, (i + 1) as int);
            }
            let ghost vv = v@;
            l.set(i, (k, v));
            proof {
                assert(offset_names(l@) =~= lv.update(i as int, (k, vv)));
                assert(map_insert(lv, k, vv) == lv.update(i as int, (k, vv)));
                assert(lv == offset_names(old(l)@));
                assert(vv == v@);
                assert(offset_names(l@) == map_insert(offset_names(old(l)@), k, v@));
            }
            return;
        }
        i = i + 1;
    }
    proof {
        assert(lv.take(i as int) =~= lv);
    }
    l.push((k, v));
    proof {
        assert(offset_names(l@) =~= lv.push((k, v@)));
    }
}

proof fn lemma_key_index_prefix(l: Seq<(u64, Seq<char>)>, k: u64, n: int)
    requires
        0 < n <= l.len(),
        key_index(l.take(n - 1), k) is None,
        l[n - 1].0 == k,
    ensures
        key_index(l, k) == Some(n - 1),
    decreases l.len(),
{
    assert(l.take(n).drop_last() =~= l.take(n - 1));
    if n == l.len() {
        assert(l.take(n) =~= l);
    } else {
        assert(l.drop_last().take(n - 1) =~= l.take(n - 1));
        lemma_key_index_prefix(l.drop_last(), k, n);
    }
}

fn name_from(t: &[u8], start: usize, len: usize, fallback: &[char]) -> (r: String)
    requires
        start + len <= t@.len(),
    ensures
        r@ == name_or(t@.subrange(start as int, start + len), fallback@),
{
    let n = t.len();
    let bytes = crate::le::copy_bytes(t, start, start + len);
    match utf8_string(bytes.as_slice()) {
        Some(s) => s,
        None => crate::text::chars_to_string(fallback),
    }
}

fn parse_name_table(t: &[u8], fallback: &[char]) -> (r: Vec<(u64, String)>)
    ensures
        offset_names(r@) == name_table(t@, fallback@),
{
    let mut acc: Vec<(u64, String)> = Vec::new();
    if t.len() < 2 {
        return acc;
    }
    let mut off: usize = 0;
    let count = read_u16_le(t, &mut off) as usize;
    let mut left = count;
    proof {
        assert(offset_names(acc@) =~= Seq::<(u64, Seq<char>)>::empty());
    }
    while left > 0
        invariant
            off <= t@.len(),
            name_entries(t@, off as int, left as nat, fallback@, offset_names(acc@)) == name_table(t@, fallback@),
        ensures
            name_entries(t@, off as int, left as nat, fallback@, offset_names(acc@)) == offset_names(acc@),
        decreases left,
    {
        if t.len() - off < 2 {
            break;
        }
        let mut o = off;
        let len = read_u16_le(t, &mut o) as usize;
        if len + 8 > t.len() - o {
            break;
        }
        let name = name_from(t, o, len, fallback);
        let mut o2 = o + len;
        let addr = read_u64_le(t, &mut o2);
        map_insert_exec(&mut acc, addr, name);
        off = o2;
        left = left - 1;
    }
    acc
}

fn parse_exports(t: &[u8]) -> (r: Vec<ExportSym>)
    ensures
        export_view(r@) == export_table(t@),
{
    let mut out: Vec<ExportSym> = Vec::new();
    if t.len() < 2 {
        assert(export_view(out@) =~= Seq::<(u8, Seq<char>, u64)>::empty());
        return out;
    }
    let mut off: usize = 0;
    let count = read_u16_le(t, &mut off) as usize;
    let mut left = count;
    proof {
        assert(export_view(out@) + export_entries(t@, 2, count as nat) =~= export_table(t@));
    }
    while left > 0
        invariant
            off <= t@.len(),
            export_view(out@) + export_entries(t@, off as int, left as nat) == export_table(t@),
        ensures
            export_entries(t@, off as int, left as nat) == Seq::<(u8, Seq<char>, u64)>::empty(),
        decreases left,
    {
        if t.len() - off < 3 {
            break;
        }
        let kind = t[off];
        let mut o = off + 1;
        let len = read_u16_le(t, &mut o) as usize;
        if len + 8 > t.len() - o {
            break;
        }
        let name = name_from(t, o, len, &[]);
        let mut o2 = o + len;
        let offv = read_u64_le(t, &mut o2);
        proof {
            assert(kind == t@[off as int]);
            assert(len as nat == le16(t@, off + 1));
            assert(name@ == name_or(t@.subrange(off + 3, off + 3 + len), seq![]));
            assert(offv as nat == le64(t@, off + 3 + len));
            assert(export_entries(t@, off as int, left as nat) == seq![(kind, name@, offv)] + export_entries(t@, o2 as int, (left - 1) as nat));
        }
        let ghost before = export_view(out@);
        let e = ExportSym { kind, name, offset: offv };
        out.push(e);
        proof {
            assert(export_view(out@) =~= before.push((kind, e.name@, offv)));
        }
        off = o2;
        left = left - 1;
    }
    proof {
        assert(export_view(out@) + export_entries(t@, off as int, left as nat) =~= export_view(out@));
    }
    out
}

fn parse_refs(t: &[u8], off: &mut usize, n: usize) -> (r: Vec<ImportRef>)
    requires
        *old(off) <= t@.len(),
    ensures
        refs_view(r@) == ref_entries(t@, *old(off) as int, n as nat).0,
        *final(off) as int == ref_entries(t@, *old(off) as int, n as nat).1,
        *final(off) <= t@.len(),
{
    let mut out: Vec<ImportRef> = Vec::new();
    let mut left = n;
    let ghost start = *off;
    proof {
        assert(refs_view(out@) + ref_entries(t@, start as int, n as nat).0 =~= ref_entries(t@, start as int, n as nat).0);
    }
    while left > 0
        invariant
            *off <= t@.len(),
            refs_view(out@) + ref_entries(t@, *off as int, left as nat).0 == ref_entries(t@, start as int, n as nat).0,
            ref_entries(t@, *off as int, left as nat).1 == ref_entries(t@, start as int, n as nat).1,
        ensures
            ref_entries(t@, *off as int, left as nat).0 == Seq::<(u8, u64)>::empty(),
            ref_entries(t@, *off as int, left as nat).1 == *off as int,
        decreases left,
    {
        if 9 > t.len() - *off {
            break;
        }
        let section = t[*off];
        let mut o = *off + 1;
        let offv = read_u64_le(t, &mut o);
        let ghost before = refs_view(out@);
        out.push(ImportRef { section, offset: offv });
        proof {
            assert(refs_view(out@) =~= before.push((section, offv)));
        }
        *off = o;
        left = left - 1;
    }
    proof {
        assert(refs_view(out@) + ref_entries(t@, *off as int, left as nat).0 =~= refs_view(out@));
    }
    out
}

fn parse_imports(t: &[u8]) -> (r: Vec<ImportSym>)
    ensures
        import_view(r@) == import_table(t@),
{
    let mut out: Vec<ImportSym> = Vec::new();
    if t.len() < 2 {
        assert(import_view(out@) =~= Seq::<(u8, Seq<char>, Seq<(u8, u64)>)>::empty());
        return out;
    }
    let mut off: usize = 0;
    let count = read_u16_le(t, &mut off) as usize;
    let mut left = count;
    proof {
        assert(import_view(out@) + import_entries(t@, 2, count as nat) =~= import_table(t@));
    }
    while left > 0
        invariant
            off <= t@.len(),
            import_view(out@) + import_entries(t@, off as int, left as nat) == import_table(t@),
        ensures
            import_entries(t@, off as int, left as nat) == Seq::<(u8, Seq<char>, Seq<(u8, u64)>)>::empty(),
        decreases left,
    {
        if t.len() - off < 3 {
            break;
        }
        let kind = t[off];
        let mut o = off + 1;
        let len = read_u16_le(t, &mut o) as usize;
        if len + 2 > t.len() - o {
            break;
        }
        let name = name_from(t, o, len, &[]);
        let mut o2 = o + len;
        let rc = read_u16_le(t, &mut o2) as usize;
        let ghost o3 = o2;
        let refs = parse_refs(t, &mut o2, rc);
        proof {
            assert(kind == t@[off as int]);
            assert(len as nat == le16(t@, off + 1));
            assert(name@ == name_or(t@.subrange(off + 3, off + 3 + len), seq![]));
            assert(rc as nat == le16(t@, off + 3 + len));
            assert(o3 == off + 3 + len + 2);
            assert(import_entries(t@, off as int, left as nat) == seq![(kind, name@, refs_view(refs@))] + import_entries(t@, o2 as int, (left - 1) as nat));
        }
        let ghost before = import_view(out@);
        let im = ImportSym { kind, name, refs };
        out.push(im);
        proof {
            assert(import_view(out@) =~= before.push((kind, im.name@, refs_view(im.refs@))));
        }
        off = o2;
        left = left - 1;
    }
    proof {
        assert(import_view(out@) + import_entries(t@, off as int, left as nat) =~= import_view(out@));
    }
    out
}

/// Decodes a MASI file. Files shorter than 16 bytes and files without the
/// `"MASI"` magic are refused; a file with a header must have its seven
/// chunks within its length.
pub fn parse_masi_bytes(bytes: &[u8]) -> (r: Result<MASIFile, String>)
    requires
        has_header(bytes@) ==> chunks_fit(bytes@),
    ensures
        bytes@.len() < 16 ==> (r matches Err(e) && e@ == "File too small"@),
        bytes@.len() >= 16 && !has_header(bytes@) ==> (r matches Err(e) && e@ == "Bad magic"@),
        has_header(bytes@) ==> (r matches Ok(m) && decodes_to(bytes@, m)),
        (r matches Err(e) && e@ == "File too small"@) <==> bytes@.len() < 16,
{
    if bytes.len() < 16 {
        let c = crate::text::str_chars("File too small");
        return Err(crate::text::chars_to_string(c.as_slice()));
    }
    if !(bytes[0] == 77 && bytes[1] == 65 && bytes[2] == 83 && bytes[3] == 73) {
        proof {
            if has_header(bytes@) {
                assert(bytes@.take(4)[0] == bytes@[0]);
                assert(bytes@.take(4)[1] == bytes@[1]);
                assert(bytes@.take(4)[2] == bytes@[2]);
                assert(bytes@.take(4)[3] == bytes@[3]);
            }
        }
        proof {
            reveal_strlit("Bad magic");
            reveal_strlit("File too small");
            assert("Bad magic"@.len() != "File too small"@.len());
        }
        let c = crate::text::str_chars("Bad magic");
        return Err(crate::text::chars_to_string(c.as_slice()));
    }
    proof {
        assert(bytes@.take(4) =~= seq![77u8, 65u8, 83u8, 73u8]);
    }
    let mut off: usize = 4;
    let version = read_u16_le(bytes, &mut off);
    let _reserved = read_u16_le(bytes, &mut off);
    let entry = read_u64_le(bytes, &mut off);
    let mut chunks: Vec<Vec<u8>> = Vec::new();
    let ghost all = chunk_list(bytes@, 16, 7).unwrap();
    proof {
        assert(chunks@.map_values(|x: Vec<u8>| x@) + chunk_list(bytes@, 16, 7).unwrap() =~= all);
    }
    while chunks.len() < 7
        invariant
            16 <= off <= bytes@.len(),
            chunks@.len() <= 7,
            chunk_list(bytes@, off as int, (7 - chunks@.len()) as nat) is Some,
            chunks@.map_values(|x: Vec<u8>| x@) + chunk_list(bytes@, off as int, (7 - chunks@.len()) as nat).unwrap() == all,
        decreases 7 - chunks@.len(),
    {
        let ghost k = (7 - chunks@.len()) as nat;
        let mut o = off;
        let n = bytes.len();
        let sz = read_u32_le(bytes, &mut o) as usize;
        assert(sz as nat == le32(bytes@, off as int));
        let part = crate::le::copy_bytes(bytes, o, o + sz);
        let ghost before = chunks@.map_values(|x: Vec<u8>| x@);
        chunks.push(part);
        proof {
            assert(chunks@.map_values(|x: Vec<u8>| x@) =~= before.push(part@));
            let rest = chunk_list(bytes@, off + 4 + sz, (k - 1) as nat).unwrap();
            assert(before + (seq![part@] + rest) =~= before.push(part@) + rest);
        }
        off = o + sz;
    }
    let ghost cv = chunks@.map_values(|x: Vec<u8>| x@);
    proof {
        assert(chunk_list(bytes@, off as int, 0) == Some(Seq::<Seq<u8>>::empty()));
        assert(cv =~= all);
        assert(cv[0] == chunks@[0]@);
    }
    let code = chunks.pop().unwrap();
    let export_table_b = chunks.pop().unwrap();
    let data_table = chunks.pop().unwrap();
    let const_table = chunks.pop().unwrap();
    let label_table = chunks.pop().unwrap();
    let local_var_table = chunks.pop().unwrap();
    let import_table_b = chunks.pop().unwrap();
    proof {
        assert(code@ == all[6]);
        assert(export_table_b@ == all[5]);
        assert(data_table@ == all[4]);
        assert(const_table@ == all[3]);
        assert(label_table@ == all[2]);
        assert(local_var_table@ == all[1]);
        assert(import_table_b@ == all[0]);
    }
    let lf = vec!['l', 'a', 'b', 'e', 'l', '_', '?'];
    let df = vec!['d', 'a', 't', 'a', '_', '?'];
    let label_map = parse_name_table(label_table.as_slice(), lf.as_slice());
    let data_label_map = parse_name_table(local_var_table.as_slice(), df.as_slice());
    let exports = parse_exports(export_table_b.as_slice());
    let imports = parse_imports(import_table_b.as_slice());
    let sizes = SectionSizes {
        import: import_table_b.len(),
        locals: local_var_table.len(),
        labels: label_table.len(),
        constants: const_table.len(),
        data: data_table.len(),
        export: export_table_b.len(),
        code: code.len(),
    };
    proof {
        assert(sizes_of(sizes) =~= all.map_values(|x: Seq<u8>| x.len()));
    }
    Ok(MASIFile {
        version,
        entry,
        label_map,
        code,
        section_sizes: sizes,
        data_label_map,
        data: data_table,
        exports,
        imports,
    })
}

} // verus!

verus! {

/// The chunk area: each chunk prefixed by its length as a `u32`.
pub open spec fn chunks_image(cs: Seq<Seq<u8>>) -> Seq<u8>
    decreases cs.len(),
{
    if cs.len() == 0 {
        seq![]
    } else {
        le_bytes((cs[0].len() as u32) as nat, 4) + cs[0] + chunks_image(cs.drop_first())
    }
}

pub open spec fn header_image(entry: u64) -> Seq<u8> {
    seq![77u8, 65u8, 83u8, 73u8] + le_bytes(1, 2) + le_bytes(0, 2) + le_bytes(entry as nat, 8)
}

/// A MASI file with the given entry offset and chunks.
pub open spec fn masi_image(entry: u64, cs: Seq<Seq<u8>>) -> Seq<u8> {
    header_image(entry) + chunks_image(cs)
}

pub open spec fn chunks_small(cs: Seq<Seq<u8>>) -> bool {
    forall|i: int| 0 <= i < cs.len() ==> (#[trigger] cs[i]).len() <= u32::MAX
}

pub fn append_bytes(out: &mut Vec<u8>, b: &[u8])
    ensures
        final(out)@ == old(out)@ + b@,
{
    let ghost before = out@;
    let mut j: usize = 0;
    while j < b.len()
        invariant
            j <= b@.len(),
            out@ == before + b@.take(j as int),
        decreases b.len() - j,
    {
        out.push(b[j]);
        j = j + 1;
        assert(out@ =~= before + b@.take(j as int));
    }
    assert(b@.take(b@.len() as int) =~= b@);
}

/// Appends a chunk: its length as a `u32`, then its bytes.
pub fn push_chunk(out: &mut Vec<u8>, d: &[u8])
    ensures
        final(out)@ == old(out)@ + le_bytes((d@.len() as u32) as nat, 4) + d@,
{
    crate::le::write_u32_le(d.len() as u32, out);
    append_bytes(out, d);
}

/// Writes the 16-byte header: magic, version 1, reserved 0, entry.
pub fn push_header(out: &mut Vec<u8>, entry: u64)
    ensures
        final(out)@ == old(out)@ + header_image(entry),
{
    let ghost before = out@;
    out.push(77u8);
    out.push(65u8);
    out.push(83u8);
    out.push(73u8);
    crate::le::write_u16_le(1, out);
    crate::le::write_u16_le(0, out);
    crate::le::write_u64_le(entry, out);
    assert(out@ =~= before + header_image(entry));
}

proof fn lemma_chunk_list_image(pre: Seq<u8>, cs: Seq<Seq<u8>>)
    requires
        chunks_small(cs),
    ensures
        chunk_list(pre + chunks_image(cs), pre.len() as int, cs.len()) == Some(cs),
    decreases cs.len(),
{
    let b = pre + chunks_image(cs);
    if cs.len() > 0 {
        let c0 = cs[0];
        let lb = le_bytes((c0.len() as u32) as nat, 4);
        crate::le::lemma_le_bytes_len((c0.len() as u32) as nat, 4);
        let pre2 = pre + lb + c0;
        let rest = cs.drop_first();
        assert(chunks_small(rest)) by {
            assert forall|i: int| 0 <= i < rest.len() implies (#[trigger] rest[i]).len() <= u32::MAX by {
                assert(rest[i] == cs[i + 1]);
            }
        }
        lemma_chunk_list_image(pre2, rest);
        assert(b =~= pre2 + chunks_image(rest));
        let off = pre.len() as int;
        assert(b.subrange(off, off + 4) =~= lb);
        crate::le::lemma_le_roundtrip((c0.len() as u32) as nat, 4);
        crate::le::lemma_pow256_values();
        assert(c0.len() <= u32::MAX);
        assert(le32(b, off) == c0.len());
        assert(b.subrange(off + 4, off + 4 + c0.len()) =~= c0);
        assert(seq![c0] + rest =~= cs);
    }
}

/// Reading back what was written: a composed MASI file has a sound
/// header and chunks, and decodes to the entry and chunks it was made of.
pub proof fn lemma_masi_image_decodes(entry: u64, cs: Seq<Seq<u8>>)
    requires
        cs.len() == 7,
        chunks_small(cs),
    ensures
        has_header(masi_image(entry, cs)),
        chunks_fit(masi_image(entry, cs)),
        chunk_list(masi_image(entry, cs), 16, 7) == Some(cs),
        le16(masi_image(entry, cs), 4) == 1,
        le64(masi_image(entry, cs), 8) == entry,
{
    let b = masi_image(entry, cs);
    let h = header_image(entry);
    crate::le::lemma_le_bytes_len(1, 2);
    crate::le::lemma_le_bytes_len(0, 2);
    crate::le::lemma_le_bytes_len(entry as nat, 8);
    assert(h.len() == 16);
    lemma_chunk_list_image(h, cs);
    assert(b.take(4) =~= seq![77u8, 65u8, 83u8, 73u8]);
    assert(b.subrange(4, 6) =~= le_bytes(1, 2));
    assert(b.subrange(8, 16) =~= le_bytes(entry as nat, 8));
    crate::le::lemma_le_roundtrip(1, 2);
    crate::le::lemma_le_roundtrip(entry as nat, 8);
    crate::le::lemma_pow256_values();
}

proof fn lemma_chunks_image_snoc(cs: Seq<Seq<u8>>, d: Seq<u8>)
    ensures
        chunks_image(cs.push(d)) == chunks_image(cs) + le_bytes((d.len() as u32) as nat, 4) + d,
    decreases cs.len(),
{
    if cs.len() == 0 {
        assert(cs.push(d).drop_first() =~= Seq::<Seq<u8>>::empty());
        assert(cs.push(d)[0] == d);
        assert(chunks_image(Seq::<Seq<u8>>::empty()) == Seq::<u8>::empty());
        assert(chunks_image(cs) == Seq::<u8>::empty());
        assert(chunks_image(cs.push(d)) =~= chunks_image(cs) + le_bytes((d.len() as u32) as nat, 4) + d);
    } else {
        lemma_chunks_image_snoc(cs.drop_first(), d);
        assert(cs.push(d).drop_first() =~= cs.drop_first().push(d));
        assert(cs.push(d)[0] == cs[0]);
        assert(chunks_image(cs.push(d)) =~= chunks_image(cs) + le_bytes((d.len() as u32) as nat, 4) + d);
    }
}

/// Composes a MASI file from the entry offset and the seven chunks
/// (imports, data labels, code labels, constants, data, exports, code).
pub fn compose_masi(
    entry: u64,
    imports: &[u8],
    locals: &[u8],
    labels: &[u8],
    constants: &[u8],
    data: &[u8],
    exports: &[u8],
    code: &[u8],
) -> (r: Vec<u8>)
    ensures
        r@ == masi_image(entry, seq![imports@, locals@, labels@, constants@, data@, exports@, code@]),
{
    let ghost cs = seq![imports@, locals@, labels@, constants@, data@, exports@, code@];
    let parts: [&[u8]; 7] = [imports, locals, labels, constants, data, exports, code];
    let mut out: Vec<u8> = Vec::new();
    push_header(&mut out, entry);
    let mut i: usize = 0;
    proof {
        assert(cs.take(0) =~= Seq::<Seq<u8>>::empty());
        assert(out@ =~= header_image(entry) + chunks_image(cs.take(0)));
    }
    while i < 7
        invariant
            i <= 7,
            forall|k: int| 0 <= k < 7 ==> (#[trigger] parts@[k])@ == cs[k],
            cs.len() == 7,
            out@ == header_image(entry) + chunks_image(cs.take(i as int)),
        decreases 7 - i,
    {
        let ghost before = out@;
        push_chunk(&mut out, parts[i]);
        proof {
            lemma_chunks_image_snoc(cs.take(i as int), cs[i as int]);
            assert(cs.take(i + 1) =~= cs.take(i as int).push(cs[i as int]));
            assert(out@ =~= header_image(entry) + chunks_image(cs.take(i + 1)));
        }
        i = i + 1;
    }
    proof {
        assert(cs.take(7) =~= cs);
    }
    out
}

} // verus!
