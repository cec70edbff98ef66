//! Layout: code offsets of labels and the entry point, and the data
//! section built from the data directives.
use vstd::prelude::*;
use crate::text::{views, copy_chars, eq_chars};
use crate::fmt::{append_chars, append_str};
use crate::assoc::assoc_get;
use crate::le::{le_bytes, write_u64_le, lemma_le_bytes_len};
use crate::asm_lines::{Dir, SDir, Inst, SInst, Val, SVal, dir_view, inst_view, val_view};
use crate::parse::{inst_wf, insts_wf};

verus! {

// ------------------------------------------------------------ code

/// Encoded size of an instruction: an opcode byte, nine bytes per operand,
/// and for a native-module call a two-byte argument count.
pub open spec fn inst_size(i: SInst) -> nat {
    if i.kind == 0 {
        0
    } else if i.kind == 2 {
        (1 + 9 * i.ops.len() + 2) as nat
    } else {
        (1 + 9 * i.ops.len()) as nat
    }
}

pub struct CodeLayout {
    /// Code labels and their offsets, in order of definition.
    pub labels: Seq<(Seq<char>, nat)>,
    pub errs: Seq<Seq<char>>,
    pub entry: Option<nat>,
    pub pc: nat,
}

pub open spec fn dup_code(name: Seq<char>) -> Seq<char> {
    "error[EASM002]: duplicate code label '"@ + name + "'"@
}

pub open spec fn dup_data(name: Seq<char>) -> Seq<char> {
    "error[EASM002]: duplicate data label '"@ + name + "'"@
}

/// Code layout of a list of instructions.
pub open spec fn code_layout(insts: Seq<SInst>) -> CodeLayout
    decreases insts.len(),
{
    if insts.len() == 0 {
        CodeLayout { labels: seq![], errs: seq![], entry: None, pc: 0 }
    } else {
        let p = code_layout(insts.drop_last());
        let i = insts.last();
        if i.kind == 0 {
            let name = i.ops[0];
            CodeLayout {
                labels: p.labels.push((name, p.pc)),
                errs: if assoc_get(p.labels, name) is Some { p.errs.push(dup_code(name)) } else { p.errs },
                ..p
            }
        } else {
            CodeLayout {
                entry: if p.entry is None { Some(p.pc) } else { p.entry },
                pc: p.pc + inst_size(i),
                ..p
            }
        }
    }
}

pub proof fn lemma_code_pc_mono(insts: Seq<SInst>, k: int)
    requires
        0 <= k <= insts.len(),
    ensures
        code_layout(insts.take(k)).pc <= code_layout(insts).pc,
    decreases insts.len() - k,
{
    if k < insts.len() {
        lemma_code_pc_mono(insts, k + 1);
        assert(insts.take(k + 1).drop_last() =~= insts.take(k));
    } else {
        assert(insts.take(k) =~= insts);
    }
}

pub open spec fn insts_view(v: Seq<Inst>) -> Seq<SInst> {
    v.map_values(|i: Inst| inst_view(i))
}

/// Code labels with their offsets.
pub struct Labels {
    pub entries: Vec<(Vec<char>, u64)>,
}

pub open spec fn labels_view(v: Seq<(Vec<char>, u64)>) -> Seq<(Seq<char>, nat)> {
    v.map_values(|p: (Vec<char>, u64)| (p.0@, p.1 as nat))
}

pub fn lookup(t: &Vec<(Vec<char>, u64)>, k: &[char]) -> (r: Option<u64>)
    ensures
        match assoc_get(labels_view(t@), k@) {
            None => r is None,
            Some(v) => r matches Some(x) && x as nat == v,
        },
{
    let mut i = t.len();
    proof {
        assert(labels_view(t@).take(i as int) =~= labels_view(t@));
    }
    while i > 0
        invariant
            i <= t@.len(),
            assoc_get(labels_view(t@).take(i as int), k@) == assoc_get(labels_view(t@), k@),
        decreases i,
    {
        proof {
            assert(labels_view(t@).take(i as int).drop_last() =~= labels_view(t@).take(i - 1));
        }
        if eq_chars(t[i - 1].0.as_slice(), k) {
            return Some(t[i - 1].1);
        }
        i = i - 1;
    }
    proof {
        assert(labels_view(t@).take(0) =~= Seq::<(Seq<char>, nat)>::empty());
    }
    None
}

fn dup_msg(name: &[char], data: bool) -> (r: Vec<char>)
    ensures
        r@ == if data { dup_data(name@) } else { dup_code(name@) },
{
    let mut m: Vec<char> = Vec::new();
    if data {
        append_str(&mut m, "error[EASM002]: duplicate data label '");
    } else {
        append_str(&mut m, "error[EASM002]: duplicate code label '");
    }
    append_chars(&mut m, name);
    append_str(&mut m, "'");
    m
}

/// Code layout; `None` when the code would not fit in 64-bit offsets.
pub fn code_layout_exec(insts: &Vec<Inst>) -> (r: Option<(Vec<(Vec<char>, u64)>, Vec<Vec<char>>, Option<u64>, u64)>)
    requires
        insts_wf(insts_view(insts@)),
    ensures
        match r {
            None => code_layout(insts_view(insts@)).pc > u64::MAX,
            Some((labels, errs, entry, pc)) => {
                let c = code_layout(insts_view(insts@));
                &&& c.pc <= u64::MAX
                &&& labels_view(labels@) == c.labels
                &&& views(errs@) == c.errs
                &&& pc as nat == c.pc
                &&& match c.entry {
                    None => entry is None,
                    Some(e) => entry == Some(e as u64),
                }
            },
        },
{
    let ghost iv = insts_view(insts@);
    let mut labels: Vec<(Vec<char>, u64)> = Vec::new();
    let mut errs: Vec<Vec<char>> = Vec::new();
    let mut entry: Option<u64> = None;
    let mut pc: u64 = 0;
    let mut j: usize = 0;
    proof {
        assert(iv.take(0) =~= Seq::<SInst>::empty());
        assert(labels_view(labels@) =~= Seq::<(Seq<char>, nat)>::empty());
        assert(views(errs@) =~= Seq::<Seq<char>>::empty());
    }
    while j < insts.len()
        invariant
            j <= insts@.len(),
            iv == insts_view(insts@),
            insts_wf(iv),
            ({
                let c = code_layout(iv.take(j as int));
                &&& labels_view(labels@) == c.labels
                &&& views(errs@) == c.errs
                &&& pc as nat == c.pc
                &&& match c.entry {
                    None => entry is None,
                    Some(e) => entry == Some(e as u64),
                }
            }),
        decreases insts.len() - j,
    {
        let ghost prev = code_layout(iv.take(j as int));
        proof {
            assert(iv.take(j + 1).drop_last() =~= iv.take(j as int));
            assert(iv.take(j + 1).last() == inst_view(insts@[j as int]));
            assert(inst_wf(iv[j as int]));
        }
        let ins = &insts[j];
        if ins.kind == 0 {
            let name = &ins.ops[0];
            if lookup(&labels, name.as_slice()).is_some() {
                let m = dup_msg(name.as_slice(), false);
                let ghost before = views(errs@);
                let ghost mv = m@;
                errs.push(m);
                proof {
                    assert(views(errs@) =~= before.push(mv));
                }
            }
            let ghost lb = labels_view(labels@);
            labels.push((copy_chars(name.as_slice()), pc));
            proof {
                assert(labels_view(labels@) =~= lb.push((name@, pc as nat)));
            }
        } else {
            let n = ins.ops.len() as u64;
            let extra: u64 = if ins.kind == 2 { 3 } else { 1 };
            if n > (u64::MAX - extra) / 9 {
                proof {
                    lemma_code_pc_mono(iv, j + 1);
                    assert(inst_size(iv[j as int]) > u64::MAX) by (nonlinear_arith)
                        requires
                            n > (u64::MAX - extra) / 9,
                            extra == 1 || extra == 3,
                            inst_size(iv[j as int]) == 9 * n + extra,
                    ;
                }
                return None;
            }
            let size = 9 * n + extra;
            if pc > u64::MAX - size {
                proof {
                    lemma_code_pc_mono(iv, j + 1);
                }
                return None;
            }
            if entry.is_none() {
                entry = Some(pc);
            }
            pc = pc + size;
        }
        j = j + 1;
    }
    proof {
        assert(iv.take(j as int) =~= iv);
    }
    Some((labels, errs, entry, pc))
}


// ------------------------------------------------------------ data

pub struct DataLayout {
    pub bytes: Seq<u8>,
    /// Data labels and their offsets, in order of definition.
    pub offs: Seq<(Seq<char>, nat)>,
    pub errs: Seq<Seq<char>>,
}

pub open spec fn empty_data() -> DataLayout {
    DataLayout { bytes: seq![], offs: seq![], errs: seq![] }
}

/// A data label defined at the current end of the data.
pub open spec fn define(d: DataLayout, label: Option<Seq<char>>) -> DataLayout {
    match label {
        None => d,
        Some(n) => DataLayout {
            offs: d.offs.push((n, d.bytes.len())),
            errs: if assoc_get(d.offs, n) is Some { d.errs.push(dup_data(n)) } else { d.errs },
            ..d
        },
    }
}

pub open spec fn val_of(v: SVal, offs: Seq<(Seq<char>, nat)>) -> nat {
    match v {
        SVal::Imm(x) => x as nat,
        SVal::Sym(n) => match assoc_get(offs, n) {
            Some(o) => o,
            None => 0,
        },
    }
}

pub open spec fn quad_bytes(vs: Seq<SVal>, offs: Seq<(Seq<char>, nat)>) -> Seq<u8>
    decreases vs.len(),
{
    if vs.len() == 0 {
        seq![]
    } else {
        quad_bytes(vs.drop_last(), offs) + le_bytes(val_of(vs.last(), offs), 8)
    }
}

pub open spec fn zeros(n: nat) -> Seq<u8> {
    Seq::new(n, |k: int| 0u8)
}

/// One directive placed after the data so far; `None` when the data
/// would outgrow the address space.
pub open spec fn place(d: DataLayout, dir: SDir) -> Option<DataLayout> {
    match dir {
        SDir::Bytes(l, b) => {
            let s = define(d, l);
            Some(DataLayout { bytes: s.bytes + b, ..s })
        },
        SDir::Quads(l, vs) => {
            let s = define(d, l);
            Some(DataLayout { bytes: s.bytes + quad_bytes(vs, s.offs), ..s })
        },
        SDir::Res(l, n) => match n {
            None => None,
            Some(n) => {
                let s = define(d, l);
                if s.bytes.len() + n > usize::MAX {
                    None
                } else {
                    Some(DataLayout { bytes: s.bytes + zeros(n), ..s })
                }
            },
        },
        SDir::Direct(addr, b) => {
            let needed = addr + b.len() + 1;
            if needed > usize::MAX {
                None
            } else {
                let ext = if d.bytes.len() < needed {
                    d.bytes + zeros((needed - d.bytes.len()) as nat)
                } else {
                    d.bytes
                };
                Some(DataLayout { bytes: ext.take(addr as int) + b + seq![0u8] + ext.skip(needed as int), ..d })
            }
        },
    }
}

pub open spec fn data_layout(dirs: Seq<SDir>) -> Option<DataLayout>
    decreases dirs.len(),
{
    if dirs.len() == 0 {
        Some(empty_data())
    } else {
        match data_layout(dirs.drop_last()) {
            None => None,
            Some(p) => place(p, dirs.last()),
        }
    }
}

proof fn lemma_data_none(dirs: Seq<SDir>, k: int)
    requires
        0 <= k <= dirs.len(),
        data_layout(dirs.take(k)) is None,
    ensures
        data_layout(dirs) is None,
    decreases dirs.len() - k,
{
    if k < dirs.len() {
        assert(dirs.take(k + 1).drop_last() =~= dirs.take(k));
        lemma_data_none(dirs, k + 1);
    } else {
        assert(dirs.take(k) =~= dirs);
    }
}

pub open spec fn dirs_view(v: Seq<Dir>) -> Seq<SDir> {
    v.map_values(|d: Dir| dir_view(d))
}

fn define_exec(bytes: &Vec<u8>, offs: &mut Vec<(Vec<char>, u64)>, errs: &mut Vec<Vec<char>>, label: &Option<Vec<char>>)
    ensures
        ({
            let d = define(
                DataLayout { bytes: bytes@, offs: labels_view(old(offs)@), errs: views(old(errs)@) },
                crate::asm_lines::opt_view(*label),
            );
            labels_view(final(offs)@) == d.offs && views(final(errs)@) == d.errs && d.bytes == bytes@
        }),
{
    match label {
        None => {},
        Some(n) => {
            if lookup(offs, n.as_slice()).is_some() {
                let m = dup_msg(n.as_slice(), true);
                let ghost before = views(errs@);
                let ghost mv = m@;
                errs.push(m);
                proof {
                    assert(views(errs@) =~= before.push(mv));
                }
            }
            let ghost lb = labels_view(offs@);
            offs.push((copy_chars(n.as_slice()), bytes.len() as u64));
            proof {
                assert(labels_view(offs@) =~= lb.push((n@, bytes@.len())));
            }
        },
    }
}

pub(crate) fn push_zeros(bytes: &mut Vec<u8>, n: usize)
    ensures
        final(bytes)@ == old(bytes)@ + zeros(n as nat),
{
    let ghost b0 = bytes@;
    let mut k: usize = 0;
    proof {
        assert(bytes@ =~= b0 + zeros(0));
    }
    while k < n
        invariant
            k <= n,
            bytes@ == b0 + zeros(k as nat),
        decreases n - k,
    {
        bytes.push(0u8);
        k = k + 1;
        proof {
            assert(bytes@ =~= b0 + zeros(k as nat));
        }
    }
}

pub open spec fn vals_view(v: Seq<Val>) -> Seq<SVal> {
    v.map_values(|x: Val| val_view(x))
}

/// Data section built from the directives; `None` when it would not fit.
pub fn data_layout_exec(dirs: &Vec<Dir>) -> (r: Option<(Vec<u8>, Vec<(Vec<char>, u64)>, Vec<Vec<char>>)>)
    ensures
        match data_layout(dirs_view(dirs@)) {
            None => r is None,
            Some(d) => r matches Some((b, o, e)) && b@ == d.bytes && labels_view(o@) == d.offs && views(e@) == d.errs,
        },
{
    let ghost dv = dirs_view(dirs@);
    let mut bytes: Vec<u8> = Vec::new();
    let mut offs: Vec<(Vec<char>, u64)> = Vec::new();
    let mut errs: Vec<Vec<char>> = Vec::new();
    let mut j: usize = 0;
    proof {
        assert(dv.take(0) =~= Seq::<SDir>::empty());
        assert(labels_view(offs@) =~= Seq::<(Seq<char>, nat)>::empty());
        assert(views(errs@) =~= Seq::<Seq<char>>::empty());
        assert(bytes@ =~= Seq::<u8>::empty());
    }
    while j < dirs.len()
        invariant
            j <= dirs@.len(),
            dv == dirs_view(dirs@),
            data_layout(dv.take(j as int)) == Some(
                DataLayout { bytes: bytes@, offs: labels_view(offs@), errs: views(errs@) },
            ),
        decreases dirs.len() - j,
    {
        proof {
            assert(dv.take(j + 1).drop_last() =~= dv.take(j as int));
            assert(dv.take(j + 1).last() == dir_view(dirs@[j as int]));
        }
        let ghost d0 = DataLayout { bytes: bytes@, offs: labels_view(offs@), errs: views(errs@) };
        match &dirs[j] {
            Dir::Bytes(l, b) => {
                define_exec(&bytes, &mut offs, &mut errs, l);
                let ghost pre = bytes@;
                let mut k: usize = 0;
                while k < b.len()
                    invariant
                        k <= b@.len(),
                        bytes@ == pre + b@.take(k as int),
                    decreases b.len() - k,
                {
                    bytes.push(b[k]);
                    k = k + 1;
                    proof {
                        assert(bytes@ =~= pre + b@.take(k as int));
                    }
                }
                proof {
                    assert(b@.take(k as int) =~= b@);
                }
            },
            Dir::Quads(l, vs) => {
                define_exec(&bytes, &mut offs, &mut errs, l);
                let ghost pre = bytes@;
                let ghost ov = labels_view(offs@);
                let mut k: usize = 0;
                proof {
                    assert(vals_view(vs@).take(0) =~= Seq::<SVal>::empty());
                    assert(bytes@ =~= pre + quad_bytes(vals_view(vs@).take(0), ov));
                }
                while k < vs.len()
                    invariant
                        k <= vs@.len(),
                        ov == labels_view(offs@),
                        bytes@ == pre + quad_bytes(vals_view(vs@).take(k as int), ov),
                    decreases vs.len() - k,
                {
                    let v: u64 = match &vs[k] {
                        Val::Imm(x) => *x,
                        Val::Sym(n) => match lookup(&offs, n.as_slice()) {
                            Some(o) => o,
                            None => 0,
                        },
                    };
                    proof {
                        assert(vals_view(vs@).take(k + 1).drop_last() =~= vals_view(vs@).take(k as int));
                        assert(vals_view(vs@).take(k + 1).last() == val_view(vs@[k as int]));
                        assert(v as nat == val_of(val_view(vs@[k as int]), ov));
                    }
                    write_u64_le(v, &mut bytes);
                    k = k + 1;
                    proof {
                        assert(bytes@ =~= pre + quad_bytes(vals_view(vs@).take(k as int), ov));
                    }
                }
                proof {
                    assert(vals_view(vs@).take(k as int) =~= vals_view(vs@));
                }
            },
            Dir::Res(l, n) => {
                match n {
                    None => {
                        proof {
                            lemma_data_none(dv, j + 1);
                        }
                        return None;
                    },
                    Some(n) => {
                        define_exec(&bytes, &mut offs, &mut errs, l);
                        if *n > usize::MAX - bytes.len() {
                            proof {
                                lemma_data_none(dv, j + 1);
                            }
                            return None;
                        }
                        push_zeros(&mut bytes, *n);
                    },
                }
            },
            Dir::Direct(addr, b) => {
                if b.len() >= usize::MAX - *addr {
                    proof {
                        lemma_data_none(dv, j + 1);
                    }
                    return None;
                }
                let needed = *addr + b.len() + 1;
                if bytes.len() < needed {
                    let k = needed - bytes.len();
                    push_zeros(&mut bytes, k);
                }
                let ghost ext = bytes@;
                let mut out: Vec<u8> = Vec::new();
                let mut k: usize = 0;
                while k < *addr
                    invariant
                        k <= *addr,
                        *addr < needed <= ext.len(),
                        ext == bytes@,
                        out@ == ext.take(k as int),
                    decreases *addr - k,
                {
                    out.push(bytes[k]);
                    k = k + 1;
                    proof {
                        assert(out@ =~= ext.take(k as int));
                    }
                }
                let mut k2: usize = 0;
                while k2 < b.len()
                    invariant
                        k2 <= b@.len(),
                        out@ == ext.take(*addr as int) + b@.take(k2 as int),
                    decreases b.len() - k2,
                {
                    out.push(b[k2]);
                    k2 = k2 + 1;
                    proof {
                        assert(out@ =~= ext.take(*addr as int) + b@.take(k2 as int));
                    }
                }
                out.push(0u8);
                let mut k3: usize = needed;
                proof {
                    assert(b@.take(k2 as int) =~= b@);
                    assert(ext.skip(needed as int).take(0) =~= Seq::<u8>::empty());
                }
                while k3 < bytes.len()
                    invariant
                        needed <= k3 <= ext.len(),
                        ext == bytes@,
                        out@ == ext.take(*addr as int) + b@ + seq![0u8] + ext.subrange(needed as int, k3 as int),
                    decreases bytes.len() - k3,
                {
                    out.push(bytes[k3]);
                    k3 = k3 + 1;
                    proof {
                        assert(out@ =~= ext.take(*addr as int) + b@ + seq![0u8] + ext.subrange(needed as int, k3 as int));
                    }
                }
                proof {
                    assert(ext.subrange(needed as int, k3 as int) =~= ext.skip(needed as int));
                }
                bytes = out;
            },
        }
        j = j + 1;
    }
    proof {
        assert(dv.take(j as int) =~= dv);
    }
    Some((bytes, offs, errs))
}

} // verus!
