//! Reading MASI images back: disassembly and dumps.
pub use crate::masi::{MASIFile, ExportSym, ImportRef, ImportSym, SectionSizes, parse_masi_bytes};
use vstd::prelude::*;
use crate::text::{str_chars, chars_to_string, copy_chars};
use crate::fmt::{dec, hex_upper, zero_pad, dec_chars, hex_upper_chars, zero_pad_chars, append_chars, append_str};
use crate::masi::{key_index, offset_names, export_view, import_view, sizes_of};
use crate::register_map::{spec_reg_name, reg_name};
use crate::macros::{join_lines, join_exec};
use crate::vm::{SFetched, fetch, fetch_exec, Fetched, fetched_view, lemma_fetch_next};

verus! {

// ------------------------------------------------------------ operands

/// The name at key `k` of an offset-keyed map.
pub open spec fn map_get(l: Seq<(u64, Seq<char>)>, k: u64) -> Option<Seq<char>> {
    match key_index(l, k) {
        Some(i) => Some(l[i].1),
        None => None,
    }
}

/// An operand as source text: an immediate (or `$label` when it is a data
/// label's offset), a register, `#label` or `#0x..` for a code address,
/// `$label` or `$0x..` for a memory address, `$register` for a
/// register-indirect address.
pub open spec fn fmt_operand(mode: u8, value: u64, labels: Seq<(u64, Seq<char>)>, data: Seq<(u64, Seq<char>)>) -> Seq<char> {
    if mode == 0 {
        match map_get(data, value) {
            Some(n) => "$"@ + n,
            None => dec(value as nat),
        }
    } else if mode == 1 {
        match spec_reg_name(value as u16) {
            Some(n) => n,
            None => "REG"@ + dec((value as u16) as nat),
        }
    } else if mode == 2 {
        match map_get(labels, value) {
            Some(n) => "#"@ + n,
            None => "#0x"@ + hex_upper(value as nat),
        }
    } else if mode == 3 {
        match map_get(data, value) {
            Some(n) => "$"@ + n,
            None => "$0x"@ + hex_upper(value as nat),
        }
    } else if mode == 4 {
        match spec_reg_name(value as u16) {
            Some(n) => "$"@ + n,
            None => "$REG"@ + dec((value as u16) as nat),
        }
    } else {
        dec(value as nat)
    }
}

pub fn map_get_exec(l: &Vec<(u64, String)>, k: u64) -> (r: Option<Vec<char>>)
    ensures
        match map_get(offset_names(l@), k) {
            Some(n) => r matches Some(x) && x@ == n,
            None => r is None,
        },
{
    let ghost lv = offset_names(l@);
    let mut i: usize = 0;
    proof {
        assert(lv.take(0) =~= Seq::<(u64, Seq<char>)>::empty());
    }
    while i < l.len()
        invariant
            i <= l@.len(),
            lv == offset_names(l@),
            key_index(lv.take(i as int), k) is None,
        decreases l.len() - i,
    {
        proof {
            assert(lv.take(i + 1).drop_last() =~= lv.take(i as int));
        }
        if l[i].0 == k {
            proof {
                assert(key_index(lv.take(i + 1), k) == Some(i as int));
                lemma_key_index_extend(lv, k, i as int);
            }
            return Some(str_chars(l[i].1.as_str()));
        }
        i = i + 1;
    }
    proof {
        assert(lv.take(i as int) =~= lv);
    }
    None
}

proof fn lemma_key_index_extend(l: Seq<(u64, Seq<char>)>, k: u64, i: int)
    requires
        0 <= i < l.len(),
        key_index(l.take(i + 1), k) == Some(i),
    ensures
        key_index(l, k) == Some(i),
    decreases l.len() - i,
{
    if i + 1 < l.len() {
        let n = l.len() - 1;
        lemma_key_index_prefix(l, k, i, n);
        assert(l.take(n as int + 1) =~= l);
    } else {
        assert(l.take(i + 1) =~= l);
    }
}

proof fn lemma_key_index_prefix(l: Seq<(u64, Seq<char>)>, k: u64, i: int, n: int)
    requires
        0 <= i < n < l.len(),
        key_index(l.take(i + 1), k) == Some(i),
    ensures
        key_index(l.take(n + 1), k) == Some(i),
    decreases n - i,
{
    if n > i + 1 {
        lemma_key_index_prefix(l, k, i, n - 1);
    }
    assert(l.take(n + 1).drop_last() =~= l.take(n));
}

/// Formats an operand (mode and value) as source text.
pub fn fmt_op(mode: u8, value: u64, masi: &MASIFile) -> (r: String)
    ensures
        r@ == fmt_operand(mode, value, offset_names(masi.label_map@), offset_names(masi.data_label_map@)),
{
    let mut m: Vec<char> = Vec::new();
    if mode == 0 || mode == 3 {
        match map_get_exec(&masi.data_label_map, value) {
            Some(n) => {
                append_str(&mut m, "$");
                append_chars(&mut m, n.as_slice());
            },
            None => {
                if mode == 3 {
                    append_str(&mut m, "$0x");
                    let h = hex_upper_chars(value);
                    append_chars(&mut m, h.as_slice());
                } else {
                    let d = dec_chars(value);
                    append_chars(&mut m, d.as_slice());
                }
            },
        }
    } else if mode == 1 || mode == 4 {
        if mode == 4 {
            append_str(&mut m, "$");
        }
        match reg_name(value as u16) {
            Some(n) => {
                append_chars(&mut m, n.as_slice());
            },
            None => {
                append_str(&mut m, "REG");
                let d = dec_chars((value as u16) as u64);
                append_chars(&mut m, d.as_slice());
            },
        }
    } else if mode == 2 {
        match map_get_exec(&masi.label_map, value) {
            Some(n) => {
                append_str(&mut m, "#");
                append_chars(&mut m, n.as_slice());
            },
            None => {
                append_str(&mut m, "#0x");
                let h = hex_upper_chars(value);
                append_chars(&mut m, h.as_slice());
            },
        }
    } else {
        let d = dec_chars(value);
        append_chars(&mut m, d.as_slice());
    }
    proof {
        reveal_strlit("$");
        reveal_strlit("REG");
        reveal_strlit("$REG");
        if mode == 4 {
            match spec_reg_name(value as u16) {
                Some(n) => { assert(m@ =~= "$"@ + n); },
                None => { assert(m@ =~= "$REG"@ + dec((value as u16) as nat)); },
            }
        }
    }
    chars_to_string(m.as_slice())
}

} // verus!

verus! {

// ------------------------------------------------------------ disassembly

/// Mnemonic of each opcode the disassembler knows (the native-module call
/// aside).
pub open spec fn dis_table() -> Seq<(u8, Seq<char>)> {
    seq![
        (0x01u8, "MOV"@), (0x02u8, "ADD"@), (0x03u8, "SUB"@), (0x70u8, "FMOV"@), (0x71u8, "FADD"@),
        (0x72u8, "FSUB"@), (0x73u8, "FMUL"@), (0x74u8, "FDIV"@), (0x75u8, "FCMP"@), (0x76u8, "FJE"@),
        (0x77u8, "FJNE"@), (0x78u8, "FJLT"@), (0x79u8, "FJLE"@), (0x7Au8, "FJGT"@), (0x7Bu8, "FJGE"@),
        (0x7Cu8, "FJUO"@), (0x10u8, "JMP"@), (0x11u8, "CMP"@), (0x12u8, "JE"@), (0x13u8, "JNE"@),
        (0x14u8, "JL"@), (0x15u8, "JLE"@), (0x16u8, "JG"@), (0x17u8, "JGE"@), (0x20u8, "CALL"@),
        (0x21u8, "RET"@), (0x30u8, "PUSH"@), (0x31u8, "POP"@), (0x40u8, "OUT"@), (0x41u8, "COUT"@),
        (0x42u8, "IN"@), (0x50u8, "ENTER"@), (0x51u8, "LEAVE"@), (0x00u8, "NOP"@), (0xFFu8, "HLT"@),
    ]
}

pub open spec fn dis_name(t: Seq<(u8, Seq<char>)>, op: u8) -> Option<Seq<char>>
    decreases t.len(),
{
    if t.len() == 0 {
        None
    } else if t[0].0 == op {
        Some(t[0].1)
    } else {
        dis_name(t.drop_first(), op)
    }
}

/// Each operand after a space.
pub open spec fn ops_text(ops: Seq<(u8, u64)>, labels: Seq<(u64, Seq<char>)>, data: Seq<(u64, Seq<char>)>) -> Seq<char>
    decreases ops.len(),
{
    if ops.len() == 0 {
        seq![]
    } else {
        ops_text(ops.drop_last(), labels, data) + " "@ + fmt_operand(ops.last().0, ops.last().1, labels, data)
    }
}

/// The source line of an instruction.
pub open spec fn dis_line(f: SFetched, labels: Seq<(u64, Seq<char>)>, data: Seq<(u64, Seq<char>)>) -> Seq<char> {
    if f.opcode == 0x60 {
        "MNI"@ + ops_text(f.ops, labels, data)
    } else {
        match dis_name(dis_table(), f.opcode) {
            Some(n) => n + ops_text(f.ops, labels, data),
            None => "; DB 0x"@ + zero_pad(hex_upper(f.opcode as nat), 2) + " ; Unknown opcode"@,
        }
    }
}

/// Whether every instruction from `pc` to the end is complete.
pub open spec fn decodes(code: Seq<u8>, pc: int) -> bool
    decreases code.len() - pc,
{
    if pc < 0 || pc >= code.len() {
        true
    } else {
        match fetch(code, pc) {
            None => false,
            Some(f) => if f.next > pc { decodes(code, f.next as int) } else { false },
        }
    }
}

/// The lines of the disassembly from `pc`: `LBL name` before an
/// instruction that a code label names, then the instruction.
pub open spec fn dis_from(code: Seq<u8>, pc: int, labels: Seq<(u64, Seq<char>)>, data: Seq<(u64, Seq<char>)>) -> Seq<Seq<char>>
    decreases code.len() - pc,
{
    if pc < 0 || pc >= code.len() {
        seq![]
    } else {
        match fetch(code, pc) {
            None => seq![],
            Some(f) => {
                let head = match map_get(labels, pc as u64) {
                    Some(n) => seq!["LBL "@ + n],
                    None => seq![],
                };
                if f.next > pc {
                    head + seq![dis_line(f, labels, data)] + dis_from(code, f.next as int, labels, data)
                } else {
                    seq![]
                }
            },
        }
    }
}

/// The offsets at which the instructions of `code` start, from `pc` up to
/// the end or to the first instruction that is cut off.
pub open spec fn inst_offsets(code: Seq<u8>, pc: int) -> Seq<int>
    decreases code.len() - pc,
{
    if pc < 0 || pc >= code.len() {
        seq![]
    } else {
        match fetch(code, pc) {
            None => seq![],
            Some(f) => if f.next > pc {
                seq![pc] + inst_offsets(code, f.next as int)
            } else {
                seq![]
            },
        }
    }
}

/// The lines the instruction at `o` gives: an `LBL` line when a code label
/// names `o`, then the instruction itself.
pub open spec fn dis_block(code: Seq<u8>, o: int, labels: Seq<(u64, Seq<char>)>, data: Seq<(u64, Seq<char>)>) -> Seq<Seq<char>> {
    (match map_get(labels, o as u64) {
        Some(n) => seq!["LBL "@ + n],
        None => seq![],
    }) + seq![dis_line(fetch(code, o)->Some_0, labels, data)]
}

/// The disassembly goes instruction by instruction: each instruction's
/// line, with the `LBL` line of the label that names its offset just
/// before it; the instructions are those that decode, in order.
pub proof fn lemma_disassembly_blocks(
    code: Seq<u8>,
    pc: int,
    labels: Seq<(u64, Seq<char>)>,
    data: Seq<(u64, Seq<char>)>,
)
    ensures
        forall|k: int|
            0 <= k < inst_offsets(code, pc).len() ==> fetch(code, #[trigger] inst_offsets(code, pc)[k]) is Some,
        dis_from(code, pc, labels, data) == inst_offsets(code, pc).map_values(
            |o: int| dis_block(code, o, labels, data),
        ).flatten(),
    decreases code.len() - pc,
{
    let f = |o: int| dis_block(code, o, labels, data);
    let offs = inst_offsets(code, pc);
    if pc < 0 || pc >= code.len() {
        assert(offs.map_values(f) =~= Seq::<Seq<Seq<char>>>::empty());
    } else {
        match fetch(code, pc) {
            None => {
                assert(offs.map_values(f) =~= Seq::<Seq<Seq<char>>>::empty());
            },
            Some(fe) => if fe.next > pc {
                let rest = inst_offsets(code, fe.next as int);
                lemma_disassembly_blocks(code, fe.next as int, labels, data);
                assert forall|k: int| 0 <= k < offs.len() implies fetch(code, #[trigger] offs[k]) is Some by {
                    if k > 0 {
                        assert(offs[k] == rest[k - 1]);
                    }
                }
                let m = offs.map_values(f);
                assert(m.first() == f(pc));
                assert(m.drop_first() =~= rest.map_values(f));
            } else {
                assert(offs.map_values(f) =~= Seq::<Seq<Seq<char>>>::empty());
            },
        }
    }
}

/// The disassembly has one line per instruction, and one `LBL` line more
/// for each instruction that a code label names.
pub proof fn lemma_disassembly_line_count(
    code: Seq<u8>,
    pc: int,
    labels: Seq<(u64, Seq<char>)>,
    data: Seq<(u64, Seq<char>)>,
)
    ensures
        dis_from(code, pc, labels, data).len() == inst_offsets(code, pc).len() + inst_offsets(code, pc).filter(
            |o: int| map_get(labels, o as u64) is Some,
        ).len(),
    decreases code.len() - pc,
{
    let named = |o: int| map_get(labels, o as u64) is Some;
    if pc < 0 || pc >= code.len() {
        assert(inst_offsets(code, pc).filter(named) =~= Seq::<int>::empty()) by {
            reveal(Seq::filter);
        }
    } else {
        match fetch(code, pc) {
            None => {
                assert(inst_offsets(code, pc).filter(named) =~= Seq::<int>::empty()) by {
                    reveal(Seq::filter);
                }
            },
            Some(f) => if f.next > pc {
                let rest = inst_offsets(code, f.next as int);
                lemma_disassembly_line_count(code, f.next as int, labels, data);
                rest.lemma_filter_prepend(pc, named);
            } else {
                assert(inst_offsets(code, pc).filter(named) =~= Seq::<int>::empty()) by {
                    reveal(Seq::filter);
                }
            },
        }
    }
}

/// The disassembly of a file's code, one instruction per line.
pub open spec fn disassembly(m: MASIFile) -> Seq<char> {
    join_lines(dis_from(m.code@, 0, offset_names(m.label_map@), offset_names(m.data_label_map@)))
}

/// Whether every instruction of `code` is complete, which `disassemble` needs.
pub fn code_decodes(code: &[u8]) -> (r: bool)
    ensures
        r == decodes(code@, 0),
{
    let mut pc: usize = 0;
    while pc < code.len()
        invariant
            decodes(code@, pc as int) == decodes(code@, 0),
        decreases code.len() - pc,
    {
        proof {
            lemma_fetch_next(code@, pc as int);
        }
        match fetch_exec(code, pc) {
            None => {
                return false;
            },
            Some(f) => {
                pc = f.next;
            },
        }
    }
    true
}

pub fn dis_name_exec(op: u8) -> (r: Option<&'static str>)
    ensures
        match dis_name(dis_table(), op) {
            Some(n) => r matches Some(x) && x@ == n,
            None => r is None,
        },
{
    let t: Vec<(u8, &'static str)> = vec![
        (0x01, "MOV"), (0x02, "ADD"), (0x03, "SUB"), (0x70, "FMOV"), (0x71, "FADD"),
        (0x72, "FSUB"), (0x73, "FMUL"), (0x74, "FDIV"), (0x75, "FCMP"), (0x76, "FJE"),
        (0x77, "FJNE"), (0x78, "FJLT"), (0x79, "FJLE"), (0x7A, "FJGT"), (0x7B, "FJGE"),
        (0x7C, "FJUO"), (0x10, "JMP"), (0x11, "CMP"), (0x12, "JE"), (0x13, "JNE"),
        (0x14, "JL"), (0x15, "JLE"), (0x16, "JG"), (0x17, "JGE"), (0x20, "CALL"),
        (0x21, "RET"), (0x30, "PUSH"), (0x31, "POP"), (0x40, "OUT"), (0x41, "COUT"),
        (0x42, "IN"), (0x50, "ENTER"), (0x51, "LEAVE"), (0x00, "NOP"), (0xFF, "HLT"),
    ];
    let ghost tv = t@.map_values(|e: (u8, &'static str)| (e.0, e.1@));
    assert(tv =~= dis_table());
    let mut i: usize = 0;
    proof {
        assert(tv.skip(0) =~= tv);
    }
    while i < t.len()
        invariant
            i <= t@.len(),
            tv == t@.map_values(|e: (u8, &'static str)| (e.0, e.1@)),
            tv == dis_table(),
            dis_name(tv.skip(i as int), op) == dis_name(dis_table(), op),
        decreases t.len() - i,
    {
        proof {
            assert(tv.skip(i as int).drop_first() =~= tv.skip(i + 1));
            assert(tv.skip(i as int)[0] == (t@[i as int].0, t@[i as int].1@));
        }
        if t[i].0 == op {
            return Some(t[i].1);
        }
        i = i + 1;
    }
    proof {
        assert(tv.skip(i as int) =~= Seq::<(u8, Seq<char>)>::empty());
    }
    None
}

pub(crate) fn ops_text_exec(ops: &Vec<(u8, u64)>, masi: &MASIFile, out: &mut Vec<char>)
    ensures
        final(out)@ == old(out)@ + ops_text(ops@, offset_names(masi.label_map@), offset_names(masi.data_label_map@)),
{
    let ghost l = offset_names(masi.label_map@);
    let ghost d = offset_names(masi.data_label_map@);
    let ghost o0 = out@;
    let mut k: usize = 0;
    proof {
        assert(ops@.take(0) =~= Seq::<(u8, u64)>::empty());
        assert(out@ =~= o0 + ops_text(ops@.take(0), l, d));
    }
    while k < ops.len()
        invariant
            k <= ops@.len(),
            l == offset_names(masi.label_map@),
            d == offset_names(masi.data_label_map@),
            out@ == o0 + ops_text(ops@.take(k as int), l, d),
        decreases ops.len() - k,
    {
        append_str(out, " ");
        let t = fmt_op(ops[k].0, ops[k].1, masi);
        let tc = str_chars(t.as_str());
        append_chars(out, tc.as_slice());
        proof {
            assert(ops@.take(k + 1).drop_last() =~= ops@.take(k as int));
            assert(out@ =~= o0 + ops_text(ops@.take(k + 1), l, d));
        }
        k = k + 1;
    }
    proof {
        assert(ops@.take(k as int) =~= ops@);
    }
}

fn dis_line_exec(f: &Fetched, masi: &MASIFile) -> (r: Vec<char>)
    ensures
        r@ == dis_line(fetched_view(*f), offset_names(masi.label_map@), offset_names(masi.data_label_map@)),
{
    let mut out: Vec<char> = Vec::new();
    if f.opcode == 0x60 {
        append_str(&mut out, "MNI");
        ops_text_exec(&f.ops, masi, &mut out);
    } else {
        match dis_name_exec(f.opcode) {
            Some(n) => {
                append_str(&mut out, n);
                ops_text_exec(&f.ops, masi, &mut out);
            },
            None => {
                append_str(&mut out, "; DB 0x");
                let h = hex_upper_chars(f.opcode as u64);
                let p = zero_pad_chars(h, 2);
                append_chars(&mut out, p.as_slice());
                append_str(&mut out, " ; Unknown opcode");
            },
        }
    }
    out
}

/// The disassembly of a file's code, one instruction per line.
pub fn disassemble(masi: &MASIFile) -> (r: String)
    requires
        decodes(masi.code@, 0),
    ensures
        r@ == disassembly(*masi),
{
    let ghost l = offset_names(masi.label_map@);
    let ghost d = offset_names(masi.data_label_map@);
    let code = masi.code.as_slice();
    let mut lines: Vec<Vec<char>> = Vec::new();
    let mut pc: usize = 0;
    proof {
        assert(crate::text::views(lines@) =~= Seq::<Seq<char>>::empty());
    }
    while pc < code.len()
        invariant
            code@ == masi.code@,
            l == offset_names(masi.label_map@),
            d == offset_names(masi.data_label_map@),
            decodes(code@, pc as int),
            crate::text::views(lines@) + dis_from(code@, pc as int, l, d) == dis_from(code@, 0, l, d),
        decreases code.len() - pc,
    {
        proof {
            lemma_fetch_next(code@, pc as int);
        }
        let f = match fetch_exec(code, pc) {
            Some(f) => f,
            None => {
                return String::new();
            },
        };
        let ghost before = crate::text::views(lines@);
        match map_get_exec(&masi.label_map, pc as u64) {
            Some(n) => {
                let mut h: Vec<char> = Vec::new();
                append_str(&mut h, "LBL ");
                append_chars(&mut h, n.as_slice());
                let ghost hv = h@;
                lines.push(h);
                proof {
                    assert(crate::text::views(lines@) =~= before.push(hv));
                }
            },
            None => {},
        }
        let line = dis_line_exec(&f, masi);
        let ghost mid = crate::text::views(lines@);
        let ghost lv = line@;
        lines.push(line);
        proof {
            assert(crate::text::views(lines@) =~= mid.push(lv));
            let head = match map_get(l, pc as u64) {
                Some(n) => seq!["LBL "@ + n],
                None => Seq::<Seq<char>>::empty(),
            };
            assert(mid == before + head);
            assert(dis_from(code@, pc as int, l, d) == head + seq![lv] + dis_from(code@, f.next as int, l, d));
            assert(crate::text::views(lines@) + dis_from(code@, f.next as int, l, d) =~= before + dis_from(code@, pc as int, l, d));
        }
        pc = f.next;
    }
    proof {
        assert(crate::text::views(lines@) + dis_from(code@, pc as int, l, d) =~= crate::text::views(lines@));
    }
    let j = join_exec(&lines);
    chars_to_string(j.as_slice())
}

} // verus!

verus! {

// ------------------------------------------------------------ dumps

/// `e` inserted before the first entry with a larger offset.
pub open spec fn insert_sorted(l: Seq<(u64, Seq<char>)>, e: (u64, Seq<char>)) -> Seq<(u64, Seq<char>)>
    decreases l.len(),
{
    if l.len() == 0 {
        seq![e]
    } else if e.0 < l[0].0 {
        seq![e] + l
    } else {
        seq![l[0]] + insert_sorted(l.drop_first(), e)
    }
}

/// The entries in order of offset.
pub open spec fn sorted_by_offset(l: Seq<(u64, Seq<char>)>) -> Seq<(u64, Seq<char>)>
    decreases l.len(),
{
    if l.len() == 0 {
        seq![]
    } else {
        insert_sorted(sorted_by_offset(l.drop_last()), l.last())
    }
}

pub open spec fn offset_lines(l: Seq<(u64, Seq<char>)>) -> Seq<Seq<char>> {
    l.map_values(|e: (u64, Seq<char>)| "  - 0x"@ + hex_upper(e.0 as nat) + ": "@ + e.1)
}

pub open spec fn kind_word(k: u8) -> Seq<char> {
    if k == 0 {
        "code"@
    } else {
        "data"@
    }
}

/// The word a dump gives a symbol's kind is the one that an `#import`
/// directive reads back as that kind (`code` for 0, `data` for 1), and
/// the one the linker's diagnostics use.
pub proof fn lemma_kind_word_reads_back(st: crate::asm_lines::SParse, k: u8, name: Seq<char>)
    requires
        k == 0 || k == 1,
        name.len() > 0,
    ensures
        crate::asm_lines::import_update(st, seq![kind_word(k), name]).imports == st.imports.push((name, k)),
        kind_word(k) == crate::linker::kind_text(k),
{
    reveal_strlit("code");
    reveal_strlit("data");
    let w = kind_word(k);
    if k == 0 {
        assert(crate::text::eq_ignore_case(w, "code"@));
    } else {
        assert(!crate::text::eq_ignore_case(w, "code"@)) by {
            assert(crate::text::ascii_lower_code(w[0]) != crate::text::ascii_lower_code("code"@[0]));
        }
        assert(crate::text::eq_ignore_case(w, "data"@));
    }
}

pub open spec fn section_lines(sizes: Seq<nat>) -> Seq<Seq<char>> {
    let keys = seq!["import"@, "locals"@, "labels"@, "const"@, "data"@, "export"@, "code"@];
    Seq::new(7, |i: int| "  - "@ + keys[i] + ": "@ + dec(sizes[i]) + " bytes"@)
}

/// The lines of a dump: version, entry, section sizes, code labels,
/// exports, imports, and (when there is data) the data labels and size.
pub open spec fn dump_lines(m: MASIFile) -> Seq<Seq<char>> {
    let labels = offset_names(m.label_map@);
    let data = offset_names(m.data_label_map@);
    let ex = export_view(m.exports@);
    let im = import_view(m.imports@);
    seq!["MASI Dump"@, "- Version: "@ + dec(m.version as nat), "- Entry: 0x"@ + zero_pad(hex_upper(m.entry as nat), 16),
        "- Sections:"@] + section_lines(sizes_of(m.section_sizes)) + (if labels.len() > 0 {
        seq!["- Labels:"@] + offset_lines(sorted_by_offset(labels))
    } else {
        seq![]
    }) + (if ex.len() > 0 {
        seq!["- Exports:"@] + ex.map_values(
            |e: (u8, Seq<char>, u64)| "  - "@ + kind_word(e.0) + " "@ + e.1 + " @ 0x"@ + hex_upper(e.2 as nat),
        )
    } else {
        seq![]
    }) + (if im.len() > 0 {
        seq!["- Imports:"@] + im.map_values(
            |e: (u8, Seq<char>, Seq<(u8, u64)>)| "  - "@ + kind_word(e.0) + " "@ + e.1 + " ("@ + dec(e.2.len()) + " refs)"@,
        )
    } else {
        seq![]
    }) + (if m.section_sizes.data > 0 {
        seq!["- Data labels:"@] + offset_lines(sorted_by_offset(data)) + seq![
            "- Data section size: "@ + dec(m.section_sizes.data as nat) + " bytes"@,
        ]
    } else {
        seq![]
    })
}

pub open spec fn pairs_of(v: Seq<(u64, Vec<char>)>) -> Seq<(u64, Seq<char>)> {
    v.map_values(|e: (u64, Vec<char>)| (e.0, e.1@))
}

fn sort_by_offset_exec(l: &Vec<(u64, String)>) -> (r: Vec<(u64, Vec<char>)>)
    ensures
        pairs_of(r@) == sorted_by_offset(offset_names(l@)),
{
    let ghost lv = offset_names(l@);
    let mut out: Vec<(u64, Vec<char>)> = Vec::new();
    let mut i: usize = 0;
    proof {
        assert(lv.take(0) =~= Seq::<(u64, Seq<char>)>::empty());
        assert(pairs_of(out@) =~= Seq::<(u64, Seq<char>)>::empty());
    }
    while i < l.len()
        invariant
            i <= l@.len(),
            lv == offset_names(l@),
            pairs_of(out@) == sorted_by_offset(lv.take(i as int)),
        decreases l.len() - i,
    {
        let k = l[i].0;
        let name = str_chars(l[i].1.as_str());
        let ghost e = (k, name@);
        let ghost o0 = pairs_of(out@);
        proof {
            assert(lv.take(i + 1).drop_last() =~= lv.take(i as int));
            assert(lv.take(i + 1).last() == e);
        }
        let mut j: usize = 0;
        proof {
            assert(o0.take(0) + insert_sorted(o0.skip(0), e) =~= insert_sorted(o0, e)) by {
                assert(o0.skip(0) =~= o0);
            }
        }
        while j < out.len() && !(k < out[j].0)
            invariant
                j <= out@.len(),
                o0 == pairs_of(out@),
                e.0 == k,
                o0.take(j as int) + insert_sorted(o0.skip(j as int), e) == insert_sorted(o0, e),
            decreases out.len() - j,
        {
            proof {
                let t = o0.skip(j as int);
                assert(t[0] == o0[j as int]);
                assert(o0[j as int].0 == out@[j as int].0);
                assert(!(e.0 < t[0].0));
                assert(insert_sorted(t, e) == seq![t[0]] + insert_sorted(t.drop_first(), e));
                assert(t.drop_first() =~= o0.skip(j + 1));
                assert(o0.take(j + 1) =~= o0.take(j as int).push(o0[j as int]));
                assert(o0.take(j as int) + insert_sorted(t, e) =~= o0.take(j + 1) + insert_sorted(o0.skip(j + 1), e));
            }
            j = j + 1;
        }
        out.insert(j, (k, name));
        proof {
            let t = o0.skip(j as int);
            if j < o0.len() {
                assert(t[0] == o0[j as int]);
            } else {
                assert(t =~= Seq::<(u64, Seq<char>)>::empty());
            }
            assert(pairs_of(out@) =~= o0.take(j as int) + (seq![e] + t));
        }
        i = i + 1;
    }
    proof {
        assert(lv.take(i as int) =~= lv);
    }
    out
}

fn push_line(lines: &mut Vec<Vec<char>>, l: Vec<char>)
    ensures
        crate::text::views(final(lines)@) == crate::text::views(old(lines)@).push(l@),
{
    let ghost before = crate::text::views(lines@);
    let ghost lv = l@;
    lines.push(l);
    assert(crate::text::views(lines@) =~= before.push(lv));
}

fn offset_lines_exec(lines: &mut Vec<Vec<char>>, l: &Vec<(u64, Vec<char>)>)
    ensures
        crate::text::views(final(lines)@) == crate::text::views(old(lines)@) + offset_lines(pairs_of(l@)),
{
    let ghost l0 = crate::text::views(lines@);
    let mut i: usize = 0;
    while i < l.len()
        invariant
            i <= l@.len(),
            crate::text::views(lines@) == l0 + offset_lines(pairs_of(l@)).take(i as int),
        decreases l.len() - i,
    {
        let mut m: Vec<char> = Vec::new();
        append_str(&mut m, "  - 0x");
        let h = hex_upper_chars(l[i].0);
        append_chars(&mut m, h.as_slice());
        append_str(&mut m, ": ");
        append_chars(&mut m, l[i].1.as_slice());
        push_line(lines, m);
        proof {
            assert(l0 + offset_lines(pairs_of(l@)).take(i + 1) =~= (l0 + offset_lines(pairs_of(l@)).take(i as int)).push(
                offset_lines(pairs_of(l@))[i as int],
            ));
        }
        i = i + 1;
    }
    proof {
        assert(offset_lines(pairs_of(l@)).take(i as int) =~= offset_lines(pairs_of(l@)));
    }
}

fn size_line(key: &str, n: usize) -> (r: Vec<char>)
    ensures
        r@ == "  - "@ + key@ + ": "@ + dec(n as nat) + " bytes"@,
{
    let mut m: Vec<char> = Vec::new();
    append_str(&mut m, "  - ");
    append_str(&mut m, key);
    append_str(&mut m, ": ");
    let d = dec_chars(n as u64);
    append_chars(&mut m, d.as_slice());
    append_str(&mut m, " bytes");
    m
}

/// A readable summary of a MASI file.
#[verifier::rlimit(40)]
pub fn dump(masi: &MASIFile) -> (r: String)
    ensures
        r@ == join_lines(dump_lines(*masi)),
{
    let mut lines: Vec<Vec<char>> = Vec::new();
    push_line(&mut lines, str_chars("MASI Dump"));
    let mut v: Vec<char> = Vec::new();
    append_str(&mut v, "- Version: ");
    let d = dec_chars(masi.version as u64);
    append_chars(&mut v, d.as_slice());
    push_line(&mut lines, v);
    let mut e: Vec<char> = Vec::new();
    append_str(&mut e, "- Entry: 0x");
    let h = hex_upper_chars(masi.entry);
    let hp = zero_pad_chars(h, 16);
    append_chars(&mut e, hp.as_slice());
    push_line(&mut lines, e);
    push_line(&mut lines, str_chars("- Sections:"));
    let sz = &masi.section_sizes;
    push_line(&mut lines, size_line("import", sz.import));
    push_line(&mut lines, size_line("locals", sz.locals));
    push_line(&mut lines, size_line("labels", sz.labels));
    push_line(&mut lines, size_line("const", sz.constants));
    push_line(&mut lines, size_line("data", sz.data));
    push_line(&mut lines, size_line("export", sz.export));
    push_line(&mut lines, size_line("code", sz.code));
    let ghost head = crate::text::views(lines@);
    proof {
        assert(head =~= seq!["MASI Dump"@, "- Version: "@ + dec(masi.version as nat), "- Entry: 0x"@ + zero_pad(
            hex_upper(masi.entry as nat),
            16,
        ), "- Sections:"@] + section_lines(sizes_of(masi.section_sizes)));
    }
    if masi.label_map.len() > 0 {
        push_line(&mut lines, str_chars("- Labels:"));
        let s = sort_by_offset_exec(&masi.label_map);
        offset_lines_exec(&mut lines, &s);
    }
    let ghost after_labels = crate::text::views(lines@);
    if masi.exports.len() > 0 {
        push_line(&mut lines, str_chars("- Exports:"));
        let ghost pre = crate::text::views(lines@);
        let ghost ex = export_view(masi.exports@);
        let ghost exl = ex.map_values(
            |e: (u8, Seq<char>, u64)| "  - "@ + kind_word(e.0) + " "@ + e.1 + " @ 0x"@ + hex_upper(e.2 as nat),
        );
        let mut i: usize = 0;
        while i < masi.exports.len()
            invariant
                i <= masi.exports@.len(),
                ex == export_view(masi.exports@),
                exl == ex.map_values(
                    |e: (u8, Seq<char>, u64)| "  - "@ + kind_word(e.0) + " "@ + e.1 + " @ 0x"@ + hex_upper(e.2 as nat),
                ),
                crate::text::views(lines@) == pre + exl.take(i as int),
            decreases masi.exports.len() - i,
        {
            let x = &masi.exports[i];
            let mut m: Vec<char> = Vec::new();
            append_str(&mut m, "  - ");
            if x.kind == 0 {
                append_str(&mut m, "code");
            } else {
                append_str(&mut m, "data");
            }
            append_str(&mut m, " ");
            let n = str_chars(x.name.as_str());
            append_chars(&mut m, n.as_slice());
            append_str(&mut m, " @ 0x");
            let h = hex_upper_chars(x.offset);
            append_chars(&mut m, h.as_slice());
            push_line(&mut lines, m);
            proof {
                assert(pre + exl.take(i + 1) =~= (pre + exl.take(i as int)).push(exl[i as int]));
            }
            i = i + 1;
        }
        proof {
            assert(exl.take(i as int) =~= exl);
        }
    }
    let ghost after_exports = crate::text::views(lines@);
    if masi.imports.len() > 0 {
        push_line(&mut lines, str_chars("- Imports:"));
        let ghost pre = crate::text::views(lines@);
        let ghost im = import_view(masi.imports@);
        let ghost iml = im.map_values(
            |e: (u8, Seq<char>, Seq<(u8, u64)>)| "  - "@ + kind_word(e.0) + " "@ + e.1 + " ("@ + dec(e.2.len()) + " refs)"@,
        );
        let mut i: usize = 0;
        while i < masi.imports.len()
            invariant
                i <= masi.imports@.len(),
                im == import_view(masi.imports@),
                iml == im.map_values(
                    |e: (u8, Seq<char>, Seq<(u8, u64)>)| "  - "@ + kind_word(e.0) + " "@ + e.1 + " ("@ + dec(e.2.len())
                        + " refs)"@,
                ),
                crate::text::views(lines@) == pre + iml.take(i as int),
            decreases masi.imports.len() - i,
        {
            let x = &masi.imports[i];
            let mut m: Vec<char> = Vec::new();
            append_str(&mut m, "  - ");
            if x.kind == 0 {
                append_str(&mut m, "code");
            } else {
                append_str(&mut m, "data");
            }
            append_str(&mut m, " ");
            let n = str_chars(x.name.as_str());
            append_chars(&mut m, n.as_slice());
            append_str(&mut m, " (");
            let d = dec_chars(x.refs.len() as u64);
            append_chars(&mut m, d.as_slice());
            append_str(&mut m, " refs)");
            proof {
                assert(im[i as int].2.len() == x.refs@.len());
            }
            push_line(&mut lines, m);
            proof {
                assert(pre + iml.take(i + 1) =~= (pre + iml.take(i as int)).push(iml[i as int]));
            }
            i = i + 1;
        }
        proof {
            assert(iml.take(i as int) =~= iml);
        }
    }
    let ghost after_imports = crate::text::views(lines@);
    if sz.data > 0 {
        push_line(&mut lines, str_chars("- Data labels:"));
        let s = sort_by_offset_exec(&masi.data_label_map);
        offset_lines_exec(&mut lines, &s);
        let mut m: Vec<char> = Vec::new();
        append_str(&mut m, "- Data section size: ");
        let d = dec_chars(sz.data as u64);
        append_chars(&mut m, d.as_slice());
        append_str(&mut m, " bytes");
        push_line(&mut lines, m);
    }
    proof {
        assert(crate::text::views(lines@) =~= dump_lines(*masi));
    }
    let j = join_exec(&lines);
    chars_to_string(j.as_slice())
}

} // verus!
