//! The assembler: MASM source text to a MASI image.
//!
//! Assembly runs in one pass over the source and stops where it needs a
//! value only the host can give: the bit pattern of a floating-point
//! literal, or the contents of a binary include file. The caller supplies
//! it in the `AsmEnv` and runs the assembler again.
use vstd::prelude::*;
use crate::text::{views, str_chars, chars_to_string, copy_chars};
use crate::fmt::append_str;
use crate::macros::{join_lines, join_exec};
use crate::includes::{expand_includes, expand_includes_exec, include_target, newline_each, lemma_expand_lines_plain};
use crate::text::lines_of;
use crate::macros::macro_expand;
use crate::encode::{native_args_fit, lemma_emitted_code_decodes};
use crate::disassembler::decodes;
use crate::asm_lines::{SEnv, env_view, AsmEnv, Need, SNeed, SParse, SInst, Parse, parse_view, need_view, opt_view};
use crate::parse::{
    parse_program, parse_program_exec, lemma_parse_program_wf, insts_wf, inst_wf, dollar, is_binary_include_line, binary_include_path, spec_path_is_absolute,
    lemma_parse_from_base_free,
};
use crate::asm_lines::empty_parse;
use crate::layout::{
    CodeLayout, DataLayout, code_layout, data_layout, code_layout_exec, data_layout_exec, insts_view,
    dirs_view, labels_view, inst_size,
};
use crate::encode::{
    Syms, SymTables, SReloc, emit_code, emit_code_exec, syms_view, rels_view, emit_range, emit_op, emit_operand,
    emit_inst, emit_from,
};
use crate::tables::{
    offset_table, offset_table_exec, export_error, export_error_exec, export_list, export_bytes,
    export_table_exec, group, group_exec, import_bytes, import_table_exec,
};
use crate::masi::{
    masi_image, compose_masi, chunks_small, has_header, chunks_fit, chunk_list, le16, le64, lemma_masi_image_decodes,
};

verus! {

/// Outcome of a run of the assembler: a value it needs first, or the
/// warnings it gave and the image (or error message).
pub enum AsmStep {
    Need(Need),
    Done(Vec<String>, Result<Vec<u8>, String>),
}

pub enum SAsm {
    Need(SNeed),
    Done(Seq<Seq<char>>, Result<Seq<u8>, Seq<char>>),
}

pub open spec fn strings_view(v: Seq<String>) -> Seq<Seq<char>> {
    v.map_values(|s: String| s@)
}

pub open spec fn step_view(s: AsmStep) -> SAsm {
    match s {
        AsmStep::Need(n) => SAsm::Need(need_view(n)),
        AsmStep::Done(w, r) => SAsm::Done(
            strings_view(w@),
            match r {
                Ok(b) => Ok(b@),
                Err(m) => Err(m@),
            },
        ),
    }
}

pub open spec fn code_too_large() -> Seq<char> {
    "error: code section exceeds the 64-bit address range"@
}

pub open spec fn data_too_large() -> Seq<char> {
    "error: data section exceeds the address space"@
}

pub open spec fn entry_of(c: CodeLayout) -> u64 {
    match c.entry {
        Some(e) => e as u64,
        None => 0,
    }
}

/// The seven chunks of an image: the import table, the data label table,
/// the code label table, an empty constant table, the data, the export
/// table and the code.
pub open spec fn image_chunks(p: SParse, c: CodeLayout, d: DataLayout, code: Seq<u8>, rel: Seq<SReloc>) -> Seq<Seq<u8>> {
    seq![
        import_bytes(group(rel)),
        offset_table(d.offs),
        offset_table(c.labels),
        seq![],
        d.bytes,
        export_bytes(export_list(p.exports, c.labels, d.offs)),
        code,
    ]
}

/// The image: the header with the entry offset, then the seven chunks.
pub open spec fn image(p: SParse, c: CodeLayout, d: DataLayout, code: Seq<u8>, rel: Seq<SReloc>) -> Seq<u8> {
    masi_image(entry_of(c), image_chunks(p, c, d, code, rel))
}

/// The seven chunks that assembling an expanded source text lays out
/// (meaningful where that assembly succeeds).
pub open spec fn source_chunks(t: Seq<char>, env: SEnv, base: Option<Seq<char>>) -> Seq<Seq<u8>> {
    let p = parse_program(t, env, base)->Ok_0;
    let c = code_layout(p.insts);
    let d = data_layout(p.dirs)->Some_0;
    let r = emit_code(p.insts, Syms { labels: c.labels, data: d.offs, imports: p.imports }, env)->Ok_0;
    image_chunks(p, c, d, r.0, r.1)
}

/// The seven chunks that assembling a source lays out (meaningful where
/// that assembly succeeds).
pub open spec fn assembled_chunks(src: Seq<char>, env: SEnv, base: Option<Seq<char>>) -> Seq<Seq<u8>> {
    source_chunks(expand_includes(src, env, base)->Ok_0->Ok_0, env, base)
}

/// What assembling `src` gives once its source includes are expanded:
/// the first that needs something from outside, an error that ends the
/// assembly (with no warnings), or what assembling the expanded text gives.
pub open spec fn assemble(src: Seq<char>, env: SEnv, base: Option<Seq<char>>) -> SAsm {
    match expand_includes(src, env, base) {
        Err(n) => SAsm::Need(n),
        Ok(Err(m)) => SAsm::Done(seq![], Err(m)),
        Ok(Ok(t)) => assemble_source(t, env, base),
    }
}

/// A source with no `#include` line, and whose macro expansion includes
/// binary files by absolute paths only, assembles alike with and without a
/// base directory, and whatever the base directory.
pub proof fn lemma_assemble_base_free(src: Seq<char>, env: SEnv, b1: Option<Seq<char>>, b2: Option<Seq<char>>)
    requires
        forall|k: int| 0 <= k < lines_of(src).len() ==> include_target(#[trigger] lines_of(src)[k]) is None,
        forall|k: int|
            0 <= k < lines_of(macro_expand(newline_each(lines_of(src)))).len() && is_binary_include_line(
                #[trigger] lines_of(macro_expand(newline_each(lines_of(src))))[k],
            ) ==> spec_path_is_absolute(binary_include_path(lines_of(macro_expand(newline_each(lines_of(src))))[k])),
    ensures
        assemble(src, env, b1) == assemble(src, env, b2),
{
    let t = newline_each(lines_of(src));
    lemma_expand_lines_plain(lines_of(src), env, b1, 0);
    lemma_expand_lines_plain(lines_of(src), env, b2, 0);
    lemma_parse_from_base_free(lines_of(macro_expand(t)), 0, empty_parse(), env, b1, b2);
    assert(parse_program(t, env, b1) == parse_program(t, env, b2));
}

/// What assembling an expanded source text gives; binary include files are
/// looked up by their path joined to `base`.
pub open spec fn assemble_source(src: Seq<char>, env: SEnv, base: Option<Seq<char>>) -> SAsm {
    match parse_program(src, env, base) {
        Err(n) => SAsm::Need(n),
        Ok(p) => {
            let w = p.warns;
            let c = code_layout(p.insts);
            if c.pc > u64::MAX {
                SAsm::Done(w, Err(code_too_large()))
            } else {
                match data_layout(p.dirs) {
                    None => SAsm::Done(w, Err(data_too_large())),
                    Some(d) => {
                        let errs = c.errs + d.errs;
                        if errs.len() > 0 {
                            SAsm::Done(w, Err(join_lines(errs)))
                        } else {
                            match export_error(p.exports, c.labels, d.offs) {
                                Some(e) => SAsm::Done(w, Err(e)),
                                None => match emit_code(p.insts, Syms { labels: c.labels, data: d.offs, imports: p.imports }, env) {
                                    Err(n) => SAsm::Need(n),
                                    Ok((code, rel)) => SAsm::Done(w, Ok(image(p, c, d, code, rel))),
                                },
                            }
                        }
                    },
                }
            }
        },
    }
}

fn to_strings(v: &Vec<Vec<char>>) -> (r: Vec<String>)
    ensures
        strings_view(r@) == views(v@),
{
    let mut out: Vec<String> = Vec::new();
    let mut i: usize = 0;
    while i < v.len()
        invariant
            i <= v@.len(),
            strings_view(out@) == views(v@).take(i as int),
        decreases v.len() - i,
    {
        let s = chars_to_string(v[i].as_slice());
        let ghost before = strings_view(out@);
        let ghost sv = s@;
        out.push(s);
        proof {
            assert(strings_view(out@) =~= before.push(sv));
            assert(before.push(sv) =~= views(v@).take(i + 1));
        }
        i = i + 1;
    }
    proof {
        assert(views(v@).take(i as int) =~= views(v@));
    }
    out
}

fn message(s: &str) -> (r: String)
    ensures
        r@ == s@,
{
    let c = str_chars(s);
    chars_to_string(c.as_slice())
}

fn assemble_exec(src: &[char], env: &AsmEnv, base: &Option<Vec<char>>) -> (r: AsmStep)
    ensures
        step_view(r) == assemble(src@, env_view(*env), opt_view(*base)),
{
    match expand_includes_exec(src, env, base) {
        Err(n) => AsmStep::Need(n),
        Ok(Err(m)) => {
            let w: Vec<String> = Vec::new();
            assert(strings_view(w@) =~= Seq::<Seq<char>>::empty());
            AsmStep::Done(w, Err(chars_to_string(m.as_slice())))
        },
        Ok(Ok(t)) => assemble_source_exec(t.as_slice(), env, base),
    }
}

fn assemble_source_exec(src: &[char], env: &AsmEnv, base: &Option<Vec<char>>) -> (r: AsmStep)
    ensures
        step_view(r) == assemble_source(src@, env_view(*env), opt_view(*base)),
{
    let p = match parse_program_exec(src, env, base) {
        Err(n) => {
            return AsmStep::Need(n);
        },
        Ok(p) => p,
    };
    let ghost pv = parse_view(p);
    proof {
        lemma_parse_program_wf(src@, env_view(*env), opt_view(*base));
        assert(insts_view(p.insts@) == pv.insts);
        assert(dirs_view(p.dirs@) == pv.dirs);
    }
    let warns = to_strings(&p.warns);
    let (labels, cerrs, entry, _pc) = match code_layout_exec(&p.insts) {
        None => {
            return AsmStep::Done(warns, Err(message("error: code section exceeds the 64-bit address range")));
        },
        Some(x) => x,
    };
    let (dbytes, offs, derrs) = match data_layout_exec(&p.dirs) {
        None => {
            return AsmStep::Done(warns, Err(message("error: data section exceeds the address space")));
        },
        Some(x) => x,
    };
    if cerrs.len() > 0 || derrs.len() > 0 {
        let mut all: Vec<Vec<char>> = Vec::new();
        let mut i: usize = 0;
        while i < cerrs.len()
            invariant
                i <= cerrs@.len(),
                views(all@) == views(cerrs@).take(i as int),
            decreases cerrs.len() - i,
        {
            let e = copy_chars(cerrs[i].as_slice());
            let ghost before = views(all@);
            let ghost ev = e@;
            all.push(e);
            proof {
                assert(views(all@) =~= before.push(ev));
                assert(before.push(ev) =~= views(cerrs@).take(i + 1));
            }
            i = i + 1;
        }
        let mut k: usize = 0;
        proof {
            assert(views(cerrs@).take(i as int) =~= views(cerrs@));
            assert(views(derrs@).take(0) =~= Seq::<Seq<char>>::empty());
            assert(views(all@) =~= views(cerrs@) + views(derrs@).take(0));
        }
        while k < derrs.len()
            invariant
                k <= derrs@.len(),
                views(all@) == views(cerrs@) + views(derrs@).take(k as int),
            decreases derrs.len() - k,
        {
            let e = copy_chars(derrs[k].as_slice());
            let ghost before = views(all@);
            let ghost ev = e@;
            all.push(e);
            proof {
                assert(views(all@) =~= before.push(ev));
                assert(before.push(ev) =~= views(cerrs@) + views(derrs@).take(k + 1));
            }
            k = k + 1;
        }
        proof {
            assert(views(derrs@).take(k as int) =~= views(derrs@));
        }
        let j = join_exec(&all);
        return AsmStep::Done(warns, Err(chars_to_string(j.as_slice())));
    }
    match export_error_exec(&p.exports, &labels, &offs) {
        Some(m) => {
            return AsmStep::Done(warns, Err(chars_to_string(m.as_slice())));
        },
        None => {},
    }
    let ex = export_table_exec(&p.exports, &labels, &offs);
    let locals = offset_table_exec(&offs);
    let label_table = offset_table_exec(&labels);
    let t = SymTables { labels, data: offs, imports: p.imports };
    proof {
        assert(syms_view(t) == Syms { labels: labels_view(t.labels@), data: labels_view(t.data@), imports: pv.imports });
    }
    let (code, rel) = match emit_code_exec(&p.insts, &t, env) {
        Err(n) => {
            return AsmStep::Need(n);
        },
        Ok(x) => x,
    };
    let g = group_exec(&rel);
    let imports = import_table_exec(&g);
    let e: u64 = match entry {
        Some(x) => x,
        None => 0,
    };
    let constants: Vec<u8> = Vec::new();
    let out = compose_masi(
        e,
        imports.as_slice(),
        locals.as_slice(),
        label_table.as_slice(),
        constants.as_slice(),
        dbytes.as_slice(),
        ex.as_slice(),
        code.as_slice(),
    );
    proof {
        assert(constants@ =~= Seq::<u8>::empty());
    }
    AsmStep::Done(warns, Ok(out))
}

/// Assembles a source text into a MASI image. Binary include files are
/// looked up in `env` by their path as written.
pub fn assemble_to_masi(src: &str, env: &AsmEnv) -> (r: AsmStep)
    ensures
        step_view(r) == assemble(src@, env_view(*env), None),
{
    let s = str_chars(src);
    assemble_exec(s.as_slice(), env, &None)
}

/// Assembles a source text into a MASI image; binary include files are
/// looked up in `env` by their path joined to `base_dir`.
pub fn assemble_to_masi_with_base(src: &str, base_dir: &str, env: &AsmEnv) -> (r: AsmStep)
    ensures
        step_view(r) == assemble(src@, env_view(*env), Some(base_dir@)),
{
    let s = str_chars(src);
    let b = str_chars(base_dir);
    assemble_exec(s.as_slice(), env, &Some(b))
}

} // verus!

verus! {

proof fn lemma_emit_range_len(
    ops: Seq<Seq<char>>,
    i: int,
    end: int,
    pre: bool,
    code: Seq<u8>,
    rel: Seq<SReloc>,
    sy: Syms,
    env: SEnv,
)
    requires
        0 <= i <= end <= ops.len(),
    ensures
        emit_range(ops, i, end, pre, code, rel, sy, env) matches Ok((c2, r2)) ==> c2.len() == code.len() + 9 * (end - i),
    decreases end - i,
{
    if i < end {
        let o = if pre { dollar(ops[i]) } else { ops[i] };
        if let Ok((c1, r1)) = emit_op(o, code, rel, sy, env) {
            let (m, v, r) = emit_operand(o, sy, env)->Ok_0;
            crate::le::lemma_le_bytes_len(v as nat, 8);
            lemma_emit_range_len(ops, i + 1, end, pre, c1, r1, sy, env);
        }
    }
}

proof fn lemma_emit_inst_len(ins: SInst, code: Seq<u8>, rel: Seq<SReloc>, sy: Syms, env: SEnv)
    requires
        inst_wf(ins),
    ensures
        emit_inst(ins, code, rel, sy, env) matches Ok((c2, r2)) ==> c2.len() == code.len() + inst_size(ins),
{
    if ins.kind == 2 {
        lemma_emit_range_len(ins.ops, 0, 2, false, code.push(ins.opcode), rel, sy, env);
        if let Ok((c2, r2)) = emit_range(ins.ops, 0, 2, false, code.push(ins.opcode), rel, sy, env) {
            crate::le::lemma_le_bytes_len((ins.ops.len() - 2) as nat, 2);
            lemma_emit_range_len(
                ins.ops,
                2,
                ins.ops.len() as int,
                true,
                c2 + crate::le::le_bytes((ins.ops.len() - 2) as nat, 2),
                r2,
                sy,
                env,
            );
        }
    } else if ins.kind != 0 {
        lemma_emit_range_len(ins.ops, 0, ins.ops.len() as int, false, code.push(ins.opcode), rel, sy, env);
    }
}

proof fn lemma_emit_from_len(insts: Seq<SInst>, j: int, code: Seq<u8>, rel: Seq<SReloc>, sy: Syms, env: SEnv)
    requires
        0 <= j <= insts.len(),
        insts_wf(insts),
    ensures
        emit_from(insts, j, code, rel, sy, env) matches Ok((c2, r2)) ==> c2.len() == code.len() + code_layout(insts).pc
            - code_layout(insts.take(j)).pc,
    decreases insts.len() - j,
{
    if j < insts.len() {
        assert(inst_wf(insts[j]));
        lemma_emit_inst_len(insts[j], code, rel, sy, env);
        assert(insts.take(j + 1).drop_last() =~= insts.take(j));
        if let Ok((c1, r1)) = emit_inst(insts[j], code, rel, sy, env) {
            lemma_emit_from_len(insts, j + 1, c1, r1, sy, env);
        }
    } else {
        assert(insts.take(j) =~= insts);
    }
}

proof fn lemma_entry_below_pc(insts: Seq<SInst>)
    ensures
        code_layout(insts).entry matches Some(e) ==> e < code_layout(insts).pc,
        code_layout(insts).entry is None ==> code_layout(insts).pc == 0,
    decreases insts.len(),
{
    if insts.len() > 0 {
        lemma_entry_below_pc(insts.drop_last());
    }
}

/// An image the assembler produced reads back: its header and its seven
/// chunks are sound (given that each chunk is under 4 GiB, the limit of
/// its 32-bit length), and it holds the entry offset, code and data
/// that assembly laid out. The entry lies within the code, unless there is
/// no code, and then it is 0.
proof fn lemma_source_image_decodes(src: Seq<char>, env: SEnv, base: Option<Seq<char>>)
    requires
        assemble_source(src, env, base) matches SAsm::Done(_, Ok(b)),
        chunks_small(source_chunks(src, env, base)),
    ensures
        ({
            let b = assemble_source(src, env, base)->Done_1->Ok_0;
            let p = parse_program(src, env, base)->Ok_0;
            let c = code_layout(p.insts);
            let d = data_layout(p.dirs)->Some_0;
            let code = emit_code(p.insts, Syms { labels: c.labels, data: d.offs, imports: p.imports }, env)->Ok_0.0;
            &&& has_header(b)
            &&& chunks_fit(b)
            &&& chunk_list(b, 16, 7) == Some(source_chunks(src, env, base))
            &&& le16(b, 4) == 1
            &&& le64(b, 8) == entry_of(c)
            &&& chunk_list(b, 16, 7)->Some_0[6] == code
            &&& chunk_list(b, 16, 7)->Some_0[4] == d.bytes
            &&& code.len() == c.pc
            &&& (entry_of(c) < code.len() || (code.len() == 0 && entry_of(c) == 0))
        }),
{
    let b = assemble_source(src, env, base)->Done_1->Ok_0;
    let p = parse_program(src, env, base)->Ok_0;
    let c = code_layout(p.insts);
    let d = data_layout(p.dirs)->Some_0;
    let sy = Syms { labels: c.labels, data: d.offs, imports: p.imports };
    let (code, rel) = emit_code(p.insts, sy, env)->Ok_0;
    let cs = seq![
        import_bytes(group(rel)),
        offset_table(d.offs),
        offset_table(c.labels),
        seq![],
        d.bytes,
        export_bytes(export_list(p.exports, c.labels, d.offs)),
        code,
    ];
    assert(cs == source_chunks(src, env, base));
    assert(b == masi_image(entry_of(c), cs));
    lemma_masi_image_decodes(entry_of(c), cs);
    lemma_parse_program_wf(src, env, base);
    lemma_emit_from_len(p.insts, 0, seq![], seq![], sy, env);
    assert(p.insts.take(0) =~= Seq::<SInst>::empty());
    lemma_entry_below_pc(p.insts);
}

} // verus!

verus! {

/// An image the assembler produced reads back: its header and its seven
/// chunks are sound (given that each chunk is under 4 GiB, the limit of
/// its 32-bit length), and it holds the entry offset, code and data
/// that assembly of the expanded source laid out. The entry lies within
/// the code, unless there is no code, and then it is 0.
pub proof fn lemma_assembled_image_decodes(src: Seq<char>, env: SEnv, base: Option<Seq<char>>)
    requires
        assemble(src, env, base) matches SAsm::Done(_, Ok(b)),
        chunks_small(assembled_chunks(src, env, base)),
    ensures
        ({
            let t = expand_includes(src, env, base)->Ok_0->Ok_0;
            let b = assemble(src, env, base)->Done_1->Ok_0;
            let p = parse_program(t, env, base)->Ok_0;
            let c = code_layout(p.insts);
            let d = data_layout(p.dirs)->Some_0;
            let code = emit_code(p.insts, Syms { labels: c.labels, data: d.offs, imports: p.imports }, env)->Ok_0.0;
            &&& expand_includes(src, env, base) is Ok
            &&& expand_includes(src, env, base)->Ok_0 is Ok
            &&& has_header(b)
            &&& chunks_fit(b)
            &&& chunk_list(b, 16, 7) == Some(assembled_chunks(src, env, base))
            &&& le16(b, 4) == 1
            &&& le64(b, 8) == entry_of(c)
            &&& chunk_list(b, 16, 7)->Some_0[6] == code
            &&& chunk_list(b, 16, 7)->Some_0[4] == d.bytes
            &&& code.len() == c.pc
            &&& (entry_of(c) < code.len() || (code.len() == 0 && entry_of(c) == 0))
        }),
{
    let t = expand_includes(src, env, base)->Ok_0->Ok_0;
    lemma_source_image_decodes(t, env, base);
}

} // verus!

verus! {

/// Everything the assembler produces can be disassembled: the code chunk
/// of an image it wrote decodes instruction by instruction to its end, so
/// the disassembler and the VM's fetch accept every instruction of it
/// (given that each chunk of the image is under 4 GiB and no native call of the source
/// has more than 65535 arguments, the most a 16-bit count holds).
pub proof fn lemma_assembled_code_decodes(src: Seq<char>, env: SEnv, base: Option<Seq<char>>)
    requires
        assemble(src, env, base) matches SAsm::Done(_, Ok(b)),
        chunks_small(assembled_chunks(src, env, base)),
        native_args_fit(parse_program(expand_includes(src, env, base)->Ok_0->Ok_0, env, base)->Ok_0.insts),
    ensures
        decodes(chunk_list(assemble(src, env, base)->Done_1->Ok_0, 16, 7)->Some_0[6], 0),
{
    lemma_assembled_image_decodes(src, env, base);
    let t = expand_includes(src, env, base)->Ok_0->Ok_0;
    let p = parse_program(t, env, base)->Ok_0;
    let c = code_layout(p.insts);
    let d = data_layout(p.dirs)->Some_0;
    lemma_parse_program_wf(t, env, base);
    lemma_emitted_code_decodes(p.insts, Syms { labels: c.labels, data: d.offs, imports: p.imports }, env);
}

} // verus!
