//! Program parsing: instruction lines, native-module calls, binary
//! includes, and the whole (macro-expanded) source.
use vstd::prelude::*;
use crate::vm::operand_count;
use crate::text::{
    trim, trim_chars, strip_comment, strip_comment_chars, lines_of, lines_chars, split_on,
    split_on_chars, views, starts_with, starts_with_str, skip_bytes, skip_bytes_chars,
    lower_text, lower_chars, split_once, split_once_chars, trim_set, trim_set_chars,
    eq_str, copy_chars, utf8_bytes, slice_chars,
};
use crate::fmt::{append_chars, append_str};
use crate::assoc::assoc_get;
use crate::le::le_value;
use crate::macros::{macro_expand, expand_macros};
use crate::asm_lines::{SEnv, env_view, 
    AsmEnv, Dir, SDir, Inst, SInst, Need, SNeed, Val, SVal, Parse, SParse, parse_view, empty_parse,
    dir_view, inst_view, need_view, files_view, file_view, env_file, data_line, data_line_exec,
    spec_short_hash, short_hash_chars,
};

verus! {

// ------------------------------------------------------------ mnemonics

/// Mnemonic, operand count and opcode of each ordinary instruction.
pub open spec fn op_table() -> Seq<(Seq<char>, nat, u8)> {
    seq![
        ("mov"@, 2nat, 0x01u8), ("add"@, 2nat, 0x02u8), ("sub"@, 2nat, 0x03u8),
        ("jmp"@, 1nat, 0x10u8),
        ("cmp"@, 2nat, 0x11u8), ("je"@, 1nat, 0x12u8), ("jeq"@, 1nat, 0x12u8),
        ("jz"@, 1nat, 0x12u8), ("jne"@, 1nat, 0x13u8), ("jnz"@, 1nat, 0x13u8),
        ("jl"@, 1nat, 0x14u8), ("jle"@, 1nat, 0x15u8), ("jg"@, 1nat, 0x16u8),
        ("jge"@, 1nat, 0x17u8), ("fmov"@, 2nat, 0x70u8), ("fadd"@, 2nat, 0x71u8),
        ("fsub"@, 2nat, 0x72u8), ("fmul"@, 2nat, 0x73u8), ("fdiv"@, 2nat, 0x74u8),
        ("fcmp"@, 2nat, 0x75u8), ("fje"@, 1nat, 0x76u8), ("fjne"@, 1nat, 0x77u8),
        ("fjlt"@, 1nat, 0x78u8), ("fjle"@, 1nat, 0x79u8), ("fjgt"@, 1nat, 0x7Au8),
        ("fjge"@, 1nat, 0x7Bu8), ("fjuo"@, 1nat, 0x7Cu8), ("call"@, 1nat, 0x20u8),
        ("ret"@, 0nat, 0x21u8), ("push"@, 1nat, 0x30u8), ("pop"@, 1nat, 0x31u8),
        ("out"@, 2nat, 0x40u8), ("cout"@, 2nat, 0x41u8), ("in"@, 1nat, 0x42u8),
        ("hlt"@, 0nat, 0xFFu8), ("nop"@, 0nat, 0x00u8), ("enter"@, 1nat, 0x50u8),
        ("leave"@, 0nat, 0x51u8), ("syscall"@, 0nat, 0x90u8),
    ]
}

/// Opcode of the first table entry for mnemonic `m` with `n` operands.
pub open spec fn table_find(t: Seq<(Seq<char>, nat, u8)>, m: Seq<char>, n: nat) -> Option<u8>
    decreases t.len(),
{
    if t.len() == 0 {
        None
    } else if t[0].0 == m && t[0].1 == n {
        Some(t[0].2)
    } else {
        table_find(t.drop_first(), m, n)
    }
}

/// The instruction for mnemonic `m` (lower case) and its operands, if it is
/// a label or an ordinary instruction.
pub open spec fn inst_of(m: Seq<char>, ops: Seq<Seq<char>>) -> Option<SInst> {
    if (m == "lbl"@ || m == "label"@) && ops.len() == 1 {
        Some(SInst { kind: 0, opcode: 0, ops })
    } else if (m == "inc"@ || m == "dec"@) && ops.len() == 1 {
        Some(SInst { kind: 1, opcode: if m == "inc"@ { 0x02 } else { 0x03 }, ops: seq![ops[0], "1"@] })
    } else {
        match table_find(op_table(), m, ops.len()) {
            Some(op) => Some(SInst { kind: 1, opcode: op, ops }),
            None => None,
        }
    }
}

/// The non-empty pieces of a list.
pub open spec fn non_empty(s: Seq<Seq<char>>) -> Seq<Seq<char>>
    decreases s.len(),
{
    if s.len() == 0 {
        seq![]
    } else if s[0].len() > 0 {
        seq![s[0]] + non_empty(s.drop_first())
    } else {
        non_empty(s.drop_first())
    }
}

/// Mnemonic (lower case) and operands of an instruction line: the operands
/// are what follows the first space, split at each space and trimmed.
pub open spec fn mnemonic_operands(t: Seq<char>) -> (Seq<char>, Seq<Seq<char>>) {
    let (first, rest) = split_once(t, ' ');
    (
        lower_text(first),
        match rest {
            None => seq![],
            Some(r) => non_empty(split_on(r, ' ').map_values(|p: Seq<char>| trim(p))),
        },
    )
}

// ------------------------------------------------------------ native-module calls

pub open spec fn label_char(c: char) -> char {
    if ('0' <= c && c <= '9') || ('a' <= c && c <= 'z') || ('A' <= c && c <= 'Z') || c == '_' {
        c
    } else {
        '_'
    }
}

/// Generated data label for a native-module string operand.
pub open spec fn safe_label(s: Seq<char>) -> Seq<char> {
    "__mni_str_"@ + spec_short_hash(s) + "_"@ + s.map_values(|c: char| label_char(c))
}

/// The data label holding the zero-terminated string `s`, defining it on first use.
pub open spec fn mni_label(st: SParse, s: Seq<char>) -> (SParse, Seq<char>) {
    match assoc_get(st.mni, s) {
        Some(l) => (st, l),
        None => {
            let l = safe_label(s);
            (
                SParse {
                    dirs: st.dirs.push(SDir::Bytes(Some(l), vstd::utf8::encode_utf8(s).push(0u8))),
                    mni: st.mni.push((s, l)),
                    ..st
                },
                l,
            )
        },
    }
}

pub open spec fn mni_labels(st: SParse, args: Seq<Seq<char>>) -> (SParse, Seq<Seq<char>>)
    decreases args.len(),
{
    if args.len() == 0 {
        (st, seq![])
    } else {
        let (s1, l) = mni_label(st, args[0]);
        let (s2, ls) = mni_labels(s1, args.drop_first());
        (s2, seq![l] + ls)
    }
}

pub open spec fn dollar(l: Seq<char>) -> Seq<char> {
    seq!['$'] + l
}

/// `MNI module.function args...`, or `MNI $module $function args...`.
pub open spec fn mni_line(ops: Seq<Seq<char>>, st: SParse) -> SParse {
    if ops.len() >= 2 && starts_with(ops[0], "$"@) && starts_with(ops[1], "$"@) {
        SParse { insts: st.insts.push(SInst { kind: 2, opcode: 0x60, ops }), ..st }
    } else {
        let (module, f) = split_once(ops[0], '.');
        let function = match f {
            Some(x) => x,
            None => "main"@,
        };
        let (s1, l1) = mni_label(st, module);
        let (s2, l2) = mni_label(s1, function);
        let (s3, ls) = mni_labels(s2, ops.drop_first());
        SParse {
            insts: s3.insts.push(SInst { kind: 2, opcode: 0x60, ops: seq![dollar(l1), dollar(l2)] + ls }),
            ..s3
        }
    }
}

/// The warning for a line that is no instruction.
pub open spec fn unknown_inst(t: Seq<char>) -> Seq<char> {
    "error[EASM001]: unrecognized instruction or operand count\n  --> <input>: ?\n   = help: got: '"@
        + t + "'"@
}

pub open spec fn inst_line(t: Seq<char>, st: SParse) -> SParse {
    let (m, ops) = mnemonic_operands(t);
    if m == "mni"@ && ops.len() >= 1 {
        mni_line(ops, st)
    } else {
        match inst_of(m, ops) {
            Some(i) => SParse { insts: st.insts.push(i), ..st },
            None => SParse { warns: st.warns.push(unknown_inst(t)), ..st },
        }
    }
}

// ------------------------------------------------------------ binary includes

/// `b` padded with zeros to a multiple of eight bytes.
pub open spec fn pad8(b: Seq<u8>) -> Seq<u8> {
    b + Seq::new(((8 - b.len() % 8) % 8) as nat, |k: int| 0u8)
}

/// Consecutive eight-byte little-endian words of `b`.
pub open spec fn quads(b: Seq<u8>) -> Seq<SVal> {
    Seq::new(b.len() / 8, |k: int| SVal::Imm(le_value(b.subrange(8 * k, 8 * k + 8)) as u64))
}

pub open spec fn include_path(rest: Seq<char>) -> Seq<char> {
    let b = match split_once(rest, ',').1 {
        Some(x) => trim(x),
        None => seq![],
    };
    trim_set(b, seq!['"', '<', '>', ' '])
}

/// What `std::path::Path::is_absolute` returns for a path.
pub uninterp spec fn spec_path_is_absolute(p: Seq<char>) -> bool;

/// What `std::path::Path::join` returns for a base and a path.
pub uninterp spec fn spec_path_join(base: Seq<char>, p: Seq<char>) -> Seq<char>;

/// Calls `std::path::Path::is_absolute`; its result is named
/// `spec_path_is_absolute` (the rules are the build target's).
#[verifier::external_body]
fn path_is_absolute(p: &[char]) -> (r: bool)
    ensures
        r == spec_path_is_absolute(p@),
{
    let s: String = p.iter().collect();
    std::path::Path::new(&s).is_absolute()
}

/// Calls `std::path::Path::join` and reads the joined path back as text;
/// its result is named `spec_path_join`.
#[verifier::external_body]
fn path_join(base: &[char], p: &[char]) -> (r: Vec<char>)
    ensures
        r@ == spec_path_join(base@, p@),
{
    let b: String = base.iter().collect();
    let s: String = p.iter().collect();
    std::path::Path::new(&b).join(&s).to_string_lossy().chars().collect()
}

/// Where an include path lies: an absolute path as it stands, a relative
/// one joined to the base directory when there is one, and as written
/// when there is none.
pub open spec fn join_path(base: Option<Seq<char>>, p: Seq<char>) -> Seq<char> {
    match base {
        None => p,
        Some(b) => if spec_path_is_absolute(p) {
            p
        } else {
            spec_path_join(b, p)
        },
    }
}

/// `#include_bytes label, "path"` or `#include_dq label, "path"`; the file
/// is looked up by its path joined to the base directory.
pub open spec fn include_line(t: Seq<char>, lower: Seq<char>, st: SParse, env: SEnv, base: Option<Seq<char>>) -> Result<SParse, SNeed> {
    let is_dq = starts_with(lower, "#include_dq "@);
    let rest = skip_bytes(t, if is_dq { 12 } else { 15 });
    let label = trim(split_once(rest, ',').0);
    let path = join_path(base, include_path(rest));
    let len_label = label + "_len"@;
    match assoc_get(env.files, path) {
        None => Err(SNeed::File(path)),
        Some(Err(msg)) => Ok(SParse { warns: st.warns.push(msg), ..st }),
        Some(Ok(bytes)) => {
            let len_dir = SDir::Quads(Some(len_label), seq![SVal::Imm(bytes.len() as u64)]);
            if is_dq {
                Ok(SParse { dirs: st.dirs.push(SDir::Quads(Some(label), quads(pad8(bytes)))).push(len_dir), ..st })
            } else {
                Ok(SParse { dirs: st.dirs.push(SDir::Bytes(Some(label), bytes)).push(len_dir), ..st })
            }
        },
    }
}

// ------------------------------------------------------------ lines and programs

pub open spec fn is_include(lower: Seq<char>) -> bool {
    starts_with(lower, "#include_bytes "@) || starts_with(lower, "#include_dq "@)
}

/// One source line.
#[verifier::opaque]
pub open spec fn parse_line(raw: Seq<char>, st: SParse, env: SEnv, base: Option<Seq<char>>) -> Result<SParse, SNeed> {
    let t = trim(strip_comment(raw));
    if t.len() == 0 {
        Ok(st)
    } else {
        let lower = lower_text(t);
        if is_include(lower) {
            include_line(t, lower, st, env, base)
        } else {
            match data_line(t, st, env) {
                Err(n) => Err(n),
                Ok(Some(s2)) => Ok(s2),
                Ok(None) => Ok(inst_line(t, st)),
            }
        }
    }
}

pub open spec fn parse_from(lines: Seq<Seq<char>>, i: int, st: SParse, env: SEnv, base: Option<Seq<char>>) -> Result<SParse, SNeed>
    decreases lines.len() - i,
{
    if i >= lines.len() || i < 0 {
        Ok(st)
    } else {
        match parse_line(lines[i], st, env, base) {
            Err(n) => Err(n),
            Ok(s2) => parse_from(lines, i + 1, s2, env, base),
        }
    }
}

/// Whether a source line includes a binary file (`#include_bytes` or
/// `#include_dq`), comments and case aside.
pub open spec fn is_binary_include_line(raw: Seq<char>) -> bool {
    is_include(lower_text(trim(strip_comment(raw))))
}

/// The path a binary-include line names, as written.
pub open spec fn binary_include_path(raw: Seq<char>) -> Seq<char> {
    let t = trim(strip_comment(raw));
    let lower = lower_text(t);
    include_path(skip_bytes(t, if starts_with(lower, "#include_dq "@) { 12 } else { 15 }))
}

/// Lines whose binary includes all name absolute paths parse alike
/// whatever the base directory, and with none.
pub proof fn lemma_parse_from_base_free(
    lines: Seq<Seq<char>>,
    i: int,
    st: SParse,
    env: SEnv,
    b1: Option<Seq<char>>,
    b2: Option<Seq<char>>,
)
    requires
        forall|k: int|
            0 <= k < lines.len() && is_binary_include_line(#[trigger] lines[k]) ==> spec_path_is_absolute(
                binary_include_path(lines[k]),
            ),
    ensures
        parse_from(lines, i, st, env, b1) == parse_from(lines, i, st, env, b2),
    decreases lines.len() - i,
{
    if i >= lines.len() || i < 0 {
    } else {
        reveal(parse_line);
        if is_binary_include_line(lines[i]) {
            let t = trim(strip_comment(lines[i]));
            let lower = lower_text(t);
            let rest = skip_bytes(t, if starts_with(lower, "#include_dq "@) { 12 } else { 15 });
            assert(join_path(b1, include_path(rest)) == join_path(b2, include_path(rest)));
        }
        assert(parse_line(lines[i], st, env, b1) == parse_line(lines[i], st, env, b2));
        match parse_line(lines[i], st, env, b1) {
            Err(n) => {},
            Ok(s2) => {
                lemma_parse_from_base_free(lines, i + 1, s2, env, b1, b2);
            },
        }
    }
}

/// What parsing a source text gives: its instructions, data directives,
/// exports, imports and warnings, or what it still needs from outside.
pub open spec fn parse_program(src: Seq<char>, env: SEnv, base: Option<Seq<char>>) -> Result<SParse, SNeed> {
    parse_from(lines_of(macro_expand(src)), 0, empty_parse(), env, base)
}

} // verus!

verus! {

pub open spec fn table_view(t: Seq<(&'static str, usize, u8)>) -> Seq<(Seq<char>, nat, u8)> {
    t.map_values(|e: (&'static str, usize, u8)| (e.0@, e.1 as nat, e.2))
}

fn op_table_exec() -> (r: Vec<(&'static str, usize, u8)>)
    ensures
        table_view(r@) == op_table(),
{
    let r: Vec<(&'static str, usize, u8)> = vec![
        ("mov", 2, 0x01), ("add", 2, 0x02), ("sub", 2, 0x03),
        ("jmp", 1, 0x10),
        ("cmp", 2, 0x11), ("je", 1, 0x12), ("jeq", 1, 0x12),
        ("jz", 1, 0x12), ("jne", 1, 0x13), ("jnz", 1, 0x13),
        ("jl", 1, 0x14), ("jle", 1, 0x15), ("jg", 1, 0x16),
        ("jge", 1, 0x17), ("fmov", 2, 0x70), ("fadd", 2, 0x71),
        ("fsub", 2, 0x72), ("fmul", 2, 0x73), ("fdiv", 2, 0x74),
        ("fcmp", 2, 0x75), ("fje", 1, 0x76), ("fjne", 1, 0x77),
        ("fjlt", 1, 0x78), ("fjle", 1, 0x79), ("fjgt", 1, 0x7A),
        ("fjge", 1, 0x7B), ("fjuo", 1, 0x7C), ("call", 1, 0x20),
        ("ret", 0, 0x21), ("push", 1, 0x30), ("pop", 1, 0x31),
        ("out", 2, 0x40), ("cout", 2, 0x41), ("in", 1, 0x42),
        ("hlt", 0, 0xFF), ("nop", 0, 0x00), ("enter", 1, 0x50),
        ("leave", 0, 0x51), ("syscall", 0, 0x90),
    ];
    assert(table_view(r@) =~= op_table());
    r
}

fn find_op(m: &[char], n: usize) -> (r: Option<u8>)
    ensures
        r == table_find(op_table(), m@, n as nat),
{
    let t = op_table_exec();
    let mut i: usize = 0;
    proof {
        assert(table_view(t@).skip(0) =~= table_view(t@));
    }
    while i < t.len()
        invariant
            i <= t@.len(),
            table_view(t@) == op_table(),
            table_find(table_view(t@).skip(i as int), m@, n as nat) == table_find(op_table(), m@, n as nat),
        decreases t.len() - i,
    {
        let ghost tv = table_view(t@).skip(i as int);
        proof {
            assert(tv.drop_first() =~= table_view(t@).skip(i + 1));
            assert(tv[0] == (t@[i as int].0@, t@[i as int].1 as nat, t@[i as int].2));
        }
        if t[i].1 == n && eq_str(m, t[i].0) {
            return Some(t[i].2);
        }
        i = i + 1;
    }
    proof {
        assert(table_view(t@).skip(i as int) =~= Seq::<(Seq<char>, nat, u8)>::empty());
    }
    None
}

fn non_empty_trimmed(parts: &Vec<Vec<char>>) -> (r: Vec<Vec<char>>)
    ensures
        views(r@) == non_empty(views(parts@).map_values(|p: Seq<char>| trim(p))),
{
    let ghost ps = views(parts@).map_values(|p: Seq<char>| trim(p));
    let mut out: Vec<Vec<char>> = Vec::new();
    let mut i: usize = 0;
    proof {
        assert(ps.skip(0) =~= ps);
        assert(views(out@) + non_empty(ps.skip(0)) =~= non_empty(ps));
    }
    while i < parts.len()
        invariant
            i <= parts@.len(),
            ps == views(parts@).map_values(|p: Seq<char>| trim(p)),
            views(out@) + non_empty(ps.skip(i as int)) == non_empty(ps),
        decreases parts.len() - i,
    {
        let w = trim_chars(parts[i].as_slice());
        proof {
            assert(ps.skip(i as int).drop_first() =~= ps.skip(i + 1));
            assert(ps.skip(i as int)[0] == w@);
        }
        let ghost before = views(out@);
        if w.len() > 0 {
            let ghost wv = w@;
            out.push(w);
            proof {
                assert(views(out@) =~= before.push(wv));
                assert(before.push(wv) + non_empty(ps.skip(i + 1)) =~= before + (seq![wv] + non_empty(ps.skip(i + 1))));
            }
        }
        i = i + 1;
    }
    proof {
        assert(ps.skip(i as int) =~= Seq::<Seq<char>>::empty());
        assert(views(out@) + non_empty(ps.skip(i as int)) =~= views(out@));
    }
    out
}

fn mnemonic_operands_exec(t: &[char]) -> (r: (Vec<char>, Vec<Vec<char>>))
    ensures
        r.0@ == mnemonic_operands(t@).0,
        views(r.1@) == mnemonic_operands(t@).1,
{
    let (first, rest) = split_once_chars(t, ' ');
    let m = lower_chars(first.as_slice());
    match rest {
        None => {
            let v: Vec<Vec<char>> = Vec::new();
            assert(views(v@) =~= Seq::<Seq<char>>::empty());
            (m, v)
        },
        Some(r) => {
            let parts = split_on_chars(r.as_slice(), ' ');
            (m, non_empty_trimmed(&parts))
        },
    }
}

fn label_char_exec(c: char) -> (r: char)
    ensures
        r == label_char(c),
{
    if ('0' <= c && c <= '9') || ('a' <= c && c <= 'z') || ('A' <= c && c <= 'Z') || c == '_' {
        c
    } else {
        '_'
    }
}

fn safe_label_exec(s: &[char]) -> (r: Vec<char>)
    ensures
        r@ == safe_label(s@),
{
    let mut out: Vec<char> = Vec::new();
    append_str(&mut out, "__mni_str_");
    let h = short_hash_chars(s);
    append_chars(&mut out, h.as_slice());
    append_str(&mut out, "_");
    let ghost pre = out@;
    let mut i: usize = 0;
    while i < s.len()
        invariant
            i <= s@.len(),
            pre == "__mni_str_"@ + spec_short_hash(s@) + "_"@,
            out@ == pre + s@.take(i as int).map_values(|c: char| label_char(c)),
        decreases s.len() - i,
    {
        let c = label_char_exec(s[i]);
        out.push(c);
        proof {
            assert(s@.take(i + 1).map_values(|c: char| label_char(c)) =~= s@.take(i as int).map_values(
                |c: char| label_char(c),
            ).push(c));
            assert(out@ =~= pre + s@.take(i + 1).map_values(|c: char| label_char(c)));
        }
        i = i + 1;
    }
    proof {
        assert(s@.take(i as int) =~= s@);
    }
    out
}

fn find_mni(st: &Parse, s: &[char]) -> (r: Option<usize>)
    ensures
        match assoc_get(parse_view(*st).mni, s@) {
            None => r is None,
            Some(l) => r matches Some(k) && k < st.mni@.len() && st.mni@[k as int].1@ == l,
        },
{
    let ghost mv = parse_view(*st).mni;
    let mut i = st.mni.len();
    proof {
        assert(mv.take(i as int) =~= mv);
    }
    while i > 0
        invariant
            i <= st.mni@.len(),
            mv == parse_view(*st).mni,
            mv.len() == st.mni@.len(),
            assoc_get(mv.take(i as int), s@) == assoc_get(mv, s@),
        decreases i,
    {
        proof {
            assert(mv.take(i as int).drop_last() =~= mv.take(i - 1));
            assert(mv[i - 1] == (st.mni@[i - 1].0@, st.mni@[i - 1].1@));
        }
        if crate::text::eq_chars(st.mni[i - 1].0.as_slice(), s) {
            return Some(i - 1);
        }
        i = i - 1;
    }
    proof {
        assert(mv.take(0) =~= Seq::<(Seq<char>, Seq<char>)>::empty());
    }
    None
}

fn mni_label_exec(st: &mut Parse, s: &[char]) -> (r: Vec<char>)
    ensures
        (parse_view(*final(st)), r@) == mni_label(parse_view(*old(st)), s@),
{
    match find_mni(st, s) {
        Some(k) => copy_chars(st.mni[k].1.as_slice()),
        None => {
            let l = safe_label_exec(s);
            let mut bytes = utf8_bytes(s);
            bytes.push(0u8);
            let ghost before = parse_view(*st);
            st.push_dir(Dir::Bytes(Some(copy_chars(l.as_slice())), bytes));
            let ghost mid = parse_view(*st);
            let pair = (copy_chars(s), copy_chars(l.as_slice()));
            st.mni.push(pair);
            proof {
                assert(parse_view(*st).mni =~= before.mni.push((s@, l@)));
                assert(parse_view(*st).dirs == mid.dirs);
            }
            l
        },
    }
}

fn mni_line_exec(ops: &Vec<Vec<char>>, st: &mut Parse)
    requires
        ops@.len() >= 1,
    ensures
        parse_view(*final(st)) == mni_line(views(ops@), parse_view(*old(st))),
{
    if ops.len() >= 2 && starts_with_str(ops[0].as_slice(), "$") && starts_with_str(ops[1].as_slice(), "$") {
        let mut v: Vec<Vec<char>> = Vec::new();
        let mut i: usize = 0;
        while i < ops.len()
            invariant
                i <= ops@.len(),
                views(v@) == views(ops@).take(i as int),
            decreases ops.len() - i,
        {
            let w = copy_chars(ops[i].as_slice());
            let ghost before = views(v@);
            let ghost wv = w@;
            v.push(w);
            proof {
                assert(views(v@) =~= before.push(wv));
                assert(before.push(wv) =~= views(ops@).take(i + 1));
            }
            i = i + 1;
        }
        proof {
            assert(views(ops@).take(i as int) =~= views(ops@));
        }
        st.push_inst(Inst { kind: 2, opcode: 0x60, ops: v });
    } else {
        let ghost st0 = parse_view(*st);
        let (module, f) = split_once_chars(ops[0].as_slice(), '.');
        let function: Vec<char> = match f {
            Some(x) => x,
            None => crate::text::str_chars("main"),
        };
        let l1 = mni_label_exec(st, module.as_slice());
        let l2 = mni_label_exec(st, function.as_slice());
        let ghost s2 = parse_view(*st);
        let ghost target = mni_labels(s2, views(ops@).drop_first());
        let mut labels: Vec<Vec<char>> = Vec::new();
        let mut i: usize = 1;
        proof {
            assert(views(ops@).skip(1) =~= views(ops@).drop_first());
            assert(views(labels@) + mni_labels(parse_view(*st), views(ops@).skip(1)).1 =~= target.1);
        }
        while i < ops.len()
            invariant
                1 <= i <= ops@.len(),
                mni_labels(parse_view(*st), views(ops@).skip(i as int)).0 == target.0,
                views(labels@) + mni_labels(parse_view(*st), views(ops@).skip(i as int)).1 == target.1,
            decreases ops.len() - i,
        {
            let ghost cur = parse_view(*st);
            let ghost rest = views(ops@).skip(i as int);
            proof {
                assert(rest.drop_first() =~= views(ops@).skip(i + 1));
                assert(rest[0] == ops@[i as int]@);
            }
            let l = mni_label_exec(st, ops[i].as_slice());
            let ghost before = views(labels@);
            let ghost lv = l@;
            labels.push(l);
            proof {
                assert(views(labels@) =~= before.push(lv));
                let tail = mni_labels(parse_view(*st), views(ops@).skip(i + 1)).1;
                assert(before.push(lv) + tail =~= before + (seq![lv] + tail));
            }
            i = i + 1;
        }
        proof {
            assert(views(ops@).skip(i as int) =~= Seq::<Seq<char>>::empty());
            assert(views(labels@) + Seq::<Seq<char>>::empty() =~= views(labels@));
        }
        let mut all: Vec<Vec<char>> = Vec::new();
        let mut d1: Vec<char> = vec!['$'];
        append_chars(&mut d1, l1.as_slice());
        let mut d2: Vec<char> = vec!['$'];
        append_chars(&mut d2, l2.as_slice());
        let ghost d1v = d1@;
        let ghost d2v = d2@;
        all.push(d1);
        all.push(d2);
        let mut j: usize = 0;
        proof {
            assert(views(all@) =~= seq![d1v, d2v]);
        }
        while j < labels.len()
            invariant
                j <= labels@.len(),
                views(all@) == seq![d1v, d2v] + views(labels@).take(j as int),
            decreases labels.len() - j,
        {
            let w = copy_chars(labels[j].as_slice());
            let ghost before = views(all@);
            let ghost wv = w@;
            all.push(w);
            proof {
                assert(views(all@) =~= before.push(wv));
                assert(before.push(wv) =~= seq![d1v, d2v] + views(labels@).take(j + 1));
            }
            j = j + 1;
        }
        proof {
            assert(views(labels@).take(j as int) =~= views(labels@));
            assert(d1v =~= dollar(l1@));
            assert(d2v =~= dollar(l2@));
            match split_once(ops@[0]@, '.').1 {
                Some(x) => {},
                None => { reveal_strlit("main"); },
            }
            assert(views(ops@)[0] == ops@[0]@);
        }
        st.push_inst(Inst { kind: 2, opcode: 0x60, ops: all });
    }
}

fn unknown_inst_exec(t: &[char]) -> (r: Vec<char>)
    ensures
        r@ == unknown_inst(t@),
{
    let mut out: Vec<char> = Vec::new();
    append_str(&mut out, "error[EASM001]: unrecognized instruction or operand count\n  --> <input>: ?\n   = help: got: '");
    append_chars(&mut out, t);
    append_str(&mut out, "'");
    out
}

fn inst_line_exec(t: &[char], st: &mut Parse)
    ensures
        parse_view(*final(st)) == inst_line(t@, parse_view(*old(st))),
{
    let (m, ops) = mnemonic_operands_exec(t);
    let is_mni = eq_str(m.as_slice(), "mni");
    if is_mni && ops.len() >= 1 {
        mni_line_exec(&ops, st);
        return;
    }
    if (eq_str(m.as_slice(), "lbl") || eq_str(m.as_slice(), "label")) && ops.len() == 1 {
        st.push_inst(Inst { kind: 0, opcode: 0, ops });
        return;
    }
    let is_inc = eq_str(m.as_slice(), "inc");
    if (is_inc || eq_str(m.as_slice(), "dec")) && ops.len() == 1 {
        let a = copy_chars(ops[0].as_slice());
        let one = crate::text::str_chars("1");
        let ghost av = a@;
        let ghost ov = one@;
        let v2 = vec![a, one];
        proof {
            assert(views(v2@) =~= seq![av, ov]);
        }
        st.push_inst(Inst { kind: 1, opcode: if is_inc { 0x02 } else { 0x03 }, ops: v2 });
        return;
    }
    match find_op(m.as_slice(), ops.len()) {
        Some(op) => {
            st.push_inst(Inst { kind: 1, opcode: op, ops });
        },
        None => {
            let w = unknown_inst_exec(t);
            st.push_warn(w);
        },
    }
}

} // verus!

verus! {

pub open spec fn vals_view(v: Seq<Val>) -> Seq<SVal> {
    v.map_values(|x: Val| crate::asm_lines::val_view(x))
}

fn quads_exec(b: &Vec<u8>) -> (r: Vec<Val>)
    ensures
        vals_view(r@) == quads(pad8(b@)),
{
    let mut buf: Vec<u8> = crate::le::copy_bytes(b.as_slice(), 0, b.len());
    let ghost b0 = b@;
    let pad: usize = (8 - b.len() % 8) % 8;
    let mut k: usize = 0;
    proof {
        assert(buf@ =~= b0 + Seq::new(0nat, |j: int| 0u8));
    }
    while k < pad
        invariant
            k <= pad <= 7,
            pad == (8 - b0.len() % 8) % 8,
            buf@ == b0 + Seq::new(k as nat, |j: int| 0u8),
        decreases pad - k,
    {
        buf.push(0u8);
        k = k + 1;
        proof {
            assert(buf@ =~= b0 + Seq::new(k as nat, |j: int| 0u8));
        }
    }
    proof {
        assert(buf@ =~= pad8(b0));
        assert(buf@.len() % 8 == 0) by {
            assert((b0.len() + (8 - b0.len() % 8) % 8) % 8 == 0) by (nonlinear_arith);
        }
    }
    let mut out: Vec<Val> = Vec::new();
    let mut i: usize = 0;
    let n = buf.len() / 8;
    let mut off: usize = 0;
    while i < n
        invariant
            i <= n,
            off == 8 * i,
            n == buf@.len() / 8,
            buf@.len() % 8 == 0,
            buf@ == pad8(b0),
            vals_view(out@) == quads(pad8(b0)).take(i as int),
        decreases n - i,
    {
        proof {
            assert(8 * i + 8 <= buf@.len()) by (nonlinear_arith)
                requires
                    i < n,
                    n == buf@.len() / 8,
                    buf@.len() % 8 == 0,
            ;
        }
        let v = crate::le::read_u64_le(buf.as_slice(), &mut off);
        let ghost before = vals_view(out@);
        out.push(Val::Imm(v));
        proof {
            assert(v == le_value(buf@.subrange(8 * i, 8 * i + 8)));
            assert(quads(pad8(b0))[i as int] == SVal::Imm(le_value(buf@.subrange(8 * i, 8 * i + 8)) as u64));
            assert(vals_view(out@) =~= before.push(SVal::Imm(v)));
            assert(vals_view(out@) =~= quads(pad8(b0)).take(i + 1));
        }
        i = i + 1;
    }
    proof {
        assert(quads(pad8(b0)).take(i as int) =~= quads(pad8(b0)));
    }
    out
}

pub(crate) fn join_path_exec(base: &Option<Vec<char>>, p: Vec<char>) -> (r: Vec<char>)
    ensures
        r@ == join_path(crate::asm_lines::opt_view(*base), p@),
{
    match base {
        None => p,
        Some(b) => {
            if path_is_absolute(p.as_slice()) {
                p
            } else {
                path_join(b.as_slice(), p.as_slice())
            }
        },
    }
}

fn include_line_exec(t: &[char], lower: &[char], st: &mut Parse, env: &AsmEnv, base: &Option<Vec<char>>) -> (r: Result<(), Need>)
    ensures
        match include_line(t@, lower@, parse_view(*old(st)), env_view(*env), crate::asm_lines::opt_view(*base)) {
            Ok(s2) => r is Ok && parse_view(*final(st)) == s2,
            Err(n) => r matches Err(x) && need_view(x) == n,
        },
{
    let is_dq = starts_with_str(lower, "#include_dq ");
    let rest = skip_bytes_chars(t, if is_dq { 12 } else { 15 });
    let (a, b) = split_once_chars(rest.as_slice(), ',');
    let label = trim_chars(a.as_slice());
    let bt: Vec<char> = match b {
        Some(x) => trim_chars(x.as_slice()),
        None => Vec::new(),
    };
    let p0 = trim_set_chars(bt.as_slice(), &['"', '<', '>', ' ']);
    proof {
        assert(['"', '<', '>', ' ']@ =~= seq!['"', '<', '>', ' ']);
        match split_once(rest@, ',').1 {
            Some(x) => {},
            None => { assert(bt@ =~= Seq::<char>::empty()); },
        }
        assert(p0@ == include_path(rest@));
    }
    let path = join_path_exec(base, p0);
    let mut len_label = copy_chars(label.as_slice());
    append_str(&mut len_label, "_len");
    match env_file(env, path.as_slice()) {
        None => Err(Need::File(path)),
        Some(Err(msg)) => {
            st.push_warn(msg);
            Ok(())
        },
        Some(Ok(bytes)) => {
            let n = bytes.len() as u64;
            if is_dq {
                let q = quads_exec(&bytes);
                st.push_dir(Dir::Quads(Some(label), q));
            } else {
                st.push_dir(Dir::Bytes(Some(label), bytes));
            }
            let lv = vec![Val::Imm(n)];
            proof {
                assert(vals_view(lv@) =~= seq![SVal::Imm(n)]);
            }
            st.push_dir(Dir::Quads(Some(len_label), lv));
            Ok(())
        },
    }
}

fn parse_line_exec(raw: &[char], st: &mut Parse, env: &AsmEnv, base: &Option<Vec<char>>) -> (r: Result<(), Need>)
    ensures
        match parse_line(raw@, parse_view(*old(st)), env_view(*env), crate::asm_lines::opt_view(*base)) {
            Ok(s2) => r is Ok && parse_view(*final(st)) == s2,
            Err(n) => r matches Err(x) && need_view(x) == n,
        },
{
    reveal(parse_line);
    let c = strip_comment_chars(raw);
    let t = trim_chars(c.as_slice());
    if t.len() == 0 {
        return Ok(());
    }
    let lower = lower_chars(t.as_slice());
    if starts_with_str(lower.as_slice(), "#include_bytes ") || starts_with_str(lower.as_slice(), "#include_dq ") {
        return include_line_exec(t.as_slice(), lower.as_slice(), st, env, base);
    }
    match data_line_exec(t.as_slice(), st, env) {
        Err(n) => Err(n),
        Ok(true) => Ok(()),
        Ok(false) => {
            inst_line_exec(t.as_slice(), st);
            Ok(())
        },
    }
}

/// Parses a source text (after macro expansion) into instructions and data.
pub fn parse_program_exec(src: &[char], env: &AsmEnv, base: &Option<Vec<char>>) -> (r: Result<Parse, Need>)
    ensures
        match parse_program(src@, env_view(*env), crate::asm_lines::opt_view(*base)) {
            Ok(s) => r matches Ok(p) && parse_view(p) == s,
            Err(n) => r matches Err(x) && need_view(x) == n,
        },
{
    let expanded = expand_macros(src);
    let lines = lines_chars(expanded.as_slice());
    let ghost ls = lines_of(macro_expand(src@));
    proof {
        assert(views(lines@) =~= ls);
    }
    let mut st = Parse::new();
    let mut i: usize = 0;
    while i < lines.len()
        invariant
            i <= lines@.len(),
            views(lines@) == ls,
            ls == lines_of(macro_expand(src@)),
            parse_from(ls, i as int, parse_view(st), env_view(*env), crate::asm_lines::opt_view(*base)) == parse_from(ls, 0, empty_parse(), env_view(*env), crate::asm_lines::opt_view(*base)),
        decreases lines.len() - i,
    {
        proof {
            assert(ls[i as int] == lines@[i as int]@);
        }
        let ghost before = parse_view(st);
        match parse_line_exec(lines[i].as_slice(), &mut st, env, base) {
            Err(n) => {
                proof {
                    let b = crate::asm_lines::opt_view(*base);
                    assert(parse_line(ls[i as int], before, env_view(*env), b) is Err);
                    assert(parse_from(ls, i as int, before, env_view(*env), b) == Err::<SParse, SNeed>(need_view(n)));
                    assert(parse_program(src@, env_view(*env), b) == Err::<SParse, SNeed>(need_view(n)));
                }
                return Err(n);
            },
            Ok(()) => {},
        }
        i = i + 1;
    }
    Ok(st)
}

} // verus!

verus! {

/// A label has one name; a native-module call has a module and a function.
/// An instruction as the parser makes it: a label names one thing; an
/// ordinary instruction has as many operands as its opcode takes; a native
/// call has a module and a function operand.
pub open spec fn inst_wf(i: SInst) -> bool {
    ||| i.kind == 0 && i.ops.len() == 1
    ||| i.kind == 1 && i.ops.len() == operand_count(i.opcode) && i.opcode != 0x60
    ||| i.kind == 2 && i.ops.len() >= 2 && i.opcode == 0x60
}

proof fn lemma_op_table_counts()
    ensures
        forall|k: int|
            0 <= k < op_table().len() ==> operand_count(#[trigger] op_table()[k].2) == op_table()[k].1
                && op_table()[k].2 != 0x60,
{
    assert(op_table().len() == 39);
    assert forall|k: int| 0 <= k < op_table().len() implies operand_count(#[trigger] op_table()[k].2)
        == op_table()[k].1 && op_table()[k].2 != 0x60 by {
        if k == 0 {
            assert(operand_count(op_table()[0].2) == op_table()[0].1);
        } else if k == 1 {
            assert(operand_count(op_table()[1].2) == op_table()[1].1);
        } else if k == 2 {
            assert(operand_count(op_table()[2].2) == op_table()[2].1);
        } else if k == 3 {
            assert(operand_count(op_table()[3].2) == op_table()[3].1);
        } else if k == 4 {
            assert(operand_count(op_table()[4].2) == op_table()[4].1);
        } else if k == 5 {
            assert(operand_count(op_table()[5].2) == op_table()[5].1);
        } else if k == 6 {
            assert(operand_count(op_table()[6].2) == op_table()[6].1);
        } else if k == 7 {
            assert(operand_count(op_table()[7].2) == op_table()[7].1);
        } else if k == 8 {
            assert(operand_count(op_table()[8].2) == op_table()[8].1);
        } else if k == 9 {
            assert(operand_count(op_table()[9].2) == op_table()[9].1);
        } else if k == 10 {
            assert(operand_count(op_table()[10].2) == op_table()[10].1);
        } else if k == 11 {
            assert(operand_count(op_table()[11].2) == op_table()[11].1);
        } else if k == 12 {
            assert(operand_count(op_table()[12].2) == op_table()[12].1);
        } else if k == 13 {
            assert(operand_count(op_table()[13].2) == op_table()[13].1);
        } else if k == 14 {
            assert(operand_count(op_table()[14].2) == op_table()[14].1);
        } else if k == 15 {
            assert(operand_count(op_table()[15].2) == op_table()[15].1);
        } else if k == 16 {
            assert(operand_count(op_table()[16].2) == op_table()[16].1);
        } else if k == 17 {
            assert(operand_count(op_table()[17].2) == op_table()[17].1);
        } else if k == 18 {
            assert(operand_count(op_table()[18].2) == op_table()[18].1);
        } else if k == 19 {
            assert(operand_count(op_table()[19].2) == op_table()[19].1);
        } else if k == 20 {
            assert(operand_count(op_table()[20].2) == op_table()[20].1);
        } else if k == 21 {
            assert(operand_count(op_table()[21].2) == op_table()[21].1);
        } else if k == 22 {
            assert(operand_count(op_table()[22].2) == op_table()[22].1);
        } else if k == 23 {
            assert(operand_count(op_table()[23].2) == op_table()[23].1);
        } else if k == 24 {
            assert(operand_count(op_table()[24].2) == op_table()[24].1);
        } else if k == 25 {
            assert(operand_count(op_table()[25].2) == op_table()[25].1);
        } else if k == 26 {
            assert(operand_count(op_table()[26].2) == op_table()[26].1);
        } else if k == 27 {
            assert(operand_count(op_table()[27].2) == op_table()[27].1);
        } else if k == 28 {
            assert(operand_count(op_table()[28].2) == op_table()[28].1);
        } else if k == 29 {
            assert(operand_count(op_table()[29].2) == op_table()[29].1);
        } else if k == 30 {
            assert(operand_count(op_table()[30].2) == op_table()[30].1);
        } else if k == 31 {
            assert(operand_count(op_table()[31].2) == op_table()[31].1);
        } else if k == 32 {
            assert(operand_count(op_table()[32].2) == op_table()[32].1);
        } else if k == 33 {
            assert(operand_count(op_table()[33].2) == op_table()[33].1);
        } else if k == 34 {
            assert(operand_count(op_table()[34].2) == op_table()[34].1);
        } else if k == 35 {
            assert(operand_count(op_table()[35].2) == op_table()[35].1);
        } else if k == 36 {
            assert(operand_count(op_table()[36].2) == op_table()[36].1);
        } else if k == 37 {
            assert(operand_count(op_table()[37].2) == op_table()[37].1);
        } else if k == 38 {
            assert(operand_count(op_table()[38].2) == op_table()[38].1);
        }
    }
}

proof fn lemma_table_find(t: Seq<(Seq<char>, nat, u8)>, m: Seq<char>, n: nat)
    requires
        forall|k: int| 0 <= k < t.len() ==> operand_count(#[trigger] t[k].2) == t[k].1 && t[k].2 != 0x60,
    ensures
        table_find(t, m, n) matches Some(op) ==> operand_count(op) == n && op != 0x60,
    decreases t.len(),
{
    if t.len() > 0 {
        assert(operand_count(t[0].2) == t[0].1);
        let d = t.drop_first();
        assert forall|k: int| 0 <= k < d.len() implies operand_count(#[trigger] d[k].2) == d[k].1 && d[k].2 != 0x60 by {
            assert(d[k] == t[k + 1]);
        }
        lemma_table_find(d, m, n);
    }
}

pub open spec fn insts_wf(s: Seq<SInst>) -> bool {
    forall|k: int| 0 <= k < s.len() ==> inst_wf(#[trigger] s[k])
}

proof fn lemma_data_line_insts(t: Seq<char>, st: SParse, env: SEnv)
    ensures
        data_line(t, st, env) matches Ok(Some(s2)) ==> s2.insts == st.insts,
{
}

proof fn lemma_mni_labels_insts(st: SParse, args: Seq<Seq<char>>)
    ensures
        mni_labels(st, args).0.insts == st.insts,
    decreases args.len(),
{
    if args.len() > 0 {
        lemma_mni_labels_insts(mni_label(st, args[0]).0, args.drop_first());
    }
}

proof fn lemma_parse_line_wf(raw: Seq<char>, st: SParse, env: SEnv, base: Option<Seq<char>>)
    requires
        insts_wf(st.insts),
    ensures
        parse_line(raw, st, env, base) matches Ok(s2) ==> insts_wf(s2.insts),
{
    reveal(parse_line);
    let t = trim(strip_comment(raw));
    lemma_data_line_insts(t, st, env);
    let (m, ops) = mnemonic_operands(t);
    lemma_op_table_counts();
    lemma_table_find(op_table(), m, ops.len());
    if m == "mni"@ && ops.len() >= 1 {
        let (module, f) = split_once(ops[0], '.');
        let function = match f {
            Some(x) => x,
            None => "main"@,
        };
        let (s1, l1) = mni_label(st, module);
        let (s2, l2) = mni_label(s1, function);
        lemma_mni_labels_insts(s2, ops.drop_first());
    }
    if let Ok(s2) = parse_line(raw, st, env, base) {
        assert forall|k: int| 0 <= k < s2.insts.len() implies inst_wf(#[trigger] s2.insts[k]) by {
            if k < st.insts.len() {
                assert(s2.insts[k] == st.insts[k]);
            }
        }
    }
}

proof fn lemma_parse_from_wf(lines: Seq<Seq<char>>, i: int, st: SParse, env: SEnv, base: Option<Seq<char>>)
    requires
        insts_wf(st.insts),
    ensures
        parse_from(lines, i, st, env, base) matches Ok(s2) ==> insts_wf(s2.insts),
    decreases lines.len() - i,
{
    if 0 <= i < lines.len() {
        lemma_parse_line_wf(lines[i], st, env, base);
        if let Ok(s2) = parse_line(lines[i], st, env, base) {
            lemma_parse_from_wf(lines, i + 1, s2, env, base);
        }
    }
}

/// Every instruction that parsing produces is well formed.
pub proof fn lemma_parse_program_wf(src: Seq<char>, env: SEnv, base: Option<Seq<char>>)
    ensures
        parse_program(src, env, base) matches Ok(s) ==> insts_wf(s.insts),
{
    lemma_parse_from_wf(lines_of(macro_expand(src)), 0, empty_parse(), env, base);
}

} // verus!
