//! Operand encoding and code emission.
use vstd::prelude::*;
use crate::text::{
    find_char, contains_char, starts_with, starts_with_str, upper_text, upper_chars, ascii_upper,
    slice_chars, copy_chars, views,
};
use crate::assoc::{assoc_get, pairs_view, assoc_lookup};
use crate::number::{spec_parse_u64, parse_u64_radix, lemma_dec_reads_back};
use crate::fmt::dec;
use crate::register_map::{spec_reg_id, reg_id, lemma_reg_name_chars, lemma_reg_name_of_id, reg_name_char};
use crate::disassembler::fmt_operand;
use crate::le::{le_bytes, write_u16_le, write_u64_le, push_le};
use crate::asm_lines::{SEnv, env_view, AsmEnv, Inst, SInst, Need, SNeed, floats_view, env_float, inst_view};
use crate::layout::{labels_view, lookup, insts_view};
use crate::parse::{dollar, inst_wf, insts_wf};

verus! {

/// The symbols an operand can name: code labels, data labels and imports.
pub struct Syms {
    pub labels: Seq<(Seq<char>, nat)>,
    pub data: Seq<(Seq<char>, nat)>,
    pub imports: Seq<(Seq<char>, u8)>,
}

/// A token that may be a floating-point literal.
pub open spec fn float_tok(s: Seq<char>) -> bool {
    find_char(s, '.') is Some || find_char(s, 'e') is Some || find_char(s, 'E') is Some
}

/// A `0x` hexadecimal number if there is one, else a decimal number.
pub open spec fn number(s: Seq<char>) -> Option<u64> {
    if starts_with(s, "0x"@) && spec_parse_u64(s.skip(2), 16) is Some {
        spec_parse_u64(s.skip(2), 16)
    } else {
        spec_parse_u64(s, 10)
    }
}

pub open spec fn or_zero(v: Option<u64>) -> u64 {
    match v {
        Some(x) => x,
        None => 0,
    }
}

pub open spec fn off_or_zero(v: Option<nat>) -> u64 {
    match v {
        Some(x) => x as u64,
        None => 0,
    }
}

/// Addressing mode and value of an operand that is no floating-point literal:
/// `#label` (mode 2), `$register` (4), `$data` or `$address` (3),
/// a register (1), a code label (2), a data label or a number (0).
pub open spec fn encode_plain(s: Seq<char>, sy: Syms) -> (u8, u64) {
    if starts_with(s, "#"@) {
        (2, off_or_zero(assoc_get(sy.labels, s.drop_first())))
    } else if starts_with(s, "$"@) {
        let rest = s.drop_first();
        match spec_reg_id(upper_text(rest)) {
            Some(id) => (4, id as u64),
            None => match assoc_get(sy.data, rest) {
                Some(o) => (3, o as u64),
                None => (3, or_zero(number(rest))),
            },
        }
    } else {
        match spec_reg_id(upper_text(s)) {
            Some(id) => (1, id as u64),
            None => match assoc_get(sy.labels, s) {
                Some(o) => (2, o as u64),
                None => match assoc_get(sy.data, s) {
                    Some(o) => (0, o as u64),
                    None => (0, or_zero(number(s))),
                },
            },
        }
    }
}

/// Addressing mode and value of an operand; a floating-point literal is an
/// immediate holding its `f64` bit pattern.
pub open spec fn encode_operand(s: Seq<char>, sy: Syms, env: SEnv) -> Result<(u8, u64), SNeed> {
    if float_tok(s) {
        match assoc_get(env.floats, s) {
            None => Err(SNeed::Float(s)),
            Some((_, Some(bits))) => Ok((0, bits)),
            Some((_, None)) => Ok(encode_plain(s, sy)),
        }
    } else {
        Ok(encode_plain(s, sy))
    }
}

pub open spec fn all_ascii_digits(s: Seq<char>) -> bool {
    forall|i: int| 0 <= i < s.len() ==> '0' <= #[trigger] s[i] && s[i] <= '9'
}

pub open spec fn with_none(r: Result<(u8, u64), SNeed>) -> Result<(u8, u64, Option<(Seq<char>, u8)>), SNeed> {
    match r {
        Err(n) => Err(n),
        Ok((m, v)) => Ok((m, v, None)),
    }
}

/// Mode, value and relocation (imported name and kind) of an operand: an
/// unknown `#label` is an imported code symbol, an unknown `$name` that is
/// no address an imported data symbol, and a bare name declared with
/// `#import` an imported symbol of its kind.
pub open spec fn emit_operand(op: Seq<char>, sy: Syms, env: SEnv) -> Result<(u8, u64, Option<(Seq<char>, u8)>), SNeed> {
    if starts_with(op, "#"@) {
        let name = op.drop_first();
        if assoc_get(sy.labels, name) is None {
            Ok((2, 0, Some((name, 0u8))))
        } else {
            with_none(encode_operand(op, sy, env))
        }
    } else if starts_with(op, "$"@) {
        let rest = op.drop_first();
        if spec_reg_id(upper_text(rest)) is Some {
            with_none(encode_operand(op, sy, env))
        } else if assoc_get(sy.data, rest) is None {
            if starts_with(rest, "0x"@) || starts_with(rest, "0X"@) {
                match spec_parse_u64(rest.skip(2), 16) {
                    Some(v) => Ok((3, v, None)),
                    None => Ok((3, 0, Some((rest, 1u8)))),
                }
            } else if all_ascii_digits(rest) {
                match spec_parse_u64(rest, 10) {
                    Some(v) => Ok((3, v, None)),
                    None => Ok((3, 0, Some((rest, 1u8)))),
                }
            } else {
                Ok((3, 0, Some((rest, 1u8))))
            }
        } else {
            with_none(encode_operand(op, sy, env))
        }
    } else if assoc_get(sy.labels, op) is Some || assoc_get(sy.data, op) is Some || spec_reg_id(
        upper_text(op),
    ) is Some || starts_with(op, "0x"@) || all_ascii_digits(op) {
        with_none(encode_operand(op, sy, env))
    } else {
        match assoc_get(sy.imports, op) {
            Some(k) => Ok((if k == 0 { 2u8 } else { 3u8 }, 0, Some((op, k)))),
            None => with_none(encode_operand(op, sy, env)),
        }
    }
}

proof fn lemma_reg_name_plain(name: Seq<char>)
    requires
        spec_reg_id(name) is Some,
    ensures
        upper_text(name) == name,
        !float_tok(name),
        !float_tok("$"@ + name),
        !starts_with(name, "#"@),
        !starts_with(name, "$"@),
        starts_with("$"@ + name, "$"@),
        !starts_with("$"@ + name, "#"@),
        ("$"@ + name).drop_first() == name,
{
    lemma_reg_name_chars(name);
    reveal_strlit("$");
    reveal_strlit("#");
    let d = "$"@ + name;
    assert forall|i: int| 0 <= i < name.len() implies (#[trigger] name[i] as u32) < 128 by {
        assert(reg_name_char(name[i]));
    }
    assert(name.map_values(|c: char| ascii_upper(c)) =~= name) by {
        assert forall|i: int| 0 <= i < name.len() implies ascii_upper(name[i]) == name[i] by {
            assert(reg_name_char(name[i]));
        }
    }
    assert(d.drop_first() =~= name);
    assert(d[0] == '$');
    assert(name[0] != '$' && name[0] != '#') by {
        assert(reg_name_char(name[0]));
    }
    assert(name.take(1) != "#"@ && name.take(1) != "$"@) by {
        assert(name.take(1)[0] == name[0]);
    }
    assert(d.take(1) =~= "$"@);
    crate::text::lemma_find_char_facts(name, '.');
    crate::text::lemma_find_char_facts(name, 'e');
    crate::text::lemma_find_char_facts(name, 'E');
    crate::text::lemma_find_char_facts(d, '.');
    crate::text::lemma_find_char_facts(d, 'e');
    crate::text::lemma_find_char_facts(d, 'E');
    assert forall|k: int| 0 <= k < d.len() implies #[trigger] d[k] != '.' && d[k] != 'e' && d[k] != 'E' by {
        if k > 0 {
            assert(d[k] == name[k - 1]);
            assert(reg_name_char(name[k - 1]));
        }
    }
    assert forall|k: int| 0 <= k < name.len() implies #[trigger] name[k] != '.' && name[k] != 'e' && name[k] != 'E' by {
        assert(reg_name_char(name[k]));
    }
}

/// A register operand and a register-indirect one, as the disassembler
/// writes them, read back in the assembler as the same addressing mode
/// (1 and 4) and the same register, whatever symbols are in scope.
pub proof fn lemma_register_operands_read_back(
    name: Seq<char>,
    labels: Seq<(u64, Seq<char>)>,
    data: Seq<(u64, Seq<char>)>,
    sy: Syms,
    env: SEnv,
)
    requires
        spec_reg_id(name) is Some,
    ensures
        ({
            let id = spec_reg_id(name)->Some_0;
            &&& emit_operand(fmt_operand(1, id as u64, labels, data), sy, env) == Ok::<
                (u8, u64, Option<(Seq<char>, u8)>),
                SNeed,
            >((1u8, id as u64, None))
            &&& emit_operand(fmt_operand(4, id as u64, labels, data), sy, env) == Ok::<
                (u8, u64, Option<(Seq<char>, u8)>),
                SNeed,
            >((4u8, id as u64, None))
        }),
{
    let id = spec_reg_id(name)->Some_0;
    lemma_reg_name_of_id(name);
    assert((id as u64) as u16 == id);
    lemma_reg_name_plain(name);
    assert(fmt_operand(1, id as u64, labels, data) == name);
    assert(fmt_operand(4, id as u64, labels, data) == "$"@ + name);
}

/// An immediate operand as the disassembler writes it (in decimal, when no
/// data label has its value) reads back in the assembler as the same
/// immediate, unless a code or data label is named by those digits.
pub proof fn lemma_immediate_operand_reads_back(
    v: u64,
    labels: Seq<(u64, Seq<char>)>,
    data: Seq<(u64, Seq<char>)>,
    sy: Syms,
    env: SEnv,
)
    requires
        crate::disassembler::map_get(data, v) is None,
        assoc_get(sy.labels, dec(v as nat)) is None,
        assoc_get(sy.data, dec(v as nat)) is None,
    ensures
        emit_operand(fmt_operand(0, v, labels, data), sy, env) == Ok::<(u8, u64, Option<(Seq<char>, u8)>), SNeed>(
            (0u8, v, None),
        ),
{
    let d = dec(v as nat);
    lemma_dec_reads_back(v as nat);
    assert(fmt_operand(0, v, labels, data) == d);
    reveal_strlit("$");
    reveal_strlit("#");
    reveal_strlit("0x");
    assert(d.take(1)[0] == d[0]);
    assert(!starts_with(d, "#"@) && !starts_with(d, "$"@));
    assert(all_ascii_digits(d));
    if d.len() >= 2 {
        assert(d.take(2)[1] == d[1]);
    }
    assert(!starts_with(d, "0x"@));
    crate::text::lemma_find_char_facts(d, '.');
    crate::text::lemma_find_char_facts(d, 'e');
    crate::text::lemma_find_char_facts(d, 'E');
    assert(!float_tok(d));
    assert forall|i: int| 0 <= i < d.len() implies (#[trigger] d[i] as u32) < 128 by {
        assert('0' <= d[i] && d[i] <= '9');
    }
    assert(d.map_values(|c: char| ascii_upper(c)) =~= d) by {
        assert forall|i: int| 0 <= i < d.len() implies ascii_upper(d[i]) == d[i] by {
            assert('0' <= d[i] && d[i] <= '9');
        }
    }
    assert(upper_text(d) == d);
    if spec_reg_id(d) is Some {
        lemma_reg_name_chars(d);
    }
    assert(spec_parse_u64(d, 10) == Some(v));
}

/// A memory address operand that no data label names, as the disassembler
/// writes it (`$0x` and the address in hexadecimal), reads back in the
/// assembler as the same address, unless a data label is named by that
/// text.
pub proof fn lemma_address_operand_reads_back(
    v: u64,
    labels: Seq<(u64, Seq<char>)>,
    data: Seq<(u64, Seq<char>)>,
    sy: Syms,
    env: SEnv,
)
    requires
        crate::disassembler::map_get(data, v) is None,
        assoc_get(sy.data, "0x"@ + crate::fmt::hex_upper(v as nat)) is None,
    ensures
        emit_operand(fmt_operand(3, v, labels, data), sy, env) == Ok::<(u8, u64, Option<(Seq<char>, u8)>), SNeed>(
            (3u8, v, None),
        ),
{
    let h = crate::fmt::hex_upper(v as nat);
    let rest = "0x"@ + h;
    let op = "$"@ + rest;
    reveal_strlit("$");
    reveal_strlit("#");
    reveal_strlit("0x");
    reveal_strlit("0X");
    reveal_strlit("$0x");
    crate::number::lemma_hex_reads_back(v as nat);
    assert(fmt_operand(3, v, labels, data) == "$0x"@ + h);
    assert("$0x"@ + h =~= op);
    assert(op.take(1)[0] == '$');
    assert(op.take(1) =~= "$"@);
    assert(!starts_with(op, "#"@));
    assert(op.drop_first() =~= rest);
    assert(rest.take(2) =~= "0x"@);
    assert(rest.skip(2) =~= h);
    if spec_reg_id(upper_text(rest)) is Some {
        let u = upper_text(rest);
        lemma_reg_name_chars(u);
        assert forall|i: int| 0 <= i < rest.len() implies (#[trigger] rest[i] as u32) < 128 by {
            if i >= 2 {
                assert(rest[i] == h[i - 2]);
            }
        }
        assert(u[0] == ascii_upper(rest[0]));
    }
    assert(spec_parse_u64(h, 16) == Some(v));
}

/// A relocation: imported name, kind, and the code offset of the value to patch.
pub type SReloc = (Seq<char>, u8, nat);

/// One operand appended to the code: its mode byte and eight value bytes.
pub open spec fn emit_op(op: Seq<char>, code: Seq<u8>, rel: Seq<SReloc>, sy: Syms, env: SEnv) -> Result<(Seq<u8>, Seq<SReloc>), SNeed> {
    match emit_operand(op, sy, env) {
        Err(n) => Err(n),
        Ok((m, v, r)) => Ok(
            (
                code.push(m) + le_bytes(v as nat, 8),
                match r {
                    None => rel,
                    Some((name, k)) => rel.push((name, k, code.len() + 1)),
                },
            ),
        ),
    }
}

/// Emitting an operand appends its mode byte, one of the five addressing
/// modes, and its value in eight little-endian bytes, and adds at most one
/// relocation: it names the eight value bytes, which then hold zero. An
/// unknown `#label` is emitted as mode 2 with a code relocation for it.
pub proof fn lemma_emit_op_layout(op: Seq<char>, code: Seq<u8>, rel: Seq<SReloc>, sy: Syms, env: SEnv)
    ensures
        emit_op(op, code, rel, sy, env) matches Ok((c, r)) ==> exists|m: u8, v: u64|
            #![trigger code.push(m), le_bytes(v as nat, 8)]
            {
                &&& m <= 4
                &&& c == code.push(m) + le_bytes(v as nat, 8)
                &&& (r == rel || (v == 0 && r.len() == rel.len() + 1 && r.drop_last() == rel && r.last().2
                    == code.len() + 1))
            },
        starts_with(op, "#"@) && assoc_get(sy.labels, op.drop_first()) is None ==> emit_op(op, code, rel, sy, env)
            == Ok::<(Seq<u8>, Seq<SReloc>), SNeed>(
            (code.push(2u8) + le_bytes(0, 8), rel.push((op.drop_first(), 0u8, code.len() + 1))),
        ),
{
    if let Ok((m, v, r)) = emit_operand(op, sy, env) {
        let c = code.push(m) + le_bytes(v as nat, 8);
        let rr = match r {
            None => rel,
            Some((name, k)) => rel.push((name, k, code.len() + 1)),
        };
        match r {
            None => {},
            Some((name, k)) => {
                assert(rr.drop_last() =~= rel);
            },
        }
        assert(m <= 4);
    }
}

/// Operands `i..end` appended in turn, each prefixed with `$` when `pre` holds.
pub open spec fn emit_range(ops: Seq<Seq<char>>, i: int, end: int, pre: bool, code: Seq<u8>, rel: Seq<SReloc>, sy: Syms, env: SEnv) -> Result<(Seq<u8>, Seq<SReloc>), SNeed>
    decreases end - i,
{
    if i >= end || i < 0 || end > ops.len() {
        Ok((code, rel))
    } else {
        match emit_op(if pre { dollar(ops[i]) } else { ops[i] }, code, rel, sy, env) {
            Err(n) => Err(n),
            Ok((c2, r2)) => emit_range(ops, i + 1, end, pre, c2, r2, sy, env),
        }
    }
}

/// One instruction appended to the code: its opcode and operands; a
/// native-module call has module and function, the argument count, then
/// its arguments as data operands.
pub open spec fn emit_inst(ins: SInst, code: Seq<u8>, rel: Seq<SReloc>, sy: Syms, env: SEnv) -> Result<(Seq<u8>, Seq<SReloc>), SNeed> {
    if ins.kind == 0 {
        Ok((code, rel))
    } else if ins.kind == 2 {
        match emit_range(ins.ops, 0, 2, false, code.push(ins.opcode), rel, sy, env) {
            Err(n) => Err(n),
            Ok((c2, r2)) => emit_range(
                ins.ops,
                2,
                ins.ops.len() as int,
                true,
                c2 + le_bytes((ins.ops.len() - 2) as nat, 2),
                r2,
                sy,
                env,
            ),
        }
    } else {
        emit_range(ins.ops, 0, ins.ops.len() as int, false, code.push(ins.opcode), rel, sy, env)
    }
}

pub open spec fn emit_from(insts: Seq<SInst>, j: int, code: Seq<u8>, rel: Seq<SReloc>, sy: Syms, env: SEnv) -> Result<(Seq<u8>, Seq<SReloc>), SNeed>
    decreases insts.len() - j,
{
    if j >= insts.len() || j < 0 {
        Ok((code, rel))
    } else {
        match emit_inst(insts[j], code, rel, sy, env) {
            Err(n) => Err(n),
            Ok((c2, r2)) => emit_from(insts, j + 1, c2, r2, sy, env),
        }
    }
}

/// The code section and its relocations.
pub open spec fn emit_code(insts: Seq<SInst>, sy: Syms, env: SEnv) -> Result<(Seq<u8>, Seq<SReloc>), SNeed> {
    emit_from(insts, 0, seq![], seq![], sy, env)
}

} // verus!

verus! {

/// Symbol tables for operand encoding.
pub struct SymTables {
    pub labels: Vec<(Vec<char>, u64)>,
    pub data: Vec<(Vec<char>, u64)>,
    pub imports: Vec<(Vec<char>, u8)>,
}

pub open spec fn syms_view(t: SymTables) -> Syms {
    Syms { labels: labels_view(t.labels@), data: labels_view(t.data@), imports: pairs_view(t.imports@) }
}

fn float_tok_exec(s: &[char]) -> (r: bool)
    ensures
        r == float_tok(s@),
{
    contains_char(s, '.') || contains_char(s, 'e') || contains_char(s, 'E')
}

fn number_exec(s: &[char]) -> (r: Option<u64>)
    ensures
        r == number(s@),
{
    if starts_with_str(s, "0x") {
        proof {
            reveal_strlit("0x");
        }
        let h = slice_chars(s, 2, s.len());
        assert(h@ =~= s@.skip(2));
        let v = parse_u64_radix(h.as_slice(), 16);
        if v.is_some() {
            return v;
        }
    }
    parse_u64_radix(s, 10)
}

fn encode_plain_exec(s: &[char], t: &SymTables) -> (r: (u8, u64))
    ensures
        r == encode_plain(s@, syms_view(*t)),
{
    let ghost sy = syms_view(*t);
    if starts_with_str(s, "#") {
        proof {
            reveal_strlit("#");
        }
        let name = slice_chars(s, 1, s.len());
        assert(name@ =~= s@.drop_first());
        match lookup(&t.labels, name.as_slice()) {
            Some(o) => (2, o),
            None => (2, 0),
        }
    } else if starts_with_str(s, "$") {
        proof {
            reveal_strlit("$");
        }
        let rest = slice_chars(s, 1, s.len());
        assert(rest@ =~= s@.drop_first());
        let up = upper_chars(rest.as_slice());
        match reg_id(up.as_slice()) {
            Some(id) => (4, id as u64),
            None => match lookup(&t.data, rest.as_slice()) {
                Some(o) => (3, o),
                None => match number_exec(rest.as_slice()) {
                    Some(v) => (3, v),
                    None => (3, 0),
                },
            },
        }
    } else {
        let up = upper_chars(s);
        match reg_id(up.as_slice()) {
            Some(id) => (1, id as u64),
            None => match lookup(&t.labels, s) {
                Some(o) => (2, o),
                None => match lookup(&t.data, s) {
                    Some(o) => (0, o),
                    None => match number_exec(s) {
                        Some(v) => (0, v),
                        None => (0, 0),
                    },
                },
            },
        }
    }
}

fn encode_operand_exec(s: &[char], t: &SymTables, env: &AsmEnv) -> (r: Result<(u8, u64), Need>)
    ensures
        match encode_operand(s@, syms_view(*t), env_view(*env)) {
            Ok(x) => r == Ok::<(u8, u64), Need>(x),
            Err(n) => r matches Err(x) && crate::asm_lines::need_view(x) == n,
        },
{
    if float_tok_exec(s) {
        match env_float(env, s) {
            None => {
                return Err(Need::Float(copy_chars(s)));
            },
            Some((_, Some(bits))) => {
                return Ok((0, bits));
            },
            Some((_, None)) => {},
        }
    }
    Ok(encode_plain_exec(s, t))
}

fn all_ascii_digits_exec(s: &[char]) -> (r: bool)
    ensures
        r == all_ascii_digits(s@),
{
    let mut i: usize = 0;
    while i < s.len()
        invariant
            i <= s@.len(),
            forall|k: int| 0 <= k < i ==> '0' <= #[trigger] s@[k] && s@[k] <= '9',
        decreases s.len() - i,
    {
        if !('0' <= s[i] && s[i] <= '9') {
            return false;
        }
        i = i + 1;
    }
    true
}

pub open spec fn reloc_view(r: Option<(Vec<char>, u8)>) -> Option<(Seq<char>, u8)> {
    match r {
        None => None,
        Some((n, k)) => Some((n@, k)),
    }
}

fn emit_operand_exec(op: &[char], t: &SymTables, env: &AsmEnv) -> (r: Result<(u8, u64, Option<(Vec<char>, u8)>), Need>)
    ensures
        match emit_operand(op@, syms_view(*t), env_view(*env)) {
            Ok((m, v, rl)) => r matches Ok((m2, v2, rl2)) && m2 == m && v2 == v && reloc_view(rl2) == rl,
            Err(n) => r matches Err(x) && crate::asm_lines::need_view(x) == n,
        },
{
    proof {
        reveal_strlit("#");
        reveal_strlit("$");
        reveal_strlit("0x");
        reveal_strlit("0X");
    }
    if starts_with_str(op, "#") {
        let name = slice_chars(op, 1, op.len());
        assert(name@ =~= op@.drop_first());
        if lookup(&t.labels, name.as_slice()).is_none() {
            return Ok((2, 0, Some((name, 0u8))));
        }
        match encode_operand_exec(op, t, env) {
            Err(n) => Err(n),
            Ok((m, v)) => Ok((m, v, None)),
        }
    } else if starts_with_str(op, "$") {
        let rest = slice_chars(op, 1, op.len());
        assert(rest@ =~= op@.drop_first());
        let up = upper_chars(rest.as_slice());
        if reg_id(up.as_slice()).is_some() {
            return match encode_operand_exec(op, t, env) {
                Err(n) => Err(n),
                Ok((m, v)) => Ok((m, v, None)),
            };
        }
        if lookup(&t.data, rest.as_slice()).is_none() {
            if starts_with_str(rest.as_slice(), "0x") || starts_with_str(rest.as_slice(), "0X") {
                let h = slice_chars(rest.as_slice(), 2, rest.len());
                assert(h@ =~= rest@.skip(2));
                match parse_u64_radix(h.as_slice(), 16) {
                    Some(v) => Ok((3, v, None)),
                    None => Ok((3, 0, Some((rest, 1u8)))),
                }
            } else if all_ascii_digits_exec(rest.as_slice()) {
                match parse_u64_radix(rest.as_slice(), 10) {
                    Some(v) => Ok((3, v, None)),
                    None => Ok((3, 0, Some((rest, 1u8)))),
                }
            } else {
                Ok((3, 0, Some((rest, 1u8))))
            }
        } else {
            match encode_operand_exec(op, t, env) {
                Err(n) => Err(n),
                Ok((m, v)) => Ok((m, v, None)),
            }
        }
    } else {
        let up = upper_chars(op);
        if lookup(&t.labels, op).is_some() || lookup(&t.data, op).is_some() || reg_id(up.as_slice()).is_some()
            || starts_with_str(op, "0x") || all_ascii_digits_exec(op) {
            return match encode_operand_exec(op, t, env) {
                Err(n) => Err(n),
                Ok((m, v)) => Ok((m, v, None)),
            };
        }
        match assoc_lookup(&t.imports, op) {
            Some(k) => Ok((if k == 0 { 2u8 } else { 3u8 }, 0, Some((copy_chars(op), k)))),
            None => match encode_operand_exec(op, t, env) {
                Err(n) => Err(n),
                Ok((m, v)) => Ok((m, v, None)),
            },
        }
    }
}

} // verus!

verus! {

pub open spec fn rels_view(v: Seq<(Vec<char>, u8, u64)>) -> Seq<SReloc> {
    v.map_values(|r: (Vec<char>, u8, u64)| (r.0@, r.1, r.2 as nat))
}

pub open spec fn emitted(r: Result<(), Need>, spec: Result<(Seq<u8>, Seq<SReloc>), SNeed>, code: Seq<u8>, rel: Seq<SReloc>) -> bool {
    match spec {
        Ok((c2, r2)) => r is Ok && code == c2 && rel == r2,
        Err(n) => r matches Err(x) && crate::asm_lines::need_view(x) == n,
    }
}

fn emit_op_exec(op: &[char], code: &mut Vec<u8>, rel: &mut Vec<(Vec<char>, u8, u64)>, t: &SymTables, env: &AsmEnv) -> (r: Result<(), Need>)
    ensures
        emitted(r, emit_op(op@, old(code)@, rels_view(old(rel)@), syms_view(*t), env_view(*env)), final(code)@, rels_view(final(rel)@)),
{
    match emit_operand_exec(op, t, env) {
        Err(n) => Err(n),
        Ok((m, v, rl)) => {
            let ghost c0 = code@;
            code.push(m);
            let off = code.len() as u64;
            write_u64_le(v, code);
            match rl {
                None => {},
                Some((name, k)) => {
                    let ghost before = rels_view(rel@);
                    let ghost nv = name@;
                    rel.push((name, k, off));
                    proof {
                        assert(rels_view(rel@) =~= before.push((nv, k, c0.len() + 1)));
                    }
                },
            }
            Ok(())
        },
    }
}

fn emit_range_exec(
    ops: &Vec<Vec<char>>,
    from: usize,
    end: usize,
    pre: bool,
    code: &mut Vec<u8>,
    rel: &mut Vec<(Vec<char>, u8, u64)>,
    t: &SymTables,
    env: &AsmEnv,
) -> (r: Result<(), Need>)
    requires
        from <= end <= ops@.len(),
    ensures
        emitted(
            r,
            emit_range(views(ops@), from as int, end as int, pre, old(code)@, rels_view(old(rel)@), syms_view(*t), env_view(*env)),
            final(code)@,
            rels_view(final(rel)@),
        ),
{
    let ghost target = emit_range(views(ops@), from as int, end as int, pre, code@, rels_view(rel@), syms_view(*t), env_view(*env));
    let mut i = from;
    while i < end
        invariant
            from <= i <= end <= ops@.len(),
            target == emit_range(views(ops@), from as int, end as int, pre, old(code)@, rels_view(old(rel)@), syms_view(*t), env_view(*env)),
            emit_range(views(ops@), i as int, end as int, pre, code@, rels_view(rel@), syms_view(*t), env_view(*env)) == target,
        decreases end - i,
    {
        let ghost c0 = code@;
        let ghost r0 = rels_view(rel@);
        let o: Vec<char> = if pre {
            let mut d: Vec<char> = vec!['$'];
            crate::fmt::append_chars(&mut d, ops[i].as_slice());
            proof {
                assert(d@ =~= dollar(ops@[i as int]@));
            }
            d
        } else {
            copy_chars(ops[i].as_slice())
        };
        proof {
            assert(views(ops@)[i as int] == ops@[i as int]@);
            assert(o@ == (if pre { dollar(views(ops@)[i as int]) } else { views(ops@)[i as int] }));
        }
        match emit_op_exec(o.as_slice(), code, rel, t, env) {
            Err(n) => {
                proof {
                    assert(emit_op(o@, c0, r0, syms_view(*t), env_view(*env)) is Err);
                    assert(emit_range(views(ops@), i as int, end as int, pre, c0, r0, syms_view(*t), env_view(*env)) == Err::<(Seq<u8>, Seq<SReloc>), SNeed>(crate::asm_lines::need_view(n)));
                }
                return Err(n);
            },
            Ok(()) => {},
        }
        i = i + 1;
    }
    Ok(())
}

/// The code section and the relocations for imported symbols.
pub fn emit_code_exec(insts: &Vec<Inst>, t: &SymTables, env: &AsmEnv) -> (r: Result<(Vec<u8>, Vec<(Vec<char>, u8, u64)>), Need>)
    requires
        insts_wf(insts_view(insts@)),
    ensures
        match emit_code(insts_view(insts@), syms_view(*t), env_view(*env)) {
            Ok((c, rl)) => r matches Ok((c2, rl2)) && c2@ == c && rels_view(rl2@) == rl,
            Err(n) => r matches Err(x) && crate::asm_lines::need_view(x) == n,
        },
{
    let ghost iv = insts_view(insts@);
    let ghost sy = syms_view(*t);
    let mut code: Vec<u8> = Vec::new();
    let mut rel: Vec<(Vec<char>, u8, u64)> = Vec::new();
    let mut j: usize = 0;
    proof {
        assert(rels_view(rel@) =~= Seq::<SReloc>::empty());
        assert(code@ =~= Seq::<u8>::empty());
    }
    while j < insts.len()
        invariant
            j <= insts@.len(),
            iv == insts_view(insts@),
            sy == syms_view(*t),
            insts_wf(iv),
            emit_from(iv, j as int, code@, rels_view(rel@), sy, env_view(*env)) == emit_code(iv, sy, env_view(*env)),
        decreases insts.len() - j,
    {
        let ins = &insts[j];
        let ghost c0 = code@;
        let ghost r0 = rels_view(rel@);
        proof {
            assert(iv[j as int] == inst_view(*ins));
            assert(inst_wf(iv[j as int]));
            assert(views(ins.ops@) == iv[j as int].ops);
        }
        if ins.kind == 0 {
        } else if ins.kind == 2 {
            code.push(ins.opcode);
            match emit_range_exec(&ins.ops, 0, 2, false, &mut code, &mut rel, t, env) {
                Err(n) => {
                    return Err(n);
                },
                Ok(()) => {},
            }
            push_le((ins.ops.len() - 2) as u64, 2, &mut code);
            match emit_range_exec(&ins.ops, 2, ins.ops.len(), true, &mut code, &mut rel, t, env) {
                Err(n) => {
                    return Err(n);
                },
                Ok(()) => {},
            }
        } else {
            code.push(ins.opcode);
            match emit_range_exec(&ins.ops, 0, ins.ops.len(), false, &mut code, &mut rel, t, env) {
                Err(n) => {
                    return Err(n);
                },
                Ok(()) => {},
            }
        }
        j = j + 1;
    }
    Ok((code, rel))
}

} // verus!

verus! {

// ------------------------------------------------------------ the emitted code decodes

/// No native call has more than 65535 arguments, the most its 16-bit
/// argument count can hold.
pub open spec fn native_args_fit(insts: Seq<SInst>) -> bool {
    forall|k: int| 0 <= k < insts.len() && (#[trigger] insts[k]).kind == 2 ==> insts[k].ops.len() - 2 < 65536
}

proof fn lemma_emit_op_shape(op: Seq<char>, code: Seq<u8>, rel: Seq<SReloc>, sy: Syms, env: SEnv)
    ensures
        emit_op(op, code, rel, sy, env) matches Ok((c, _)) ==> c.len() == code.len() + 9 && c.take(
            code.len() as int,
        ) == code,
{
    if let Ok((m, v, r)) = emit_operand(op, sy, env) {
        crate::le::lemma_le_bytes_len(v as nat, 8);
        let c = code.push(m) + le_bytes(v as nat, 8);
        assert(c.take(code.len() as int) =~= code);
    }
}

proof fn lemma_emit_range_shape(
    ops: Seq<Seq<char>>,
    i: int,
    end: int,
    pre: bool,
    code: Seq<u8>,
    rel: Seq<SReloc>,
    sy: Syms,
    env: SEnv,
)
    requires
        0 <= i <= end <= ops.len(),
    ensures
        emit_range(ops, i, end, pre, code, rel, sy, env) matches Ok((c, _)) ==> c.len() == code.len() + 9 * (
        end - i) && c.take(code.len() as int) == code,
    decreases end - i,
{
    if i < end {
        let op = if pre { dollar(ops[i]) } else { ops[i] };
        lemma_emit_op_shape(op, code, rel, sy, env);
        if let Ok((c2, r2)) = emit_op(op, code, rel, sy, env) {
            lemma_emit_range_shape(ops, i + 1, end, pre, c2, r2, sy, env);
            if let Ok((c, _)) = emit_range(ops, i + 1, end, pre, c2, r2, sy, env) {
                assert(c.take(code.len() as int) =~= c.take(c2.len() as int).take(code.len() as int));
            }
        }
    }
}

proof fn lemma_emit_inst_shape(ins: SInst, code: Seq<u8>, rel: Seq<SReloc>, sy: Syms, env: SEnv)
    requires
        inst_wf(ins),
        ins.kind == 2 ==> ins.ops.len() - 2 < 65536,
    ensures
        emit_inst(ins, code, rel, sy, env) matches Ok((c, _)) ==> {
            &&& c.len() == code.len() + crate::layout::inst_size(ins)
            &&& c.take(code.len() as int) == code
            &&& ins.kind != 0 ==> c[code.len() as int] == ins.opcode
            &&& ins.kind == 2 ==> crate::masi::le16(c, code.len() as int + 19) == ins.ops.len() - 2
        },
{
    let p = code.len() as int;
    if ins.kind == 0 {
    } else if ins.kind == 2 {
        let c0 = code.push(ins.opcode);
        lemma_emit_range_shape(ins.ops, 0, 2, false, c0, rel, sy, env);
        if let Ok((ca, ra)) = emit_range(ins.ops, 0, 2, false, c0, rel, sy, env) {
            let argc = (ins.ops.len() - 2) as nat;
            crate::le::lemma_le_bytes_len(argc, 2);
            let cb = ca + le_bytes(argc, 2);
            lemma_emit_range_shape(ins.ops, 2, ins.ops.len() as int, true, cb, ra, sy, env);
            if let Ok((c, _)) = emit_range(ins.ops, 2, ins.ops.len() as int, true, cb, ra, sy, env) {
                assert(c.take(cb.len() as int).take(p) =~= c.take(p));
                assert(cb.take(p) =~= code) by {
                    assert(ca.take(c0.len() as int) == c0);
                    assert(cb.take(p) =~= ca.take(c0.len() as int).take(p));
                }
                assert(c[p] == cb[p]);
                assert(cb[p] == ca[p]);
                assert(ca[p] == c0[p]);
                assert(c.subrange(p + 19, p + 21) =~= le_bytes(argc, 2)) by {
                    assert forall|k: int| 0 <= k < 2 implies #[trigger] c.subrange(p + 19, p + 21)[k] == le_bytes(argc, 2)[k] by {
                        assert(c[p + 19 + k] == cb[p + 19 + k]);
                        assert(cb[p + 19 + k] == le_bytes(argc, 2)[k]);
                    }
                }
                crate::le::lemma_le_roundtrip(argc, 2);
                crate::le::lemma_pow256_values();
            }
        }
    } else {
        let c0 = code.push(ins.opcode);
        lemma_emit_range_shape(ins.ops, 0, ins.ops.len() as int, false, c0, rel, sy, env);
        if let Ok((c, _)) = emit_range(ins.ops, 0, ins.ops.len() as int, false, c0, rel, sy, env) {
            assert(c.take(p) =~= c.take(c0.len() as int).take(p));
            assert(c[p] == c0[p]);
        }
    }
}

proof fn lemma_emit_from_decodes(insts: Seq<SInst>, j: int, code: Seq<u8>, rel: Seq<SReloc>, sy: Syms, env: SEnv)
    requires
        insts_wf(insts),
        native_args_fit(insts),
        0 <= j,
    ensures
        emit_from(insts, j, code, rel, sy, env) matches Ok((c, _)) ==> code.len() <= c.len() && c.take(
            code.len() as int,
        ) == code && crate::disassembler::decodes(c, code.len() as int),
    decreases insts.len() - j,
{
    if j < insts.len() {
        let ins = insts[j];
        assert(inst_wf(ins));
        lemma_emit_inst_shape(ins, code, rel, sy, env);
        if let Ok((c2, r2)) = emit_inst(ins, code, rel, sy, env) {
            lemma_emit_from_decodes(insts, j + 1, c2, r2, sy, env);
            if let Ok((c, _)) = emit_from(insts, j + 1, c2, r2, sy, env) {
                let p = code.len() as int;
                assert(c.take(p) =~= c.take(c2.len() as int).take(p));
                if ins.kind != 0 {
                    assert(c[p] == c.take(c2.len() as int)[p]);
                    let f = crate::vm::fetch(c, p);
                    if ins.kind == 2 {
                        assert(c.subrange(p + 19, p + 21) =~= c2.subrange(p + 19, p + 21)) by {
                            assert forall|k: int| 0 <= k < 2 implies #[trigger] c.subrange(p + 19, p + 21)[k] == c2.subrange(p + 19, p + 21)[k] by {
                                assert(c[p + 19 + k] == c.take(c2.len() as int)[p + 19 + k]);
                            }
                        }
                        assert(f is Some);
                    }
                    assert(f is Some && f->Some_0.next == c2.len());
                }
            }
        }
    } else {
        assert(code.take(code.len() as int) =~= code);
    }
}

/// Code emitted for well-formed instructions decodes instruction by
/// instruction from offset 0 to its end, so every instruction of it can
/// be fetched and disassembled.
pub proof fn lemma_emitted_code_decodes(insts: Seq<SInst>, sy: Syms, env: SEnv)
    requires
        insts_wf(insts),
        native_args_fit(insts),
    ensures
        emit_code(insts, sy, env) matches Ok((c, _)) ==> crate::disassembler::decodes(c, 0),
{
    lemma_emit_from_decodes(insts, 0, seq![], seq![], sy, env);
}

} // verus!
