//! One instruction of the MASI virtual machine.
//!
//! An instruction is fetched from the code, then executed against the VM
//! state. What needs the host (printing, reading a line, floating-point
//! arithmetic and comparison, native-module calls) comes back as an
//! outcome for the caller to perform; the matching `finish_*` function
//! applies its result to the state.
use vstd::prelude::*;
use vstd::utf8::{encode_utf8, valid_utf8, decode_utf8};
use crate::text::{find_char, utf8_bytes, str_chars, chars_to_string, copy_chars};
use crate::fmt::{dec, hex_upper, dec_chars, hex_upper_chars, append_chars, append_str};
use crate::le::{le_bytes, le_value, read_u64_le, read_u16_le};
use crate::masi::le16;
use crate::register_map::{spec_reg_id, spec_reg_name, reg_id, reg_name};
use crate::layout::zeros;

verus! {

// ------------------------------------------------------------ state

/// The VM state, as the specifications see it.
pub struct SState {
    pub regs: Map<u16, u64>,
    /// Zero, sign, carry and overflow (or unordered) flags.
    pub flags: (bool, bool, bool, bool),
    pub rip: u64,
    pub stack: Seq<u64>,
    pub memory: Seq<u8>,
    pub warnings: Seq<Seq<char>>,
    pub errors: Seq<Seq<char>>,
}

/// Value of a register; an unset register reads as 0.
pub open spec fn reg_val(regs: Map<u16, u64>, id: u16) -> u64 {
    if regs.contains_key(id) {
        regs[id]
    } else {
        0
    }
}

/// Id of a named register, or 0.
pub open spec fn reg_or0(name: Seq<char>) -> u16 {
    match spec_reg_id(name) {
        Some(i) => i,
        None => 0,
    }
}

pub open spec fn warn(s: SState, w: Seq<char>) -> SState {
    SState { warnings: s.warnings.push(w), ..s }
}

pub open spec fn warn_if(s: SState, c: bool, w: Seq<char>) -> SState {
    if c {
        warn(s, w)
    } else {
        s
    }
}

pub open spec fn at_pc(rip: u64) -> Seq<char> {
    "\n  --> pc: 0x"@ + hex_upper(rip as nat)
}

// ------------------------------------------------------------ memory

pub open spec fn oob8(mem: Seq<u8>, a: u64) -> bool {
    a >= mem.len() || a + 8 > mem.len()
}

/// The 64-bit little-endian word at `a`, or 0 when it is not all in memory.
pub open spec fn mem_read64(mem: Seq<u8>, a: u64) -> u64 {
    if oob8(mem, a) {
        0
    } else {
        le_value(mem.subrange(a as int, a + 8)) as u64
    }
}

pub open spec fn read_oob_warning(a: u64, len: nat, rip: u64) -> Seq<char> {
    "warning: read_u64 OOB at 0x"@ + hex_upper(a as nat) + " (mem size "@ + dec(len) + ")"@ + at_pc(rip)
}

pub open spec fn extend_warning(old: nat, new: nat, a: u64, rip: u64) -> Seq<char> {
    "warning: write extended memory from "@ + dec(old) + " to "@ + dec(new) + at_pc(rip) + "\n   = note: store at 0x"@
        + hex_upper(a as nat) + " (size 8)"@
}

/// A 64-bit store: memory grows (with a warning) to hold it; a store
/// whose end would pass the address space is dropped.
pub open spec fn mem_write64(s: SState, a: u64, v: u64) -> SState {
    if a > usize::MAX - 8 {
        s
    } else {
        let len = s.memory.len();
        let ext = len < a + 8;
        let mem1 = if ext { s.memory + zeros((a + 8 - len) as nat) } else { s.memory };
        SState {
            memory: mem1.take(a as int) + le_bytes(v as nat, 8) + mem1.skip(a + 8),
            warnings: if ext { s.warnings.push(extend_warning(len, (a + 8) as nat, a, s.rip)) } else { s.warnings },
            ..s
        }
    }
}

/// The bytes from `a` up to (not including) the first zero byte.
pub open spec fn until_zero(b: Seq<u8>) -> Seq<u8> {
    match find_byte(b, 0) {
        Some(i) => b.take(i),
        None => b,
    }
}

pub open spec fn find_byte(b: Seq<u8>, x: u8) -> Option<int>
    decreases b.len(),
{
    if b.len() == 0 {
        None
    } else if b[0] == x {
        Some(0)
    } else {
        match find_byte(b.drop_first(), x) {
            Some(i) => Some(i + 1),
            None => None,
        }
    }
}

/// The zero-terminated UTF-8 string at `a`.
pub open spec fn c_string(mem: Seq<u8>, a: u64) -> Option<Seq<char>> {
    if a >= mem.len() {
        None
    } else {
        let b = until_zero(mem.skip(a as int));
        if valid_utf8(b) {
            Some(decode_utf8(b))
        } else {
            None
        }
    }
}

// ------------------------------------------------------------ operands

/// Value of an operand: an immediate or code address (modes 0 and 2), a
/// register (1), a memory word at an address (3) or at the address held in
/// a register (4). A memory read outside memory reads 0 and warns.
pub open spec fn operand_value(s: SState, mode: u8, val: u64) -> (SState, u64) {
    if mode == 1 {
        (s, reg_val(s.regs, val as u16))
    } else if mode == 3 {
        (warn_if(s, oob8(s.memory, val), read_oob_warning(val, s.memory.len(), s.rip)), mem_read64(s.memory, val))
    } else if mode == 4 {
        let a = reg_val(s.regs, val as u16);
        (warn_if(s, oob8(s.memory, a), read_oob_warning(a, s.memory.len(), s.rip)), mem_read64(s.memory, a))
    } else {
        (s, val)
    }
}

/// A store to an operand: a register, a memory word, or the word at the
/// address held in a register; other modes store nothing.
pub open spec fn set_operand(s: SState, mode: u8, val: u64, value: u64) -> SState {
    if mode == 1 {
        SState { regs: s.regs.insert(val as u16, value), ..s }
    } else if mode == 3 {
        mem_write64(s, val, value)
    } else if mode == 4 {
        mem_write64(s, reg_val(s.regs, val as u16), value)
    } else {
        s
    }
}

// ------------------------------------------------------------ arithmetic flags

pub open spec fn signed(x: u64) -> int {
    if x < 0x8000_0000_0000_0000 {
        x as int
    } else {
        x - 0x1_0000_0000_0000_0000
    }
}

pub open spec fn wadd(a: u64, b: u64) -> u64 {
    ((a + b) % 0x1_0000_0000_0000_0000) as u64
}

pub open spec fn wsub(a: u64, b: u64) -> u64 {
    ((a - b + 0x1_0000_0000_0000_0000) % 0x1_0000_0000_0000_0000) as u64
}

pub open spec fn add_flags(a: u64, b: u64, r: u64) -> (bool, bool, bool, bool) {
    (
        r == 0,
        signed(r) < 0,
        r < a,
        (signed(a) > 0 && signed(b) > 0 && signed(r) < 0) || (signed(a) < 0 && signed(b) < 0 && signed(r) > 0),
    )
}

pub open spec fn sub_flags(a: u64, b: u64, r: u64) -> (bool, bool, bool, bool) {
    (
        r == 0,
        signed(r) < 0,
        a < b,
        (signed(a) >= 0 && signed(b) < 0 && signed(r) < 0) || (signed(a) < 0 && signed(b) >= 0 && signed(r) >= 0),
    )
}

// ------------------------------------------------------------ fetch

/// A decoded instruction: opcode, operands (mode and value), and the
/// offset of the next instruction.
pub struct SFetched {
    pub opcode: u8,
    pub ops: Seq<(u8, u64)>,
    pub next: nat,
}

pub open spec fn operand_count(op: u8) -> nat {
    if op == 0x01 || op == 0x02 || op == 0x03 || op == 0x11 || op == 0x40 || op == 0x41 || (0x70 <= op
        && op <= 0x75) {
        2
    } else if op == 0x10 || (0x12 <= op && op <= 0x17) || (0x76 <= op && op <= 0x7C) || op == 0x20 || op
        == 0x30 || op == 0x31 || op == 0x42 || op == 0x50 {
        1
    } else {
        0
    }
}

pub open spec fn operand_at(code: Seq<u8>, p: int) -> (u8, u64) {
    (code[p], le_value(code.subrange(p + 1, p + 9)) as u64)
}

pub open spec fn operands_at(code: Seq<u8>, p: int, n: nat) -> Seq<(u8, u64)> {
    Seq::new(n, |k: int| operand_at(code, p + 9 * k))
}

/// The instruction at `pc`, when all of it lies within the code. A native
/// module call holds module and function operands, a 16-bit argument
/// count and the arguments.
pub open spec fn fetch(code: Seq<u8>, pc: int) -> Option<SFetched> {
    if pc < 0 || pc >= code.len() {
        None
    } else {
        let op = code[pc];
        if op == 0x60 {
            if pc + 21 > code.len() {
                None
            } else {
                let argc = le16(code, pc + 19);
                if pc + 21 + 9 * argc > code.len() {
                    None
                } else {
                    Some(
                        SFetched {
                            opcode: op,
                            ops: operands_at(code, pc + 1, 2) + operands_at(code, pc + 21, argc),
                            next: (pc + 21 + 9 * argc) as nat,
                        },
                    )
                }
            }
        } else {
            let n = operand_count(op);
            if pc + 1 + 9 * n > code.len() {
                None
            } else {
                Some(SFetched { opcode: op, ops: operands_at(code, pc + 1, n), next: (pc + 1 + 9 * n) as nat })
            }
        }
    }
}

// ------------------------------------------------------------ outcomes

/// What an executed instruction leaves to do.
pub enum SOutcome {
    /// Go on at this code offset.
    Next(nat),
    /// Stop; the run ends normally.
    Halt,
    /// Stop with this error (also recorded in the state's errors).
    Fault(Seq<char>),
    /// `f64` arithmetic (opcode `0x71`..`0x74`) of register `dest` and a value.
    Float { op: u8, a: u64, b: u64, dest: u16, next: nat },
    /// `f64` comparison that sets the flags.
    Compare { a: u64, b: u64, next: nat },
    /// Bytes to write to standard output, or to standard error.
    Print { to_err: bool, bytes: Seq<u8>, next: nat },
    /// Read a line into memory at `dest` (`IN`).
    ReadIn { dest: u64, next: nat },
    /// Read a line of at most `cnt` bytes into memory at `buf` (read system call).
    ReadSys { buf: u64, cnt: u64, next: nat },
    /// Call a native-module function with string arguments.
    Mni { module: Seq<char>, function: Seq<char>, args: Seq<Seq<char>>, next: nat },
}

pub open spec fn fault(s: SState, msg: Seq<char>) -> (SState, SOutcome) {
    (SState { errors: s.errors.push(msg), ..s }, SOutcome::Fault(msg))
}

pub open spec fn jump_error(rip: u64, target: u64, len: nat) -> Seq<char> {
    "error[EVM004]: invalid jump target"@ + at_pc(rip) + "\n   = note: jump target 0x"@ + hex_upper(target as nat)
        + ", code size "@ + dec(len)
}

pub open spec fn call_error(rip: u64, target: u64, len: nat) -> Seq<char> {
    "error[EVM003]: invalid call target"@ + at_pc(rip) + "\n   = note: call target 0x"@ + hex_upper(target as nat)
        + ", code size "@ + dec(len)
}

pub open spec fn ret_error(rip: u64, target: u64, len: nat) -> Seq<char> {
    "error[EVM002]: return address outside code section"@ + at_pc(rip) + "\n   = note: return target 0x"@
        + hex_upper(target as nat) + ", code size "@ + dec(len)
        + "\n   = help: did you POP the return address by accident? (stack imbalance)"@
}

pub open spec fn is_jump(op: u8) -> bool {
    op == 0x10 || (0x12 <= op && op <= 0x17) || (0x76 <= op && op <= 0x7C)
}

/// Whether a jump is taken, from the zero, sign, carry and overflow flags.
pub open spec fn jump_taken(op: u8, f: (bool, bool, bool, bool)) -> bool {
    let (zf, sf, cf, of) = f;
    if op == 0x10 {
        true
    } else if op == 0x12 || op == 0x76 {
        zf
    } else if op == 0x13 || op == 0x77 {
        !zf
    } else if op == 0x14 {
        (sf != of) && !zf
    } else if op == 0x15 {
        zf || (sf != of)
    } else if op == 0x16 {
        !zf && !(sf != of)
    } else if op == 0x17 {
        !(sf != of)
    } else if op == 0x78 {
        sf
    } else if op == 0x79 {
        zf || sf
    } else if op == 0x7A {
        cf
    } else if op == 0x7B {
        zf || cf
    } else {
        of
    }
}

/// The flags of `ADD` and `SUB` (and `CMP`): zero when the wrapped result
/// is 0, sign when it is negative as a signed number, carry when the
/// unsigned sum exceeds 64 bits or the unsigned difference is negative,
/// and overflow when the signed sum or difference leaves the signed
/// 64-bit range (for the sum, except when both operands are `i64::MIN`,
/// where the wrapped result is 0 and the flag stays clear).
pub proof fn lemma_arith_flags(a: u64, b: u64)
    ensures
        ({
            let f = add_flags(a, b, wadd(a, b));
            &&& f.0 == ((a + b) % 0x1_0000_0000_0000_0000 == 0)
            &&& f.1 == (signed(wadd(a, b)) < 0)
            &&& f.2 == (a + b > u64::MAX)
            &&& !(a == 0x8000_0000_0000_0000 && b == 0x8000_0000_0000_0000) ==> f.3 == !(i64::MIN <= signed(a)
                + signed(b) <= i64::MAX)
        }),
        ({
            let f = sub_flags(a, b, wsub(a, b));
            &&& f.0 == (a == b)
            &&& f.1 == (signed(wsub(a, b)) < 0)
            &&& f.2 == (a < b)
            &&& f.3 == !(i64::MIN <= signed(a) - signed(b) <= i64::MAX)
        }),
{
    let r = wadd(a, b);
    if a + b > u64::MAX {
        assert(r == a + b - 0x1_0000_0000_0000_0000);
    } else {
        assert(r == a + b);
    }
    let q = wsub(a, b);
    if a >= b {
        assert(q == a - b);
    } else {
        assert(q == a - b + 0x1_0000_0000_0000_0000);
    }
}

/// After `CMP a b` the conditional jumps compare `a` with `b`: `JE` and
/// `JNE` on equality, `JL`, `JLE`, `JG` and `JGE` as signed numbers; and
/// the carry-testing `FJGT` and `FJGE`, used after `CMP`, compare them as
/// unsigned numbers (`a < b`, `a <= b`).
pub proof fn lemma_jumps_after_compare(a: u64, b: u64)
    ensures
        ({
            let f = sub_flags(a, b, wsub(a, b));
            &&& jump_taken(0x10, f)
            &&& jump_taken(0x12, f) == (a == b)
            &&& jump_taken(0x13, f) == (a != b)
            &&& jump_taken(0x14, f) == (signed(a) < signed(b))
            &&& jump_taken(0x15, f) == (signed(a) <= signed(b))
            &&& jump_taken(0x16, f) == (signed(a) > signed(b))
            &&& jump_taken(0x17, f) == (signed(a) >= signed(b))
            &&& jump_taken(0x7A, f) == (a < b)
            &&& jump_taken(0x7B, f) == (a <= b)
        }),
{
    let r = wsub(a, b);
    if a >= b {
        assert(r == a - b);
    } else {
        assert(r == a - b + 0x1_0000_0000_0000_0000);
    }
}

// ------------------------------------------------------------ instructions

pub open spec fn reg_name_or(id: u16) -> Seq<char> {
    match spec_reg_name(id) {
        Some(n) => n,
        None => "REG"@ + dec(id as nat),
    }
}

/// A native-module argument as its string: a number, a register name, the
/// string at a data address, or `$` and a register name.
pub open spec fn mni_arg(mem: Seq<u8>, mode: u8, val: u64) -> Seq<char> {
    if mode == 1 {
        reg_name_or(val as u16)
    } else if mode == 3 {
        match c_string(mem, val) {
            Some(t) => t,
            None => "$0x"@ + hex_upper(val as nat),
        }
    } else if mode == 4 {
        "$"@ + reg_name_or(val as u16)
    } else {
        dec(val as nat)
    }
}

/// A native-module or function name operand, when it decodes.
pub open spec fn mni_name(mem: Seq<u8>, mode: u8, val: u64) -> Option<Seq<char>> {
    if mode == 3 {
        c_string(mem, val)
    } else if mode == 1 {
        Some(reg_name_or(val as u16))
    } else if mode == 0 {
        Some(dec(val as nat))
    } else if mode == 4 {
        Some("$"@ + reg_name_or(val as u16))
    } else {
        None
    }
}

pub open spec fn mni_args(mem: Seq<u8>, args: Seq<(u8, u64)>) -> Seq<Seq<char>> {
    args.map_values(|a: (u8, u64)| mni_arg(mem, a.0, a.1))
}

pub open spec fn exec_mni(s: SState, ops: Seq<(u8, u64)>, next: nat) -> (SState, SOutcome) {
    let m = mni_name(s.memory, ops[0].0, ops[0].1);
    let f = mni_name(s.memory, ops[1].0, ops[1].1);
    if m is Some && f is Some {
        (s, SOutcome::Mni { module: m->Some_0, function: f->Some_0, args: mni_args(s.memory, ops.skip(2)), next })
    } else {
        fault(s, "MNI: module or function decoding failed"@)
    }
}

/// The emulated system calls: exit (60), write (1) to standard output or
/// error, read (0) from standard input; any other number returns 0.
pub open spec fn exec_syscall(s: SState, next: nat) -> (SState, SOutcome) {
    let rax = reg_or0("RAX"@);
    let num = reg_val(s.regs, rax);
    let a1 = reg_val(s.regs, reg_or0("RDI"@));
    let a2 = reg_val(s.regs, reg_or0("RSI"@));
    let a3 = reg_val(s.regs, reg_or0("RDX"@));
    if num == 60 {
        (s, SOutcome::Halt)
    } else if num == 1 {
        let end = if a2 + a3 < s.memory.len() { a2 + a3 } else { s.memory.len() as int };
        let bytes = if a2 < end { s.memory.subrange(a2 as int, end) } else { seq![] };
        let s1 = SState { regs: s.regs.insert(rax, bytes.len() as u64), ..s };
        if a1 == 1 || a1 == 2 {
            (s1, SOutcome::Print { to_err: a1 == 2, bytes, next })
        } else {
            (s1, SOutcome::Next(next))
        }
    } else if num == 0 && a1 == 0 {
        (s, SOutcome::ReadSys { buf: a2, cnt: a3, next })
    } else {
        (SState { regs: s.regs.insert(rax, 0), ..s }, SOutcome::Next(next))
    }
}

pub open spec fn port_warning(what: Seq<char>, port: u64, rip: u64) -> Seq<char> {
    "warning: unknown "@ + what + " port "@ + dec(port as nat) + " (defaulting to stdout)"@ + at_pc(rip)
}

pub open spec fn bad_string_warning(a: u64, rip: u64) -> Seq<char> {
    "warning: OUT read invalid string address $0x"@ + hex_upper(a as nat) + at_pc(rip)
}

/// `OUT port value`: a string operand prints the string at its address, any
/// other operand its number; either way a newline follows.
pub open spec fn exec_out(s: SState, ops: Seq<(u8, u64)>, next: nat) -> (SState, SOutcome) {
    let (pm, pv) = ops[0];
    let (vm, vv) = ops[1];
    let port = if pm == 1 {
        reg_val(s.regs, pv as u16)
    } else if pm == 3 {
        mem_read64(s.memory, pv)
    } else if pm == 4 {
        mem_read64(s.memory, reg_val(s.regs, pv as u16))
    } else {
        pv
    };
    let s1 = warn_if(s, port != 1 && port != 2, port_warning("OUT"@, port, s.rip));
    let (s2, text) = if vm == 3 || vm == 4 {
        let a = if vm == 3 { vv } else { reg_val(s.regs, vv as u16) };
        match c_string(s1.memory, a) {
            Some(t) => (s1, t),
            None => (warn(s1, bad_string_warning(a, s.rip)), dec(a as nat)),
        }
    } else if vm == 1 {
        (s1, dec(reg_val(s.regs, vv as u16) as nat))
    } else {
        (s1, dec(vv as nat))
    };
    (s2, SOutcome::Print { to_err: port == 2, bytes: encode_utf8(text + "\n"@), next })
}

/// `COUT port value`: the byte stored at the address `value`, or the
/// value's low byte when the address lies outside memory (which also
/// warns); no newline.
pub open spec fn exec_cout(s: SState, ops: Seq<(u8, u64)>, next: nat) -> (SState, SOutcome) {
    let (s1, p) = operand_value(s, ops[0].0, ops[0].1);
    let (s2, v) = operand_value(s1, ops[1].0, ops[1].1);
    let s3 = warn_if(s2, p != 1 && p != 2, port_warning("COUT"@, p, s.rip));
    let ch: u8 = if v < s3.memory.len() { s3.memory[v as int] } else { v as u8 };
    let s4 = warn_if(
        s3,
        v >= s3.memory.len(),
        "warning: COUT read out-of-bounds at 0x"@ + hex_upper(v as nat) + at_pc(s.rip),
    );
    (s4, SOutcome::Print { to_err: p == 2, bytes: seq![ch], next })
}

/// Execution of a fetched instruction found at `pc`.
#[verifier::opaque]
pub open spec fn exec_inst(s0: SState, code_len: nat, f: SFetched, pc: nat) -> (SState, SOutcome) {
    let s = SState { rip: pc as u64, ..s0 };
    let op = f.opcode;
    let ops = f.ops;
    let next = f.next;
    if op == 0x00 {
        (s, SOutcome::Next(next))
    } else if op == 0xFF {
        (s, SOutcome::Halt)
    } else if op == 0x01 || op == 0x70 {
        let (s1, v) = operand_value(s, ops[1].0, ops[1].1);
        (set_operand(s1, ops[0].0, ops[0].1, v), SOutcome::Next(next))
    } else if op == 0x02 || op == 0x03 {
        let (s1, v) = operand_value(s, ops[1].0, ops[1].1);
        if ops[0].0 == 1 {
            let id = ops[0].1 as u16;
            let a = reg_val(s1.regs, id);
            let r = if op == 0x02 { wadd(a, v) } else { wsub(a, v) };
            (
                SState {
                    regs: s1.regs.insert(id, r),
                    flags: if op == 0x02 { add_flags(a, v, r) } else { sub_flags(a, v, r) },
                    ..s1
                },
                SOutcome::Next(next),
            )
        } else {
            (s1, SOutcome::Next(next))
        }
    } else if 0x71 <= op && op <= 0x74 {
        let (s1, v) = operand_value(s, ops[1].0, ops[1].1);
        if ops[0].0 == 1 {
            let id = ops[0].1 as u16;
            (s1, SOutcome::Float { op, a: reg_val(s1.regs, id), b: v, dest: id, next })
        } else {
            (s1, SOutcome::Next(next))
        }
    } else if op == 0x11 || op == 0x75 {
        let (s1, a) = operand_value(s, ops[0].0, ops[0].1);
        let (s2, b) = operand_value(s1, ops[1].0, ops[1].1);
        if op == 0x11 {
            (SState { flags: sub_flags(a, b, wsub(a, b)), ..s2 }, SOutcome::Next(next))
        } else {
            (s2, SOutcome::Compare { a, b, next })
        }
    } else if is_jump(op) {
        let (s1, t) = operand_value(s, ops[0].0, ops[0].1);
        if jump_taken(op, s1.flags) {
            if t >= code_len {
                fault(s1, jump_error(s.rip, t, code_len))
            } else {
                (s1, SOutcome::Next(t as nat))
            }
        } else {
            (s1, SOutcome::Next(next))
        }
    } else if op == 0x20 {
        let (s1, t) = operand_value(s, ops[0].0, ops[0].1);
        if t >= code_len {
            fault(s1, call_error(s.rip, t, code_len))
        } else {
            (SState { stack: s1.stack.push(next as u64), ..s1 }, SOutcome::Next(t as nat))
        }
    } else if op == 0x21 {
        if s.stack.len() > 0 {
            let ret = s.stack.last();
            let s1 = SState { stack: s.stack.drop_last(), ..s };
            if ret >= code_len {
                fault(s1, ret_error(s.rip, ret, code_len))
            } else {
                (s1, SOutcome::Next(ret as nat))
            }
        } else {
            (s, SOutcome::Next(next))
        }
    } else if op == 0x30 {
        let (s1, v) = operand_value(s, ops[0].0, ops[0].1);
        (SState { stack: s1.stack.push(v), ..s1 }, SOutcome::Next(next))
    } else if op == 0x31 {
        if ops[0].0 == 1 {
            if s.stack.len() > 0 {
                (
                    SState { regs: s.regs.insert(ops[0].1 as u16, s.stack.last()), stack: s.stack.drop_last(), ..s },
                    SOutcome::Next(next),
                )
            } else {
                (warn(s, "warning: POP on empty stack"@ + at_pc(s.rip)), SOutcome::Next(next))
            }
        } else {
            (s, SOutcome::Next(next))
        }
    } else if op == 0x50 {
        let (s1, size) = operand_value(s, ops[0].0, ops[0].1);
        let rbp = reg_or0("RBP"@);
        let rsp = reg_or0("RSP"@);
        let st = s1.stack.push(reg_val(s1.regs, rbp));
        let cur_rsp = if s1.regs.contains_key(rsp) { s1.regs[rsp] } else { st.len() as u64 };
        (
            SState { stack: st, regs: s1.regs.insert(rbp, cur_rsp).insert(rsp, wadd(cur_rsp, size)), ..s1 },
            SOutcome::Next(next),
        )
    } else if op == 0x51 {
        let rbp = reg_or0("RBP"@);
        let rsp = reg_or0("RSP"@);
        let r1 = s.regs.insert(rsp, reg_val(s.regs, rbp));
        if s.stack.len() > 0 {
            (SState { regs: r1.insert(rbp, s.stack.last()), stack: s.stack.drop_last(), ..s }, SOutcome::Next(next))
        } else {
            (SState { regs: r1, ..s }, SOutcome::Next(next))
        }
    } else if op == 0x60 {
        exec_mni(s, ops, next)
    } else if op == 0x90 {
        exec_syscall(s, next)
    } else if op == 0x40 {
        exec_out(s, ops, next)
    } else if op == 0x41 {
        exec_cout(s, ops, next)
    } else if op == 0x42 {
        let (s1, d) = operand_value(s, ops[0].0, ops[0].1);
        (s1, SOutcome::ReadIn { dest: d, next })
    } else {
        (s, SOutcome::Next(next))
    }
}

/// One step at `pc`: the instruction there, fetched and executed.
pub open spec fn step(s: SState, code: Seq<u8>, pc: nat) -> Option<(SState, SOutcome)> {
    match fetch(code, pc as int) {
        None => None,
        Some(f) => Some(exec_inst(s, code.len(), f, pc)),
    }
}

/// The code offset at which an outcome goes on, when it goes on.
pub open spec fn resume_at(o: SOutcome) -> Option<nat> {
    match o {
        SOutcome::Next(n) => Some(n),
        SOutcome::Halt => None,
        SOutcome::Fault(_) => None,
        SOutcome::Float { next, .. } => Some(next),
        SOutcome::Compare { next, .. } => Some(next),
        SOutcome::Print { next, .. } => Some(next),
        SOutcome::ReadIn { next, .. } => Some(next),
        SOutcome::ReadSys { next, .. } => Some(next),
        SOutcome::Mni { next, .. } => Some(next),
    }
}

proof fn lemma_fetch_next_in_code(code: Seq<u8>, pc: int)
    ensures
        fetch(code, pc) matches Some(f) ==> f.next <= code.len(),
{
}

/// A step never goes on past the end of the code: it goes on at the next
/// instruction or at a jump, call or return target inside the code, or it
/// stops.
#[verifier::rlimit(50)]
pub proof fn lemma_step_stays_in_code(s: SState, code: Seq<u8>, pc: nat)
    ensures
        step(s, code, pc) matches Some((s2, o)) ==> (resume_at(o) matches Some(n) ==> n <= code.len()),
{
    lemma_fetch_next_in_code(code, pc as int);
    if let Some(f) = fetch(code, pc as int) {
        reveal(exec_inst);
        let r = exec_inst(s, code.len(), f, pc);
        let s1 = SState { rip: pc as u64, ..s };
        assert(resume_at(exec_mni(s1, f.ops, f.next).1) matches Some(n) ==> n == f.next);
        assert(resume_at(exec_syscall(s1, f.next).1) matches Some(n) ==> n == f.next);
        assert(resume_at(exec_out(s1, f.ops, f.next).1) matches Some(n) ==> n == f.next);
        assert(resume_at(exec_cout(s1, f.ops, f.next).1) matches Some(n) ==> n == f.next);
        assert(resume_at(r.1) matches Some(n) ==> n == f.next || n < code.len());
    }
}

} // verus!

verus! {

broadcast use vstd::std_specs::hash::group_hash_axioms;

/// The VM state: registers by id, flags (zero, sign, carry, overflow or
/// unordered), instruction pointer, stack, flat memory, and the warnings
/// and errors gathered so far.
pub struct State {
    pub regs: std::collections::HashMap<u16, u64>,
    pub flags: (bool, bool, bool, bool),
    pub rip: u64,
    pub stack: Vec<u64>,
    pub memory: Vec<u8>,
    pub warnings: Vec<String>,
    pub errors: Vec<String>,
}

pub open spec fn strings_view(v: Seq<String>) -> Seq<Seq<char>> {
    v.map_values(|s: String| s@)
}

pub open spec fn state_view(s: State) -> SState {
    SState {
        regs: s.regs@,
        flags: s.flags,
        rip: s.rip,
        stack: s.stack@,
        memory: s.memory@,
        warnings: strings_view(s.warnings@),
        errors: strings_view(s.errors@),
    }
}

impl State {
    /// A fresh state: no registers set, flags clear, empty stack and memory.
    pub fn new() -> (r: State)
        ensures
            state_view(r) == (SState {
                regs: Map::empty(),
                flags: (false, false, false, false),
                rip: 0,
                stack: seq![],
                memory: seq![],
                warnings: seq![],
                errors: seq![],
            }),
    {
        let r = State {
            regs: std::collections::HashMap::new(),
            flags: (false, false, false, false),
            rip: 0,
            stack: Vec::new(),
            memory: Vec::new(),
            warnings: Vec::new(),
            errors: Vec::new(),
        };
        assert(state_view(r).stack =~= Seq::<u64>::empty());
        assert(state_view(r).memory =~= Seq::<u8>::empty());
        assert(state_view(r).warnings =~= Seq::<Seq<char>>::empty());
        assert(state_view(r).errors =~= Seq::<Seq<char>>::empty());
        assert(state_view(r).regs =~= Map::<u16, u64>::empty());
        r
    }

    /// Value of register `id` (0 when unset).
    pub fn reg(&self, id: u16) -> (r: u64)
        ensures
            r == reg_val(self.regs@, id),
    {
        match self.regs.get(&id) {
            Some(v) => *v,
            None => 0,
        }
    }

    /// Sets register `id`.
    pub fn set_reg(&mut self, id: u16, v: u64)
        ensures
            state_view(*final(self)) == (SState { regs: state_view(*old(self)).regs.insert(id, v), ..state_view(*old(self)) }),
    {
        self.regs.insert(id, v);
    }

    pub fn push_warning(&mut self, w: Vec<char>)
        ensures
            state_view(*final(self)) == warn(state_view(*old(self)), w@),
    {
        let ghost before = strings_view(self.warnings@);
        let s = chars_to_string(w.as_slice());
        let ghost sv = s@;
        self.warnings.push(s);
        assert(strings_view(self.warnings@) =~= before.push(sv));
    }

    fn push_error(&mut self, w: &Vec<char>) -> (r: String)
        ensures
            state_view(*final(self)) == (SState { errors: state_view(*old(self)).errors.push(w@), ..state_view(*old(self)) }),
            r@ == w@,
    {
        let ghost before = strings_view(self.errors@);
        let s = chars_to_string(w.as_slice());
        let s2 = chars_to_string(w.as_slice());
        let ghost sv = s@;
        self.errors.push(s);
        assert(strings_view(self.errors@) =~= before.push(sv));
        s2
    }
}

fn at_pc_exec(out: &mut Vec<char>, rip: u64)
    ensures
        final(out)@ == old(out)@ + at_pc(rip),
{
    append_str(out, "\n  --> pc: 0x");
    let h = hex_upper_chars(rip);
    append_chars(out, h.as_slice());
}

pub fn mem_read64_exec(mem: &Vec<u8>, a: u64) -> (r: u64)
    ensures
        r == mem_read64(mem@, a),
{
    let len = mem.len() as u64;
    if a >= len || len - a < 8 {
        return 0;
    }
    let mut off = a as usize;
    read_u64_le(mem.as_slice(), &mut off)
}

fn read_oob_warning_exec(a: u64, len: usize, rip: u64) -> (r: Vec<char>)
    ensures
        r@ == read_oob_warning(a, len as nat, rip),
{
    let mut m: Vec<char> = Vec::new();
    append_str(&mut m, "warning: read_u64 OOB at 0x");
    let h = hex_upper_chars(a);
    append_chars(&mut m, h.as_slice());
    append_str(&mut m, " (mem size ");
    let d = dec_chars(len as u64);
    append_chars(&mut m, d.as_slice());
    append_str(&mut m, ")");
    at_pc_exec(&mut m, rip);
    m
}

fn oob8_exec(mem: &Vec<u8>, a: u64) -> (r: bool)
    ensures
        r == oob8(mem@, a),
{
    let len = mem.len() as u64;
    a >= len || len - a < 8
}

pub fn operand_value_exec(s: &mut State, mode: u8, val: u64) -> (r: u64)
    ensures
        (state_view(*final(s)), r) == operand_value(state_view(*old(s)), mode, val),
{
    if mode == 1 {
        s.reg(val as u16)
    } else if mode == 3 || mode == 4 {
        let a = if mode == 3 { val } else { s.reg(val as u16) };
        if oob8_exec(&s.memory, a) {
            let w = read_oob_warning_exec(a, s.memory.len(), s.rip);
            s.push_warning(w);
        }
        mem_read64_exec(&s.memory, a)
    } else {
        val
    }
}

fn extend_warning_exec(old: usize, new: u64, a: u64, rip: u64) -> (r: Vec<char>)
    ensures
        r@ == extend_warning(old as nat, new as nat, a, rip),
{
    let mut m: Vec<char> = Vec::new();
    append_str(&mut m, "warning: write extended memory from ");
    let d = dec_chars(old as u64);
    append_chars(&mut m, d.as_slice());
    append_str(&mut m, " to ");
    let d2 = dec_chars(new);
    append_chars(&mut m, d2.as_slice());
    at_pc_exec(&mut m, rip);
    append_str(&mut m, "\n   = note: store at 0x");
    let h = hex_upper_chars(a);
    append_chars(&mut m, h.as_slice());
    append_str(&mut m, " (size 8)");
    m
}

/// Writes `bytes` at `a` in `mem`, which must hold them.
pub fn overwrite(mem: &mut Vec<u8>, a: usize, bytes: &Vec<u8>)
    requires
        a + bytes@.len() <= old(mem)@.len(),
    ensures
        final(mem)@ == old(mem)@.take(a as int) + bytes@ + old(mem)@.skip(a + bytes@.len()),
{
    let ghost m0 = mem@;
    let mut out: Vec<u8> = Vec::new();
    let mut k: usize = 0;
    while k < a
        invariant
            k <= a,
            a + bytes@.len() <= m0.len(),
            mem@ == m0,
            out@ == m0.take(k as int),
        decreases a - k,
    {
        out.push(mem[k]);
        k = k + 1;
        proof {
            assert(out@ =~= m0.take(k as int));
        }
    }
    let mut j: usize = 0;
    while j < bytes.len()
        invariant
            j <= bytes@.len(),
            a + bytes@.len() <= m0.len(),
            mem@ == m0,
            out@ == m0.take(a as int) + bytes@.take(j as int),
        decreases bytes.len() - j,
    {
        out.push(bytes[j]);
        j = j + 1;
        proof {
            assert(out@ =~= m0.take(a as int) + bytes@.take(j as int));
        }
    }
    let total = mem.len();
    let mut i: usize = a + bytes.len();
    proof {
        assert(bytes@.take(j as int) =~= bytes@);
        assert(m0.subrange(a + bytes@.len(), a + bytes@.len()) =~= Seq::<u8>::empty());
    }
    while i < mem.len()
        invariant
            a + bytes@.len() <= i <= m0.len(),
            mem@ == m0,
            out@ == m0.take(a as int) + bytes@ + m0.subrange(a + bytes@.len(), i as int),
        decreases mem.len() - i,
    {
        out.push(mem[i]);
        i = i + 1;
        proof {
            assert(out@ =~= m0.take(a as int) + bytes@ + m0.subrange(a + bytes@.len(), i as int));
        }
    }
    proof {
        assert(m0.subrange(a + bytes@.len(), i as int) =~= m0.skip(a + bytes@.len()));
    }
    *mem = out;
}

fn grow_zeros(mem: &mut Vec<u8>, n: usize)
    ensures
        final(mem)@ == old(mem)@ + zeros(n as nat),
{
    let ghost m0 = mem@;
    let mut k: usize = 0;
    proof {
        assert(mem@ =~= m0 + zeros(0));
    }
    while k < n
        invariant
            k <= n,
            mem@ == m0 + zeros(k as nat),
        decreases n - k,
    {
        mem.push(0u8);
        k = k + 1;
        proof {
            assert(mem@ =~= m0 + zeros(k as nat));
        }
    }
}

pub fn mem_write64_exec(s: &mut State, a: u64, v: u64)
    ensures
        state_view(*final(s)) == mem_write64(state_view(*old(s)), a, v),
{
    if a > (usize::MAX as u64) - 8 {
        return;
    }
    let ghost s0 = state_view(*s);
    let len = s.memory.len();
    let end = (a + 8) as usize;
    if (len as u64) < a + 8 {
        let w = extend_warning_exec(len, a + 8, a, s.rip);
        s.push_warning(w);
        grow_zeros(&mut s.memory, end - len);
    }
    let mut b: Vec<u8> = Vec::new();
    crate::le::write_u64_le(v, &mut b);
    proof {
        crate::le::lemma_le_bytes_len(v as nat, 8);
        assert(b@ == le_bytes(v as nat, 8));
    }
    overwrite(&mut s.memory, a as usize, &b);
    proof {
        let t = mem_write64(s0, a, v);
        assert(state_view(*s).memory =~= t.memory);
        assert(state_view(*s).warnings == t.warnings);
    }
}

pub fn set_operand_exec(s: &mut State, mode: u8, val: u64, value: u64)
    ensures
        state_view(*final(s)) == set_operand(state_view(*old(s)), mode, val, value),
{
    if mode == 1 {
        s.set_reg(val as u16, value);
    } else if mode == 3 {
        mem_write64_exec(s, val, value);
    } else if mode == 4 {
        let a = s.reg(val as u16);
        mem_write64_exec(s, a, value);
    }
}

} // verus!

verus! {

fn find_zero(mem: &Vec<u8>, start: usize) -> (r: usize)
    requires
        start <= mem@.len(),
    ensures
        start <= r <= mem@.len(),
        match find_byte(mem@.skip(start as int), 0) {
            Some(i) => r == start + i,
            None => r == mem@.len(),
        },
{
    let ghost m = mem@;
    let mut k = start;
    proof {
        assert(m.skip(start as int) =~= m.skip(k as int));
    }
    while k < mem.len() && mem[k] != 0
        invariant
            start <= k <= m.len(),
            m == mem@,
            find_byte(m.skip(start as int), 0) == match find_byte(m.skip(k as int), 0) {
                Some(i) => Some(i + k - start),
                None => None::<int>,
            },
        decreases mem.len() - k,
    {
        proof {
            let t = m.skip(k as int);
            assert(t[0] == m[k as int]);
            assert(t.drop_first() =~= m.skip(k + 1));
        }
        k = k + 1;
    }
    proof {
        if k < m.len() {
            assert(m.skip(k as int)[0] == m[k as int]);
        } else {
            assert(m.skip(k as int) =~= Seq::<u8>::empty());
        }
    }
    k
}

/// The zero-terminated UTF-8 string at `a`, as `String`.
pub fn c_string_exec(mem: &Vec<u8>, a: u64) -> (r: Option<String>)
    ensures
        match c_string(mem@, a) {
            Some(t) => r matches Some(x) && x@ == t,
            None => r is None,
        },
{
    if a >= mem.len() as u64 {
        return None;
    }
    let start = a as usize;
    let end = find_zero(mem, start);
    let b = crate::le::copy_bytes(mem.as_slice(), start, end);
    proof {
        let t = mem@.skip(start as int);
        match find_byte(t, 0) {
            Some(i) => { assert(b@ =~= t.take(i)); },
            None => { assert(b@ =~= t); },
        }
    }
    crate::masi::utf8_string(b.as_slice())
}

/// A decoded instruction.
pub struct Fetched {
    pub opcode: u8,
    pub ops: Vec<(u8, u64)>,
    pub next: usize,
}

pub open spec fn fetched_view(f: Fetched) -> SFetched {
    SFetched { opcode: f.opcode, ops: f.ops@, next: f.next as nat }
}

pub(crate) fn operand_count_exec(op: u8) -> (r: usize)
    ensures
        r as nat == operand_count(op),
{
    if op == 0x01 || op == 0x02 || op == 0x03 || op == 0x11 || op == 0x40 || op == 0x41 || (0x70 <= op && op
        <= 0x75) {
        2
    } else if op == 0x10 || (0x12 <= op && op <= 0x17) || (0x76 <= op && op <= 0x7C) || op == 0x20 || op == 0x30
        || op == 0x31 || op == 0x42 || op == 0x50 {
        1
    } else {
        0
    }
}

fn read_operands(code: &[u8], p: usize, n: usize, ops: &mut Vec<(u8, u64)>)
    requires
        p + 9 * n <= code@.len(),
    ensures
        final(ops)@ == old(ops)@ + operands_at(code@, p as int, n as nat),
{
    let ghost o0 = ops@;
    let mut k: usize = 0;
    let mut q: usize = p;
    let clen = code.len();
    proof {
        assert(operands_at(code@, p as int, 0) =~= Seq::<(u8, u64)>::empty());
        assert(ops@ =~= o0 + operands_at(code@, p as int, 0));
    }
    while k < n
        invariant
            k <= n,
            q == p + 9 * k,
            clen == code@.len(),
            p + 9 * n <= code@.len(),
            ops@ == o0 + operands_at(code@, p as int, k as nat),
        decreases n - k,
    {
        let mode = code[q];
        let mut off = q + 1;
        let v = read_u64_le(code, &mut off);
        ops.push((mode, v));
        k = k + 1;
        proof {
            assert(operands_at(code@, p as int, k as nat) =~= operands_at(code@, p as int, (k - 1) as nat).push(
                operand_at(code@, q as int),
            ));
            assert(ops@ =~= o0 + operands_at(code@, p as int, k as nat));
        }
        q = q + 9;
    }
}

/// The instruction at `pc`, when it lies entirely within the code.
pub fn fetch_exec(code: &[u8], pc: usize) -> (r: Option<Fetched>)
    ensures
        match fetch(code@, pc as int) {
            None => r is None,
            Some(f) => r matches Some(x) && fetched_view(x) == f,
        },
{
    let len = code.len();
    if pc >= len {
        return None;
    }
    let op = code[pc];
    let mut ops: Vec<(u8, u64)> = Vec::new();
    if op == 0x60 {
        if len - pc < 21 {
            return None;
        }
        let mut off = pc + 19;
        let argc = read_u16_le(code, &mut off) as usize;
        proof {
            assert(argc == le16(code@, pc + 19));
        }
        if argc > (len - pc - 21) / 9 {
            proof {
                assert(pc + 21 + 9 * argc > len) by (nonlinear_arith)
                    requires
                        argc > (len - pc - 21) / 9,
                        pc + 21 <= len,
                ;
            }
            return None;
        }
        proof {
            assert(pc + 21 + 9 * argc <= len) by (nonlinear_arith)
                requires
                    argc <= (len - pc - 21) / 9,
                    pc + 21 <= len,
            ;
        }
        read_operands(code, pc + 1, 2, &mut ops);
        read_operands(code, pc + 21, argc, &mut ops);
        proof {
            assert(ops@ =~= operands_at(code@, pc + 1, 2) + operands_at(code@, pc + 21, argc as nat));
        }
        Some(Fetched { opcode: op, ops, next: pc + 21 + 9 * argc })
    } else {
        let n = operand_count_exec(op);
        if len - pc - 1 < 9 * n {
            return None;
        }
        read_operands(code, pc + 1, n, &mut ops);
        proof {
            assert(ops@ =~= operands_at(code@, pc + 1, n as nat));
        }
        Some(Fetched { opcode: op, ops, next: pc + 1 + 9 * n })
    }
}

} // verus!

verus! {

/// What an executed instruction leaves to do (see `SOutcome`).
pub enum Outcome {
    Next(usize),
    Halt,
    Fault(String),
    Float { op: u8, a: u64, b: u64, dest: u16, next: usize },
    Compare { a: u64, b: u64, next: usize },
    Print { to_err: bool, bytes: Vec<u8>, next: usize },
    ReadIn { dest: u64, next: usize },
    ReadSys { buf: u64, cnt: u64, next: usize },
    Mni { module: String, function: String, args: Vec<String>, next: usize },
}

pub open spec fn outcome_view(o: Outcome) -> SOutcome {
    match o {
        Outcome::Next(n) => SOutcome::Next(n as nat),
        Outcome::Halt => SOutcome::Halt,
        Outcome::Fault(m) => SOutcome::Fault(m@),
        Outcome::Float { op, a, b, dest, next } => SOutcome::Float { op, a, b, dest, next: next as nat },
        Outcome::Compare { a, b, next } => SOutcome::Compare { a, b, next: next as nat },
        Outcome::Print { to_err, bytes, next } => SOutcome::Print { to_err, bytes: bytes@, next: next as nat },
        Outcome::ReadIn { dest, next } => SOutcome::ReadIn { dest, next: next as nat },
        Outcome::ReadSys { buf, cnt, next } => SOutcome::ReadSys { buf, cnt, next: next as nat },
        Outcome::Mni { module, function, args, next } => SOutcome::Mni {
            module: module@,
            function: function@,
            args: strings_view(args@),
            next: next as nat,
        },
    }
}

pub(crate) fn reg_or0_exec(name: &str) -> (r: u16)
    ensures
        r == reg_or0(name@),
{
    let n = str_chars(name);
    match reg_id(n.as_slice()) {
        Some(i) => i,
        None => 0,
    }
}

fn reg_name_or_exec(id: u16) -> (r: Vec<char>)
    ensures
        r@ == reg_name_or(id),
{
    match reg_name(id) {
        Some(n) => n,
        None => {
            let mut m: Vec<char> = Vec::new();
            append_str(&mut m, "REG");
            let d = dec_chars(id as u64);
            append_chars(&mut m, d.as_slice());
            m
        },
    }
}

fn mni_arg_exec(mem: &Vec<u8>, mode: u8, val: u64) -> (r: String)
    ensures
        r@ == mni_arg(mem@, mode, val),
{
    if mode == 1 {
        let n = reg_name_or_exec(val as u16);
        chars_to_string(n.as_slice())
    } else if mode == 3 {
        match c_string_exec(mem, val) {
            Some(t) => t,
            None => {
                let mut m: Vec<char> = Vec::new();
                append_str(&mut m, "$0x");
                let h = hex_upper_chars(val);
                append_chars(&mut m, h.as_slice());
                chars_to_string(m.as_slice())
            },
        }
    } else if mode == 4 {
        let mut m: Vec<char> = Vec::new();
        append_str(&mut m, "$");
        let n = reg_name_or_exec(val as u16);
        append_chars(&mut m, n.as_slice());
        chars_to_string(m.as_slice())
    } else {
        let d = dec_chars(val);
        chars_to_string(d.as_slice())
    }
}

fn mni_name_exec(mem: &Vec<u8>, mode: u8, val: u64) -> (r: Option<String>)
    ensures
        match mni_name(mem@, mode, val) {
            Some(t) => r matches Some(x) && x@ == t,
            None => r is None,
        },
{
    if mode == 3 {
        c_string_exec(mem, val)
    } else if mode == 1 || mode == 0 || mode == 4 {
        Some(mni_arg_exec(mem, mode, val))
    } else {
        None
    }
}

fn fault_exec(s: &mut State, msg: Vec<char>) -> (r: Outcome)
    ensures
        (state_view(*final(s)), outcome_view(r)) == fault(state_view(*old(s)), msg@),
{
    let m = s.push_error(&msg);
    Outcome::Fault(m)
}

fn target_msg(head: &str, note: &str, rip: u64, target: u64, len: usize) -> (r: Vec<char>)
    ensures
        r@ == head@ + at_pc(rip) + note@ + hex_upper(target as nat) + ", code size "@ + dec(len as nat),
{
    let mut m: Vec<char> = Vec::new();
    append_str(&mut m, head);
    at_pc_exec(&mut m, rip);
    append_str(&mut m, note);
    let h = hex_upper_chars(target);
    append_chars(&mut m, h.as_slice());
    append_str(&mut m, ", code size ");
    let d = dec_chars(len as u64);
    append_chars(&mut m, d.as_slice());
    m
}

fn jump_error_exec(rip: u64, target: u64, len: usize) -> (r: Vec<char>)
    ensures
        r@ == jump_error(rip, target, len as nat),
{
    target_msg("error[EVM004]: invalid jump target", "\n   = note: jump target 0x", rip, target, len)
}

fn call_error_exec(rip: u64, target: u64, len: usize) -> (r: Vec<char>)
    ensures
        r@ == call_error(rip, target, len as nat),
{
    target_msg("error[EVM003]: invalid call target", "\n   = note: call target 0x", rip, target, len)
}

fn ret_error_exec(rip: u64, target: u64, len: usize) -> (r: Vec<char>)
    ensures
        r@ == ret_error(rip, target, len as nat),
{
    let mut m = target_msg(
        "error[EVM002]: return address outside code section",
        "\n   = note: return target 0x",
        rip,
        target,
        len,
    );
    append_str(&mut m, "\n   = help: did you POP the return address by accident? (stack imbalance)");
    m
}

fn jump_taken_exec(op: u8, f: (bool, bool, bool, bool)) -> (r: bool)
    ensures
        r == jump_taken(op, f),
{
    let (zf, sf, cf, of) = f;
    if op == 0x10 {
        true
    } else if op == 0x12 || op == 0x76 {
        zf
    } else if op == 0x13 || op == 0x77 {
        !zf
    } else if op == 0x14 {
        (sf != of) && !zf
    } else if op == 0x15 {
        zf || (sf != of)
    } else if op == 0x16 {
        !zf && !(sf != of)
    } else if op == 0x17 {
        !(sf != of)
    } else if op == 0x78 {
        sf
    } else if op == 0x79 {
        zf || sf
    } else if op == 0x7A {
        cf
    } else if op == 0x7B {
        zf || cf
    } else {
        of
    }
}

fn signed_neg(x: u64) -> (r: bool)
    ensures
        r == (signed(x) < 0),
{
    x >= 0x8000_0000_0000_0000
}

fn signed_pos(x: u64) -> (r: bool)
    ensures
        r == (signed(x) > 0),
{
    x > 0 && x < 0x8000_0000_0000_0000
}

pub fn add_flags_exec(a: u64, b: u64, r: u64) -> (f: (bool, bool, bool, bool))
    ensures
        f == add_flags(a, b, r),
{
    (
        r == 0,
        signed_neg(r),
        r < a,
        (signed_pos(a) && signed_pos(b) && signed_neg(r)) || (signed_neg(a) && signed_neg(b) && signed_pos(r)),
    )
}

pub fn sub_flags_exec(a: u64, b: u64, r: u64) -> (f: (bool, bool, bool, bool))
    ensures
        f == sub_flags(a, b, r),
{
    (
        r == 0,
        signed_neg(r),
        a < b,
        (!signed_neg(a) && signed_neg(b) && signed_neg(r)) || (signed_neg(a) && !signed_neg(b) && !signed_neg(r)),
    )
}

fn wadd_exec(a: u64, b: u64) -> (r: u64)
    ensures
        r == wadd(a, b),
{
    let r = a.wrapping_add(b);
    assert(r == wadd(a, b)) by {
        assert(a + b < 0x1_0000_0000_0000_0000 ==> (a + b) % 0x1_0000_0000_0000_0000 == a + b);
        assert(a + b >= 0x1_0000_0000_0000_0000 ==> (a + b) % 0x1_0000_0000_0000_0000 == a + b
            - 0x1_0000_0000_0000_0000);
    }
    r
}

fn wsub_exec(a: u64, b: u64) -> (r: u64)
    ensures
        r == wsub(a, b),
{
    let r = a.wrapping_sub(b);
    assert(r == wsub(a, b)) by {
        assert(a >= b ==> (a - b + 0x1_0000_0000_0000_0000) % 0x1_0000_0000_0000_0000 == a - b);
        assert(a < b ==> (a - b + 0x1_0000_0000_0000_0000) % 0x1_0000_0000_0000_0000 == a - b
            + 0x1_0000_0000_0000_0000);
    }
    r
}

} // verus!

verus! {

fn exec_mni_exec(s: &mut State, ops: &Vec<(u8, u64)>, next: usize) -> (r: Outcome)
    requires
        ops@.len() >= 2,
    ensures
        (state_view(*final(s)), outcome_view(r)) == exec_mni(state_view(*old(s)), ops@, next as nat),
{
    let m = mni_name_exec(&s.memory, ops[0].0, ops[0].1);
    let f = mni_name_exec(&s.memory, ops[1].0, ops[1].1);
    match (m, f) {
        (Some(module), Some(function)) => {
            let mut args: Vec<String> = Vec::new();
            let mut k: usize = 2;
            let ghost target = mni_args(s.memory@, ops@.skip(2));
            while k < ops.len()
                invariant
                    2 <= k <= ops@.len(),
                    target == mni_args(s.memory@, ops@.skip(2)),
                    strings_view(args@) == target.take(k - 2),
                decreases ops.len() - k,
            {
                let a = mni_arg_exec(&s.memory, ops[k].0, ops[k].1);
                let ghost before = strings_view(args@);
                let ghost av = a@;
                args.push(a);
                proof {
                    assert(strings_view(args@) =~= before.push(av));
                    assert(ops@.skip(2)[k - 2] == ops@[k as int]);
                    assert(before.push(av) =~= target.take(k - 1));
                }
                k = k + 1;
            }
            proof {
                assert(target.take(k - 2) =~= target);
            }
            Outcome::Mni { module, function, args, next }
        },
        _ => {
            let mut msg: Vec<char> = Vec::new();
            append_str(&mut msg, "MNI: module or function decoding failed");
            fault_exec(s, msg)
        },
    }
}

fn exec_syscall_exec(s: &mut State, next: usize) -> (r: Outcome)
    ensures
        (state_view(*final(s)), outcome_view(r)) == exec_syscall(state_view(*old(s)), next as nat),
{
    let rax = reg_or0_exec("RAX");
    let num = s.reg(rax);
    let a1 = s.reg(reg_or0_exec("RDI"));
    let a2 = s.reg(reg_or0_exec("RSI"));
    let a3 = s.reg(reg_or0_exec("RDX"));
    if num == 60 {
        Outcome::Halt
    } else if num == 1 {
        let len = s.memory.len() as u64;
        let end: u64 = if a3 < len && a2 < len - a3 { a2 + a3 } else { len };
        let bytes: Vec<u8> = if a2 < end {
            crate::le::copy_bytes(s.memory.as_slice(), a2 as usize, end as usize)
        } else {
            Vec::new()
        };
        proof {
            if !(a2 < end) {
                assert(bytes@ =~= Seq::<u8>::empty());
            }
        }
        s.set_reg(rax, bytes.len() as u64);
        if a1 == 1 || a1 == 2 {
            Outcome::Print { to_err: a1 == 2, bytes, next }
        } else {
            Outcome::Next(next)
        }
    } else if num == 0 && a1 == 0 {
        Outcome::ReadSys { buf: a2, cnt: a3, next }
    } else {
        s.set_reg(rax, 0);
        Outcome::Next(next)
    }
}

fn port_warning_exec(what: &str, port: u64, rip: u64) -> (r: Vec<char>)
    ensures
        r@ == port_warning(what@, port, rip),
{
    let mut m: Vec<char> = Vec::new();
    append_str(&mut m, "warning: unknown ");
    append_str(&mut m, what);
    append_str(&mut m, " port ");
    let d = dec_chars(port);
    append_chars(&mut m, d.as_slice());
    append_str(&mut m, " (defaulting to stdout)");
    at_pc_exec(&mut m, rip);
    m
}

fn exec_out_exec(s: &mut State, ops: &Vec<(u8, u64)>, next: usize) -> (r: Outcome)
    requires
        ops@.len() >= 2,
    ensures
        (state_view(*final(s)), outcome_view(r)) == exec_out(state_view(*old(s)), ops@, next as nat),
{
    let ghost s0 = state_view(*s);
    let (pm, pv) = ops[0];
    let (vm, vv) = ops[1];
    let port = if pm == 1 {
        s.reg(pv as u16)
    } else if pm == 3 {
        mem_read64_exec(&s.memory, pv)
    } else if pm == 4 {
        let a = s.reg(pv as u16);
        mem_read64_exec(&s.memory, a)
    } else {
        pv
    };
    let rip = s.rip;
    if port != 1 && port != 2 {
        let w = port_warning_exec("OUT", port, rip);
        s.push_warning(w);
    }
    let mut text: Vec<char> = Vec::new();
    if vm == 3 || vm == 4 {
        let a = if vm == 3 { vv } else { s.reg(vv as u16) };
        match c_string_exec(&s.memory, a) {
            Some(t) => {
                let tc = str_chars(t.as_str());
                append_chars(&mut text, tc.as_slice());
            },
            None => {
                let mut w: Vec<char> = Vec::new();
                append_str(&mut w, "warning: OUT read invalid string address $0x");
                let h = hex_upper_chars(a);
                append_chars(&mut w, h.as_slice());
                at_pc_exec(&mut w, rip);
                s.push_warning(w);
                let d = dec_chars(a);
                append_chars(&mut text, d.as_slice());
            },
        }
    } else if vm == 1 {
        let d = dec_chars(s.reg(vv as u16));
        append_chars(&mut text, d.as_slice());
    } else {
        let d = dec_chars(vv);
        append_chars(&mut text, d.as_slice());
    }
    append_str(&mut text, "\n");
    let bytes = utf8_bytes(text.as_slice());
    Outcome::Print { to_err: port == 2, bytes, next }
}

fn exec_cout_exec(s: &mut State, ops: &Vec<(u8, u64)>, next: usize) -> (r: Outcome)
    requires
        ops@.len() >= 2,
    ensures
        (state_view(*final(s)), outcome_view(r)) == exec_cout(state_view(*old(s)), ops@, next as nat),
{
    let rip = s.rip;
    let p = operand_value_exec(s, ops[0].0, ops[0].1);
    let v = operand_value_exec(s, ops[1].0, ops[1].1);
    if p != 1 && p != 2 {
        let w = port_warning_exec("COUT", p, rip);
        s.push_warning(w);
    }
    let len = s.memory.len() as u64;
    let ch: u8 = if v < len { s.memory[v as usize] } else { v as u8 };
    if v >= len {
        let mut w: Vec<char> = Vec::new();
        append_str(&mut w, "warning: COUT read out-of-bounds at 0x");
        let h = hex_upper_chars(v);
        append_chars(&mut w, h.as_slice());
        at_pc_exec(&mut w, rip);
        s.push_warning(w);
    }
    let mut bytes: Vec<u8> = Vec::new();
    bytes.push(ch);
    proof {
        assert(bytes@ =~= seq![ch]);
    }
    Outcome::Print { to_err: p == 2, bytes, next }
}

} // verus!

verus! {

pub open spec fn fetched_wf(f: SFetched) -> bool {
    if f.opcode == 0x60 {
        f.ops.len() >= 2
    } else {
        f.ops.len() == operand_count(f.opcode)
    }
}

/// A fetched instruction ends after it starts and within the code.
pub proof fn lemma_fetch_next(code: Seq<u8>, pc: int)
    ensures
        fetch(code, pc) matches Some(f) ==> pc < f.next <= code.len(),
{
}

proof fn lemma_fetch_wf(code: Seq<u8>, pc: int)
    ensures
        fetch(code, pc) matches Some(f) ==> fetched_wf(f) && f.next <= code.len(),
{
}

/// Executes a fetched instruction found at `pc`, in a code section of
/// `code_len` bytes.
pub fn execute(s: &mut State, code_len: usize, f: &Fetched, pc: usize) -> (r: Outcome)
    requires
        fetched_wf(fetched_view(*f)),
    ensures
        (state_view(*final(s)), outcome_view(r)) == exec_inst(state_view(*old(s)), code_len as nat, fetched_view(*f), pc as nat),
{
    reveal(exec_inst);
    s.rip = pc as u64;
    let op = f.opcode;
    let ops = &f.ops;
    let next = f.next;
    if op == 0x00 {
        Outcome::Next(next)
    } else if op == 0xFF {
        Outcome::Halt
    } else if op == 0x01 || op == 0x70 {
        let v = operand_value_exec(s, ops[1].0, ops[1].1);
        set_operand_exec(s, ops[0].0, ops[0].1, v);
        Outcome::Next(next)
    } else if op == 0x02 || op == 0x03 {
        let v = operand_value_exec(s, ops[1].0, ops[1].1);
        if ops[0].0 == 1 {
            let id = ops[0].1 as u16;
            let a = s.reg(id);
            let r = if op == 0x02 { wadd_exec(a, v) } else { wsub_exec(a, v) };
            s.set_reg(id, r);
            s.flags = if op == 0x02 { add_flags_exec(a, v, r) } else { sub_flags_exec(a, v, r) };
        }
        Outcome::Next(next)
    } else if 0x71 <= op && op <= 0x74 {
        let v = operand_value_exec(s, ops[1].0, ops[1].1);
        if ops[0].0 == 1 {
            let id = ops[0].1 as u16;
            Outcome::Float { op, a: s.reg(id), b: v, dest: id, next }
        } else {
            Outcome::Next(next)
        }
    } else if op == 0x11 || op == 0x75 {
        let a = operand_value_exec(s, ops[0].0, ops[0].1);
        let b = operand_value_exec(s, ops[1].0, ops[1].1);
        if op == 0x11 {
            s.flags = sub_flags_exec(a, b, wsub_exec(a, b));
            Outcome::Next(next)
        } else {
            Outcome::Compare { a, b, next }
        }
    } else if op == 0x10 || (0x12 <= op && op <= 0x17) || (0x76 <= op && op <= 0x7C) {
        let rip = s.rip;
        let t = operand_value_exec(s, ops[0].0, ops[0].1);
        if jump_taken_exec(op, s.flags) {
            if t >= code_len as u64 {
                let m = jump_error_exec(rip, t, code_len);
                fault_exec(s, m)
            } else {
                Outcome::Next(t as usize)
            }
        } else {
            Outcome::Next(next)
        }
    } else if op == 0x20 {
        let rip = s.rip;
        let t = operand_value_exec(s, ops[0].0, ops[0].1);
        if t >= code_len as u64 {
            let m = call_error_exec(rip, t, code_len);
            fault_exec(s, m)
        } else {
            s.stack.push(next as u64);
            Outcome::Next(t as usize)
        }
    } else if op == 0x21 {
        if s.stack.len() > 0 {
            let ret = s.stack.pop().unwrap();
            if ret >= code_len as u64 {
                let m = ret_error_exec(s.rip, ret, code_len);
                fault_exec(s, m)
            } else {
                Outcome::Next(ret as usize)
            }
        } else {
            Outcome::Next(next)
        }
    } else if op == 0x30 {
        let v = operand_value_exec(s, ops[0].0, ops[0].1);
        s.stack.push(v);
        Outcome::Next(next)
    } else if op == 0x31 {
        if ops[0].0 == 1 {
            if s.stack.len() > 0 {
                let v = s.stack.pop().unwrap();
                s.set_reg(ops[0].1 as u16, v);
            } else {
                let mut w: Vec<char> = Vec::new();
                append_str(&mut w, "warning: POP on empty stack");
                at_pc_exec(&mut w, s.rip);
                s.push_warning(w);
            }
        }
        Outcome::Next(next)
    } else if op == 0x50 {
        let size = operand_value_exec(s, ops[0].0, ops[0].1);
        let rbp = reg_or0_exec("RBP");
        let rsp = reg_or0_exec("RSP");
        let cur_rbp = s.reg(rbp);
        s.stack.push(cur_rbp);
        let cur_rsp = match s.regs.get(&rsp) {
            Some(v) => *v,
            None => s.stack.len() as u64,
        };
        s.set_reg(rbp, cur_rsp);
        s.set_reg(rsp, wadd_exec(cur_rsp, size));
        Outcome::Next(next)
    } else if op == 0x51 {
        let rbp = reg_or0_exec("RBP");
        let rsp = reg_or0_exec("RSP");
        let top = s.reg(rbp);
        s.set_reg(rsp, top);
        if s.stack.len() > 0 {
            let v = s.stack.pop().unwrap();
            s.set_reg(rbp, v);
        }
        Outcome::Next(next)
    } else if op == 0x60 {
        exec_mni_exec(s, ops, next)
    } else if op == 0x90 {
        exec_syscall_exec(s, next)
    } else if op == 0x40 {
        exec_out_exec(s, ops, next)
    } else if op == 0x41 {
        exec_cout_exec(s, ops, next)
    } else if op == 0x42 {
        let d = operand_value_exec(s, ops[0].0, ops[0].1);
        Outcome::ReadIn { dest: d, next }
    } else {
        Outcome::Next(next)
    }
}

/// One step at `pc`: `None` when no complete instruction starts there.
pub fn step_exec(s: &mut State, code: &[u8], pc: usize) -> (r: Option<Outcome>)
    ensures
        match step(state_view(*old(s)), code@, pc as nat) {
            None => r is None && *final(s) == *old(s),
            Some((s2, o)) => r matches Some(x) && state_view(*final(s)) == s2 && outcome_view(x) == o,
        },
{
    proof {
        lemma_fetch_wf(code@, pc as int);
    }
    match fetch_exec(code, pc) {
        None => None,
        Some(f) => Some(execute(s, code.len(), &f, pc)),
    }
}

} // verus!

verus! {

/// How an `f64` result came out.
pub enum FloatClass {
    Finite,
    NaN,
    Infinite,
}

/// How two `f64` values compare.
pub enum FpOrder {
    Unordered,
    Equal,
    Less,
    Greater,
}

/// The result of `f64` arithmetic stored in register `dest`; a NaN or
/// infinite result also warns.
pub open spec fn float_done(s: SState, dest: u16, bits: u64, class: FloatClass) -> SState {
    let s1 = match class {
        FloatClass::Finite => s,
        FloatClass::NaN => warn(s, "warning: FP result is NaN"@ + at_pc(s.rip)),
        FloatClass::Infinite => warn(s, "warning: FP result is infinite"@ + at_pc(s.rip)),
    };
    SState { regs: s1.regs.insert(dest, bits), ..s1 }
}

/// Flags after an `f64` comparison: unordered sets the last flag, equal the
/// zero flag, less the sign flag, greater the carry flag.
pub open spec fn compare_flags(o: FpOrder) -> (bool, bool, bool, bool) {
    match o {
        FpOrder::Unordered => (false, false, false, true),
        FpOrder::Equal => (true, false, false, false),
        FpOrder::Less => (false, true, false, false),
        FpOrder::Greater => (false, false, true, false),
    }
}

/// After `FCMP` the float jumps follow the comparison's outcome: `FJE`
/// on equal, `FJNE` on anything else, `FJLT` and `FJGT` on less and
/// greater, `FJLE` and `FJGE` on those or equal, `FJUO` on unordered.
pub proof fn lemma_float_jumps_after_compare(o: FpOrder)
    ensures
        ({
            let f = compare_flags(o);
            &&& jump_taken(0x76, f) == (o is Equal)
            &&& jump_taken(0x77, f) == !(o is Equal)
            &&& jump_taken(0x78, f) == (o is Less)
            &&& jump_taken(0x79, f) == (o is Less || o is Equal)
            &&& jump_taken(0x7A, f) == (o is Greater)
            &&& jump_taken(0x7B, f) == (o is Greater || o is Equal)
            &&& jump_taken(0x7C, f) == (o is Unordered)
        }),
{
}

/// `bytes` stored at `dest`, memory grown with zeros to hold them.
pub open spec fn store_bytes(mem: Seq<u8>, dest: nat, bytes: Seq<u8>) -> Seq<u8> {
    let end = dest + bytes.len();
    let m1 = if end > mem.len() { mem + zeros((end - mem.len()) as nat) } else { mem };
    m1.take(dest as int) + bytes + m1.skip(end as int)
}

/// A line read by `IN`: stored zero-terminated at `dest`; growing memory warns.
pub open spec fn in_done(s: SState, dest: u64, line: Seq<u8>) -> SState {
    let bytes = line.push(0u8);
    let end = dest + bytes.len();
    let s1 = warn_if(
        s,
        end > s.memory.len(),
        "warning: IN extended memory from "@ + dec(s.memory.len()) + " to "@ + dec(end as nat) + at_pc(s.rip),
    );
    SState { memory: store_bytes(s.memory, dest as nat, bytes), ..s1 }
}

/// A line read by the read system call: at most `cnt` bytes of it stored
/// zero-terminated at `buf`, their count in `RAX`.
pub open spec fn read_done(s: SState, buf: u64, cnt: u64, line: Seq<u8>) -> SState {
    let b = if line.len() > cnt { line.take(cnt as int) } else { line };
    SState {
        memory: store_bytes(s.memory, buf as nat, b.push(0u8)),
        regs: s.regs.insert(reg_or0("RAX"@), b.len() as u64),
        ..s
    }
}

impl State {
    /// Stores the result of `f64` arithmetic.
    pub fn finish_float(&mut self, dest: u16, bits: u64, class: FloatClass)
        ensures
            state_view(*final(self)) == float_done(state_view(*old(self)), dest, bits, class),
    {
        match class {
            FloatClass::Finite => {},
            FloatClass::NaN => {
                let mut w: Vec<char> = Vec::new();
                append_str(&mut w, "warning: FP result is NaN");
                at_pc_exec(&mut w, self.rip);
                self.push_warning(w);
            },
            FloatClass::Infinite => {
                let mut w: Vec<char> = Vec::new();
                append_str(&mut w, "warning: FP result is infinite");
                at_pc_exec(&mut w, self.rip);
                self.push_warning(w);
            },
        }
        self.set_reg(dest, bits);
    }

    /// Sets the flags from an `f64` comparison.
    pub fn finish_compare(&mut self, o: FpOrder)
        ensures
            state_view(*final(self)) == (SState { flags: compare_flags(o), ..state_view(*old(self)) }),
    {
        self.flags = match o {
            FpOrder::Unordered => (false, false, false, true),
            FpOrder::Equal => (true, false, false, false),
            FpOrder::Less => (false, true, false, false),
            FpOrder::Greater => (false, false, true, false),
        };
    }

    pub(crate) fn store(&mut self, dest: usize, bytes: &Vec<u8>)
        requires
            dest + bytes@.len() <= usize::MAX,
        ensures
            state_view(*final(self)) == (SState {
                memory: store_bytes(state_view(*old(self)).memory, dest as nat, bytes@),
                ..state_view(*old(self))
            }),
    {
        let end = dest + bytes.len();
        if end > self.memory.len() {
            let k = end - self.memory.len();
            grow_zeros(&mut self.memory, k);
        }
        overwrite(&mut self.memory, dest, bytes);
    }

    /// Stores a line read by `IN`.
    pub fn finish_in(&mut self, dest: u64, line: &[u8])
        requires
            dest + line@.len() + 1 <= usize::MAX,
        ensures
            state_view(*final(self)) == in_done(state_view(*old(self)), dest, line@),
    {
        let mut bytes = crate::le::copy_bytes(line, 0, line.len());
        bytes.push(0u8);
        proof {
            assert(bytes@ =~= line@.push(0u8));
        }
        let end = dest + bytes.len() as u64;
        if end > self.memory.len() as u64 {
            let mut w: Vec<char> = Vec::new();
            append_str(&mut w, "warning: IN extended memory from ");
            let d = dec_chars(self.memory.len() as u64);
            append_chars(&mut w, d.as_slice());
            append_str(&mut w, " to ");
            let d2 = dec_chars(end);
            append_chars(&mut w, d2.as_slice());
            at_pc_exec(&mut w, self.rip);
            self.push_warning(w);
        }
        self.store(dest as usize, &bytes);
    }

    /// Stores a line read by the read system call.
    pub fn finish_read(&mut self, buf: u64, cnt: u64, line: &[u8])
        requires
            buf + (if line@.len() > cnt { cnt as int } else { line@.len() as int }) + 1 <= usize::MAX,
        ensures
            state_view(*final(self)) == read_done(state_view(*old(self)), buf, cnt, line@),
    {
        let n: usize = if line.len() as u64 > cnt { cnt as usize } else { line.len() };
        let mut bytes = crate::le::copy_bytes(line, 0, n);
        let b_len = bytes.len() as u64;
        bytes.push(0u8);
        proof {
            let b = if line@.len() > cnt { line@.take(cnt as int) } else { line@ };
            assert(bytes@ =~= b.push(0u8));
        }
        self.store(buf as usize, &bytes);
        let rax = reg_or0_exec("RAX");
        self.set_reg(rax, b_len);
    }
}

} // verus!

verus! {

// ------------------------------------------------------------ runs with buffered I/O

/// Standard input as bytes with a read position, and what was written to
/// standard output and standard error.
pub struct SIo {
    pub input: Seq<u8>,
    pub pos: nat,
    pub out: Seq<u8>,
    pub err: Seq<u8>,
}

/// End (exclusive) of the line that starts at `pos`: just past its `\n`, or
/// the end of input.
pub open spec fn line_end(input: Seq<u8>, pos: nat) -> nat
    decreases input.len() - pos,
{
    if pos >= input.len() {
        input.len()
    } else if input[pos as int] == 10 {
        pos + 1
    } else {
        line_end(input, pos + 1)
    }
}

/// What a line read gives: the bytes up to and including the newline, or
/// nothing when they are not UTF-8 (they are consumed all the same).
pub open spec fn line_at(input: Seq<u8>, pos: nat) -> Seq<u8> {
    let raw = if pos <= input.len() { input.subrange(pos as int, line_end(input, pos) as int) } else { seq![] };
    if valid_utf8(raw) {
        raw
    } else {
        seq![]
    }
}

/// Why a run stopped.
pub enum SStop {
    /// The program halted or ran past the end of its code.
    End,
    /// The program failed with this error.
    Fault(Seq<char>),
    /// The host must do this (floating point or a native module) before the run goes on.
    Host(SOutcome),
    /// A store the VM cannot address; the run cannot go on.
    Trap,
    /// No complete instruction at the current offset.
    Truncated,
    /// The step budget ran out.
    Fuel,
}

/// One instruction with buffered I/O: the state and buffers after it, the
/// offset it leads to, and why the run stops there, if it does.
#[verifier::opaque]
pub open spec fn one(s: SState, code: Seq<u8>, pc: nat, io: SIo) -> (SState, SIo, nat, Option<SStop>) {
    match step(s, code, pc) {
        None => (s, io, pc, Some(SStop::Truncated)),
        Some((s2, o)) => match o {
            SOutcome::Next(n) => (s2, io, n, None),
            SOutcome::Halt => (s2, io, pc, Some(SStop::End)),
            SOutcome::Fault(m) => (s2, io, pc, Some(SStop::Fault(m))),
            SOutcome::Print { to_err, bytes, next } => (
                s2,
                if to_err { SIo { err: io.err + bytes, ..io } } else { SIo { out: io.out + bytes, ..io } },
                next,
                None,
            ),
            SOutcome::ReadIn { dest, next } => {
                let line = line_at(io.input, io.pos);
                if dest + line.len() + 1 > usize::MAX {
                    (s2, io, pc, Some(SStop::Trap))
                } else {
                    (in_done(s2, dest, line), SIo { pos: line_end(io.input, io.pos), ..io }, next, None)
                }
            },
            SOutcome::ReadSys { buf, cnt, next } => {
                let line = line_at(io.input, io.pos);
                let n = if line.len() > cnt { cnt as int } else { line.len() as int };
                if buf + n + 1 > usize::MAX {
                    (s2, io, pc, Some(SStop::Trap))
                } else {
                    (read_done(s2, buf, cnt, line), SIo { pos: line_end(io.input, io.pos), ..io }, next, None)
                }
            },
            _ => (s2, io, pc, Some(SStop::Host(o))),
        },
    }
}

/// Running from `pc` for at most `fuel` instructions with buffered I/O:
/// the state, the I/O buffers, the offset reached and why the run stopped.
pub open spec fn run(s: SState, code: Seq<u8>, pc: nat, io: SIo, fuel: nat) -> (SState, SIo, nat, SStop)
    decreases fuel,
{
    if fuel == 0 {
        (s, io, pc, SStop::Fuel)
    } else if pc >= code.len() {
        (s, io, pc, SStop::End)
    } else {
        let (s2, io2, pc2, stop) = one(s, code, pc, io);
        match stop {
            Some(st) => (s2, io2, pc2, st),
            None => run(s2, code, pc2, io2, (fuel - 1) as nat),
        }
    }
}

} // verus!

verus! {

/// Buffered standard input (with its read position), output and error.
pub struct Io {
    pub input: Vec<u8>,
    pub pos: usize,
    pub out: Vec<u8>,
    pub err: Vec<u8>,
}

pub open spec fn io_view(io: Io) -> SIo {
    SIo { input: io.input@, pos: io.pos as nat, out: io.out@, err: io.err@ }
}

/// Why a run stopped (see `SStop`).
pub enum Stop {
    End,
    Fault(String),
    Host(Outcome),
    Trap,
    Truncated,
    Fuel,
}

pub open spec fn stop_view(s: Stop) -> SStop {
    match s {
        Stop::End => SStop::End,
        Stop::Fault(m) => SStop::Fault(m@),
        Stop::Host(o) => SStop::Host(outcome_view(o)),
        Stop::Trap => SStop::Trap,
        Stop::Truncated => SStop::Truncated,
        Stop::Fuel => SStop::Fuel,
    }
}

impl Io {
    /// Buffers with the given input, nothing read or written yet.
    pub fn new(input: Vec<u8>) -> (r: Io)
        ensures
            io_view(r) == (SIo { input: input@, pos: 0, out: seq![], err: seq![] }),
    {
        let r = Io { input, pos: 0, out: Vec::new(), err: Vec::new() };
        assert(io_view(r).out =~= Seq::<u8>::empty());
        assert(io_view(r).err =~= Seq::<u8>::empty());
        r
    }
}

fn line_end_exec(input: &Vec<u8>, pos: usize) -> (r: usize)
    requires
        pos <= input@.len(),
    ensures
        r as nat == line_end(input@, pos as nat),
        pos <= r <= input@.len(),
{
    let mut k = pos;
    while k < input.len() && input[k] != 10
        invariant
            pos <= k <= input@.len(),
            line_end(input@, k as nat) == line_end(input@, pos as nat),
        decreases input.len() - k,
    {
        k = k + 1;
    }
    if k < input.len() {
        k + 1
    } else {
        k
    }
}

fn line_at_exec(input: &Vec<u8>, pos: usize) -> (r: (Vec<u8>, usize))
    requires
        pos <= input@.len(),
    ensures
        r.0@ == line_at(input@, pos as nat),
        r.1 as nat == line_end(input@, pos as nat),
        r.1 <= input@.len(),
{
    let end = line_end_exec(input, pos);
    let raw = crate::le::copy_bytes(input.as_slice(), pos, end);
    if crate::masi::utf8_string(raw.as_slice()).is_some() {
        (raw, end)
    } else {
        (Vec::new(), end)
    }
}

fn append_bytes_vec(dst: &mut Vec<u8>, b: &Vec<u8>)
    ensures
        final(dst)@ == old(dst)@ + b@,
{
    let ghost d0 = dst@;
    let mut k: usize = 0;
    while k < b.len()
        invariant
            k <= b@.len(),
            dst@ == d0 + b@.take(k as int),
        decreases b.len() - k,
    {
        dst.push(b[k]);
        k = k + 1;
        proof {
            assert(dst@ =~= d0 + b@.take(k as int));
        }
    }
    proof {
        assert(b@.take(k as int) =~= b@);
    }
}

/// One instruction with buffered I/O; `Ok` with the next offset when the run goes on.
fn one_exec(s: &mut State, code: &[u8], pc: usize, io: &mut Io) -> (r: Result<usize, Stop>)
    requires
        old(io).pos <= old(io).input@.len(),
    ensures
        final(io).pos <= final(io).input@.len(),
        ({
            let (s2, io2, pc2, stop) = one(state_view(*old(s)), code@, pc as nat, io_view(*old(io)));
            &&& state_view(*final(s)) == s2
            &&& io_view(*final(io)) == io2
            &&& match stop {
                None => r matches Ok(n) && n as nat == pc2,
                Some(st) => r matches Err(x) && stop_view(x) == st && pc2 == pc,
            }
        }),
{
    reveal(one);
    match step_exec(s, code, pc) {
        None => Err(Stop::Truncated),
        Some(o) => match o {
            Outcome::Next(n) => Ok(n),
            Outcome::Halt => Err(Stop::End),
            Outcome::Fault(m) => Err(Stop::Fault(m)),
            Outcome::Print { to_err, bytes, next } => {
                if to_err {
                    append_bytes_vec(&mut io.err, &bytes);
                } else {
                    append_bytes_vec(&mut io.out, &bytes);
                }
                Ok(next)
            },
            Outcome::ReadIn { dest, next } => {
                let (line, end) = line_at_exec(&io.input, io.pos);
                if dest > (usize::MAX as u64) - 1 || (line.len() as u64) > (usize::MAX as u64) - 1 - dest {
                    return Err(Stop::Trap);
                }
                s.finish_in(dest, line.as_slice());
                io.pos = end;
                Ok(next)
            },
            Outcome::ReadSys { buf, cnt, next } => {
                let (line, end) = line_at_exec(&io.input, io.pos);
                let n: u64 = if line.len() as u64 > cnt { cnt } else { line.len() as u64 };
                if buf > (usize::MAX as u64) - 1 || n > (usize::MAX as u64) - 1 - buf {
                    return Err(Stop::Trap);
                }
                s.finish_read(buf, cnt, line.as_slice());
                io.pos = end;
                Ok(next)
            },
            _ => Err(Stop::Host(o)),
        },
    }
}

/// Runs from `pc` for at most `fuel` instructions, with buffered I/O.
/// Returns the offset reached and why the run stopped.
pub fn run_exec(s: &mut State, code: &[u8], pc: usize, io: &mut Io, fuel: u64) -> (r: (usize, Stop))
    requires
        old(io).pos <= old(io).input@.len(),
    ensures
        (state_view(*final(s)), io_view(*final(io)), r.0 as nat, stop_view(r.1)) == run(
            state_view(*old(s)),
            code@,
            pc as nat,
            io_view(*old(io)),
            fuel as nat,
        ),
{
    let ghost target = run(state_view(*s), code@, pc as nat, io_view(*io), fuel as nat);
    let mut cur = pc;
    let mut left = fuel;
    while left > 0 && cur < code.len()
        invariant
            io.pos <= io.input@.len(),
            target == run(state_view(*old(s)), code@, pc as nat, io_view(*old(io)), fuel as nat),
            run(state_view(*s), code@, cur as nat, io_view(*io), left as nat) == target,
        decreases left,
    {
        let ghost s_before = state_view(*s);
        let ghost io_before = io_view(*io);
        match one_exec(s, code, cur, io) {
            Ok(n) => {
                cur = n;
            },
            Err(st) => {
                return (cur, st);
            },
        }
        left = left - 1;
    }
    if left == 0 {
        (cur, Stop::Fuel)
    } else {
        (cur, Stop::End)
    }
}

} // verus!

verus! {

// ------------------------------------------------------------ laws

/// What a 64-bit store writes, a 64-bit load at the same address reads
/// back (for every address whose word the address space can hold).
pub proof fn lemma_store_then_load(s: SState, a: u64, v: u64)
    requires
        a <= usize::MAX - 8,
    ensures
        mem_read64(mem_write64(s, a, v).memory, a) == v,
{
    let t = mem_write64(s, a, v);
    crate::le::lemma_le_bytes_len(v as nat, 8);
    let len = s.memory.len();
    let mem1 = if len < a + 8 { s.memory + zeros((a + 8 - len) as nat) } else { s.memory };
    assert(t.memory.subrange(a as int, a + 8) =~= le_bytes(v as nat, 8));
    crate::le::lemma_le_roundtrip(v as nat, 8);
    crate::le::lemma_pow256_values();
}

/// A store leaves the bytes outside its eight untouched.
pub proof fn lemma_store_keeps_others(s: SState, a: u64, v: u64, i: int)
    requires
        a <= usize::MAX - 8,
        0 <= i < s.memory.len(),
        i < a || i >= a + 8,
    ensures
        mem_write64(s, a, v).memory[i] == s.memory[i],
{
    crate::le::lemma_le_bytes_len(v as nat, 8);
}

/// Subtracting what was added gives back the register's value.
pub proof fn lemma_add_then_sub(a: u64, b: u64)
    ensures
        wsub(wadd(a, b), b) == a,
{
}

/// Comparing a value with itself sets the zero flag and clears the carry flag.
pub proof fn lemma_cmp_self(a: u64)
    ensures
        sub_flags(a, a, wsub(a, a)).0,
        !sub_flags(a, a, wsub(a, a)).2,
{
}

pub open spec fn fetched(op: u8, ops: Seq<(u8, u64)>, next: nat) -> SFetched {
    SFetched { opcode: op, ops, next }
}

/// `PUSH` then `POP` into a register: the register holds the pushed value
/// and the stack is as before.
pub proof fn lemma_push_then_pop(s: SState, len: nat, pc1: nat, pc2: nat, m: u8, v: u64, id: u16, n1: nat, n2: nat)
    ensures
        ({
            let (s1, o1) = exec_inst(s, len, fetched(0x30, seq![(m, v)], n1), pc1);
            let (s2, o2) = exec_inst(s1, len, fetched(0x31, seq![(1u8, id as u64)], n2), pc2);
            let pushed = operand_value(SState { rip: pc1 as u64, ..s }, m, v).1;
            &&& s2.stack == s1.stack.drop_last()
            &&& s2.stack == operand_value(SState { rip: pc1 as u64, ..s }, m, v).0.stack
            &&& s2.regs == s1.regs.insert(id, pushed)
            &&& o1 == SOutcome::Next(n1)
            &&& o2 == SOutcome::Next(n2)
        }),
{
    reveal(exec_inst);
    let s0 = SState { rip: pc1 as u64, ..s };
    let (sa, val) = operand_value(s0, m, v);
    let (s1, o1) = exec_inst(s, len, fetched(0x30, seq![(m, v)], n1), pc1);
    assert(s1.stack == sa.stack.push(val));
    assert(s1.stack.drop_last() =~= sa.stack);
    assert((id as u64) as u16 == id);
}

/// `CALL` to a target within the code, then `RET` there: execution goes on
/// right after the call, and the stack is as before.
pub proof fn lemma_call_then_ret(s: SState, len: nat, pc1: nat, pc2: nat, t: u64, n1: nat, n2: nat)
    requires
        t < len,
        n1 < len,
        n1 <= u64::MAX,
    ensures
        ({
            let (s1, o1) = exec_inst(s, len, fetched(0x20, seq![(0u8, t)], n1), pc1);
            let (s2, o2) = exec_inst(s1, len, fetched(0x21, seq![], n2), pc2);
            &&& o1 == SOutcome::Next(t as nat)
            &&& o2 == SOutcome::Next(n1)
            &&& s2.stack == s.stack
        }),
{
    reveal(exec_inst);
    let (s1, o1) = exec_inst(s, len, fetched(0x20, seq![(0u8, t)], n1), pc1);
    assert(s1.stack == s.stack.push(n1 as u64));
    assert(s1.stack.drop_last() =~= s.stack);
}

} // verus!
