//! The line-driven debugger: its breakpoints, its commands, and the text
//! it shows (the stop line, registers, a memory dump and a disassembly
//! listing that tolerates a truncated instruction).
use vstd::prelude::*;
use crate::masi::{MASIFile, offset_names, le16};
use crate::vm::{operand_at, operand_count, operand_count_exec};
use crate::disassembler::{map_get, map_get_exec, fmt_operand, fmt_op, dis_name, dis_table, dis_name_exec, ops_text,
    ops_text_exec};
use crate::fmt::{hex_upper, zero_pad, hex_upper_chars, zero_pad_chars, append_chars, append_str};
use crate::text::{str_chars, chars_to_string, eq_chars, eq_str, copy_chars, starts_with, starts_with_str, slice_chars};
use crate::number::{parse_unsigned, parse_u64_radix};
use crate::le::{read_u16_le, read_u64_le};
use crate::vm::{SState, State, state_view, strings_view, reg_val};
use crate::register_map::{RegisterMap, reg_table};
use crate::assoc::pairs_view;
use crate::text::{trim, trim_chars, views, split_ws, split_ws_chars};
use crate::interpreter::{opcode_text, opcode_name, DebuggerControl};

verus! {

// ------------------------------------------------------------ listing

/// One operand (mode byte and 64-bit value) read at `pc`, and the offset
/// where reading stopped: nothing is read at the end of the code, and a
/// mode byte without its whole value is passed over.
pub open spec fn read_pair(code: Seq<u8>, pc: int) -> (Option<(u8, u64)>, int) {
    if pc >= code.len() {
        (None, pc)
    } else if pc + 9 > code.len() {
        (None, pc + 1)
    } else {
        (Some(operand_at(code, pc)), pc + 9)
    }
}

/// `n` operands read one after another; `None` when any of them is missing.
pub open spec fn read_pairs(code: Seq<u8>, pc: int, n: nat) -> (Option<Seq<(u8, u64)>>, int)
    decreases n,
{
    if n == 0 {
        (Some(seq![]), pc)
    } else {
        let (a, q) = read_pairs(code, pc, (n - 1) as nat);
        let (b, q2) = read_pair(code, q);
        (
            match a {
                Some(s) => match b {
                    Some(p) => Some(s.push(p)),
                    None => None,
                },
                None => None,
            },
            q2,
        )
    }
}

/// The text of `k` native-call arguments read from `pc`, each after a
/// space; a missing one is left out.
pub open spec fn arg_texts(
    code: Seq<u8>,
    pc: int,
    k: nat,
    labels: Seq<(u64, Seq<char>)>,
    data: Seq<(u64, Seq<char>)>,
) -> (Seq<char>, int)
    decreases k,
{
    if k == 0 {
        (seq![], pc)
    } else {
        let (t, q) = arg_texts(code, pc, (k - 1) as nat, labels, data);
        let (p, q2) = read_pair(code, q);
        (
            match p {
                Some(a) => t + " "@ + fmt_operand(a.0, a.1, labels, data),
                None => t,
            },
            q2,
        )
    }
}

/// The text of the instruction at `pc` (empty when an operand is missing)
/// and the offset after it; `None` where a native call's argument count
/// is cut off, which ends the listing.
pub open spec fn listing_text(
    code: Seq<u8>,
    pc: int,
    labels: Seq<(u64, Seq<char>)>,
    data: Seq<(u64, Seq<char>)>,
) -> Option<(Seq<char>, int)> {
    let op = code[pc];
    if op == 0x60 {
        let (mf, q) = read_pairs(code, pc + 1, 2);
        match mf {
            Some(ops) => if q + 2 > code.len() {
                None
            } else {
                let (args, q2) = arg_texts(code, q + 2, le16(code, q), labels, data);
                Some(("MNI"@ + ops_text(ops, labels, data) + args, q2))
            },
            None => Some((seq![], q)),
        }
    } else {
        match dis_name(dis_table(), op) {
            Some(n) => {
                let (r, q) = read_pairs(code, pc + 1, operand_count(op));
                Some(
                    (
                        match r {
                            Some(ops) => n + ops_text(ops, labels, data),
                            None => seq![],
                        },
                        q,
                    ),
                )
            },
            None => Some(("; DB 0x"@ + zero_pad(hex_upper(op as nat), 2), pc + 1)),
        }
    }
}

/// `format!("{:<w}", s)`: `s` padded with spaces on the right.
pub open spec fn pad_right(s: Seq<char>, w: nat) -> Seq<char> {
    if s.len() >= w {
        s
    } else {
        s + Seq::new((w - s.len()) as nat, |i: int| ' ')
    }
}

/// A listing line: the address in eight hex digits, the label at that
/// address padded to eight characters when there is one, then the text.
pub open spec fn listing_line(pc: int, t: Seq<char>, labels: Seq<(u64, Seq<char>)>) -> Seq<char> {
    let a = zero_pad(hex_upper(pc as nat), 8) + ": "@;
    match map_get(labels, pc as u64) {
        Some(l) => a + pad_right(l, 8) + " "@ + t,
        None => a + t,
    }
}

/// Up to `count` instructions listed from `pc`, each with its address.
pub open spec fn listing(
    code: Seq<u8>,
    pc: int,
    count: nat,
    labels: Seq<(u64, Seq<char>)>,
    data: Seq<(u64, Seq<char>)>,
) -> Seq<(int, Seq<char>)>
    decreases count,
{
    if pc < 0 || pc >= code.len() || count == 0 {
        seq![]
    } else {
        match listing_text(code, pc, labels, data) {
            None => seq![],
            Some((t, q)) => seq![(pc, listing_line(pc, t, labels))] + listing(
                code,
                q,
                (count - 1) as nat,
                labels,
                data,
            ),
        }
    }
}

proof fn lemma_read_pairs_advance(code: Seq<u8>, pc: int, n: nat)
    ensures
        read_pairs(code, pc, n).1 >= pc,
    decreases n,
{
    if n > 0 {
        lemma_read_pairs_advance(code, pc, (n - 1) as nat);
    }
}

proof fn lemma_arg_texts_advance(
    code: Seq<u8>,
    pc: int,
    k: nat,
    labels: Seq<(u64, Seq<char>)>,
    data: Seq<(u64, Seq<char>)>,
)
    ensures
        arg_texts(code, pc, k, labels, data).1 >= pc,
    decreases k,
{
    if k > 0 {
        lemma_arg_texts_advance(code, pc, (k - 1) as nat, labels, data);
    }
}

proof fn lemma_listing_text_advances(
    code: Seq<u8>,
    pc: int,
    labels: Seq<(u64, Seq<char>)>,
    data: Seq<(u64, Seq<char>)>,
)
    requires
        0 <= pc < code.len(),
    ensures
        listing_text(code, pc, labels, data) matches Some((t, q)) ==> q > pc,
{
    lemma_read_pairs_advance(code, pc + 1, 2);
    lemma_read_pairs_advance(code, pc + 1, operand_count(code[pc]));
    let q = read_pairs(code, pc + 1, 2).1;
    lemma_arg_texts_advance(code, q + 2, le16(code, q), labels, data);
}

/// What every listing of code holds, whatever the bytes: at most `count`
/// lines; their offsets lie in the code, the first at `pc`, and strictly
/// increase; and each line starts with its offset in eight hex digits and
/// a colon.
pub proof fn lemma_listing_shape(
    code: Seq<u8>,
    pc: int,
    count: nat,
    labels: Seq<(u64, Seq<char>)>,
    data: Seq<(u64, Seq<char>)>,
)
    ensures
        ({
            let r = listing(code, pc, count, labels, data);
            &&& r.len() <= count
            &&& (pc < 0 || pc >= code.len()) ==> r.len() == 0
            &&& r.len() > 0 ==> r[0].0 == pc
            &&& forall|i: int| 0 <= i < r.len() ==> pc <= #[trigger] r[i].0 < code.len()
            &&& forall|i: int, j: int| 0 <= i < j < r.len() ==> #[trigger] r[i].0 < #[trigger] r[j].0
            &&& forall|i: int|
                0 <= i < r.len() ==> (zero_pad(hex_upper(r[i].0 as nat), 8) + ": "@).is_prefix_of(
                    #[trigger] r[i].1,
                )
        }),
    decreases count,
{
    if pc < 0 || pc >= code.len() || count == 0 {
    } else {
        lemma_listing_text_advances(code, pc, labels, data);
        match listing_text(code, pc, labels, data) {
            None => {},
            Some((t, q)) => {
                lemma_listing_shape(code, q, (count - 1) as nat, labels, data);
                let rest = listing(code, q, (count - 1) as nat, labels, data);
                let r = listing(code, pc, count, labels, data);
                let line = listing_line(pc, t, labels);
                assert(r == seq![(pc, line)] + rest);
                assert forall|i: int| 0 <= i < r.len() implies pc <= #[trigger] r[i].0 < code.len() by {
                    if i > 0 {
                        assert(r[i] == rest[i - 1]);
                    }
                }
                assert forall|i: int, j: int| 0 <= i < j < r.len() implies #[trigger] r[i].0 < #[trigger] r[j].0 by {
                    assert(r[j] == rest[j - 1]);
                    if i > 0 {
                        assert(r[i] == rest[i - 1]);
                    }
                }
                assert forall|i: int|
                    0 <= i < r.len() implies (zero_pad(hex_upper(r[i].0 as nat), 8) + ": "@).is_prefix_of(
                    #[trigger] r[i].1,
                ) by {
                    if i > 0 {
                        assert(r[i] == rest[i - 1]);
                    } else {
                        let a = zero_pad(hex_upper(pc as nat), 8) + ": "@;
                        match map_get(labels, pc as u64) {
                            Some(l) => assert(line == a + (pad_right(l, 8) + " "@ + t)),
                            None => {},
                        }
                        assert(line.subrange(0, a.len() as int) =~= a);
                    }
                }
            },
        }
    }
}

pub open spec fn listing_view(v: Seq<(usize, String)>) -> Seq<(int, Seq<char>)> {
    v.map_values(|p: (usize, String)| (p.0 as int, p.1@))
}

/// Reads one operand at `*pc` as `read_pair` says, moving `*pc` on.
fn read_pair_exec(code: &[u8], pc: &mut usize) -> (r: Option<(u8, u64)>)
    requires
        *old(pc) <= code@.len(),
    ensures
        (r, *final(pc) as int) == read_pair(code@, *old(pc) as int),
        *final(pc) <= code@.len(),
{
    if *pc >= code.len() {
        return None;
    }
    let mode = code[*pc];
    *pc = *pc + 1;
    if code.len() - *pc < 8 {
        return None;
    }
    let v = read_u64_le(code, pc);
    Some((mode, v))
}

fn read_pairs_exec(code: &[u8], pc: &mut usize, n: usize) -> (r: Option<Vec<(u8, u64)>>)
    requires
        *old(pc) <= code@.len(),
    ensures
        *final(pc) <= code@.len(),
        ({
            let (o, q) = read_pairs(code@, *old(pc) as int, n as nat);
            q == *final(pc) && match o {
                Some(s) => r matches Some(v) && v@ == s,
                None => r is None,
            }
        }),
{
    let ghost p0 = *pc as int;
    let mut acc: Vec<(u8, u64)> = Vec::new();
    let mut ok = true;
    let mut k: usize = 0;
    while k < n
        invariant
            k <= n,
            *pc <= code@.len(),
            ({
                let (o, q) = read_pairs(code@, p0, k as nat);
                q == *pc && match o {
                    Some(s) => ok && acc@ == s,
                    None => !ok,
                }
            }),
        decreases n - k,
    {
        let p = read_pair_exec(code, pc);
        match p {
            Some(x) => {
                if ok {
                    acc.push(x);
                }
            },
            None => {
                ok = false;
            },
        }
        k = k + 1;
    }
    if ok {
        Some(acc)
    } else {
        None
    }
}

fn arg_texts_exec(code: &[u8], pc: &mut usize, k: usize, masi: &MASIFile, out: &mut Vec<char>)
    requires
        *old(pc) <= code@.len(),
    ensures
        *final(pc) <= code@.len(),
        ({
            let (t, q) = arg_texts(
                code@,
                *old(pc) as int,
                k as nat,
                offset_names(masi.label_map@),
                offset_names(masi.data_label_map@),
            );
            q == *final(pc) && final(out)@ == old(out)@ + t
        }),
{
    let ghost l = offset_names(masi.label_map@);
    let ghost d = offset_names(masi.data_label_map@);
    let ghost p0 = *pc as int;
    let ghost o0 = out@;
    let mut i: usize = 0;
    while i < k
        invariant
            i <= k,
            *pc <= code@.len(),
            l == offset_names(masi.label_map@),
            d == offset_names(masi.data_label_map@),
            ({
                let (t, q) = arg_texts(code@, p0, i as nat, l, d);
                q == *pc && out@ == o0 + t
            }),
        decreases k - i,
    {
        match read_pair_exec(code, pc) {
            Some(a) => {
                append_str(out, " ");
                let s = fmt_op(a.0, a.1, masi);
                let sc = str_chars(s.as_str());
                append_chars(out, sc.as_slice());
            },
            None => {},
        }
        i = i + 1;
    }
}

fn listing_text_exec(code: &[u8], pc: usize, masi: &MASIFile) -> (r: Option<(Vec<char>, usize)>)
    requires
        pc < code@.len(),
    ensures
        match listing_text(code@, pc as int, offset_names(masi.label_map@), offset_names(masi.data_label_map@)) {
            Some((t, q)) => r matches Some(x) && x.0@ == t && x.1 == q && q <= code@.len(),
            None => r is None,
        },
{
    let op = code[pc];
    let mut q: usize = pc + 1;
    let mut out: Vec<char> = Vec::new();
    if op == 0x60 {
        match read_pairs_exec(code, &mut q, 2) {
            Some(ops) => {
                if code.len() - q < 2 {
                    return None;
                }
                let argc = read_u16_le(code, &mut q) as usize;
                append_str(&mut out, "MNI");
                ops_text_exec(&ops, masi, &mut out);
                arg_texts_exec(code, &mut q, argc, masi, &mut out);
                Some((out, q))
            },
            None => Some((out, q)),
        }
    } else {
        match dis_name_exec(op) {
            Some(n) => {
                let cnt = operand_count_exec(op);
                match read_pairs_exec(code, &mut q, cnt) {
                    Some(ops) => {
                        append_str(&mut out, n);
                        ops_text_exec(&ops, masi, &mut out);
                    },
                    None => {},
                }
                Some((out, q))
            },
            None => {
                append_str(&mut out, "; DB 0x");
                let h = hex_upper_chars(op as u64);
                let p = zero_pad_chars(h, 2);
                append_chars(&mut out, p.as_slice());
                Some((out, pc + 1))
            },
        }
    }
}

fn pad_right_chars(s: Vec<char>, w: usize) -> (r: Vec<char>)
    ensures
        r@ == pad_right(s@, w as nat),
{
    let mut r = s;
    let ghost s0 = r@;
    if r.len() >= w {
        return r;
    }
    let k = w - r.len();
    let mut i: usize = 0;
    while i < k
        invariant
            i <= k,
            s0.len() + k == w,
            r@ == s0 + Seq::new(i as nat, |j: int| ' '),
        decreases k - i,
    {
        r.push(' ');
        i = i + 1;
        assert(r@ =~= s0 + Seq::new(i as nat, |j: int| ' '));
    }
    r
}

fn listing_line_exec(pc: usize, t: &Vec<char>, masi: &MASIFile) -> (r: String)
    ensures
        r@ == listing_line(pc as int, t@, offset_names(masi.label_map@)),
{
    let h = hex_upper_chars(pc as u64);
    let mut out = zero_pad_chars(h, 8);
    append_str(&mut out, ": ");
    match map_get_exec(&masi.label_map, pc as u64) {
        Some(l) => {
            let p = pad_right_chars(l, 8);
            append_chars(&mut out, p.as_slice());
            append_str(&mut out, " ");
        },
        None => {},
    }
    append_chars(&mut out, t.as_slice());
    chars_to_string(out.as_slice())
}

} // verus!

verus! {

// ------------------------------------------------------------ the debugger

/// Breakpoints are kept in increasing order, each once.
pub open spec fn sorted_unique(s: Seq<usize>) -> bool {
    forall|i: int, j: int| 0 <= i < j < s.len() ==> s[i] < s[j]
}

/// Whether a debugger with these breakpoints stops before the instruction
/// at `pc`: always when stepping, and at a breakpoint when running.
pub open spec fn stops(breaks: Seq<usize>, running: bool, pc: usize) -> bool {
    !(running && !breaks.contains(pc))
}

/// The line-driven debugger: where it stops, and whether it is running
/// on to the next breakpoint.
pub struct CliDebugger {
    breakpoints: Vec<usize>,
    running: bool,
}

impl CliDebugger {
    #[verifier::type_invariant]
    spec fn well_formed(self) -> bool {
        sorted_unique(self.breakpoints@)
    }

    /// The breakpoints, in increasing order.
    pub closed spec fn breaks(self) -> Seq<usize> {
        self.breakpoints@
    }

    /// Whether the debugger runs on until a breakpoint.
    pub closed spec fn is_running(self) -> bool {
        self.running
    }

    pub fn new() -> (r: CliDebugger)
        ensures
            r.breaks() == Seq::<usize>::empty(),
            !r.is_running(),
    {
        CliDebugger { breakpoints: Vec::new(), running: false }
    }

    /// The breakpoints, in increasing order, each once.
    pub fn breakpoints(&self) -> (r: Vec<usize>)
        ensures
            r@ == self.breaks(),
            sorted_unique(r@),
    {
        proof {
            use_type_invariant(self);
        }
        let mut r: Vec<usize> = Vec::new();
        let mut i: usize = 0;
        while i < self.breakpoints.len()
            invariant
                i <= self.breakpoints@.len(),
                r@ == self.breakpoints@.take(i as int),
            decreases self.breakpoints.len() - i,
        {
            r.push(self.breakpoints[i]);
            i = i + 1;
            assert(r@ =~= self.breakpoints@.take(i as int));
        }
        assert(r@ =~= self.breakpoints@);
        r
    }

    /// Whether the debugger stops before the instruction at `pc`: always
    /// when stepping, and at a breakpoint when running.
    pub fn stops_at(&self, pc: usize) -> (r: bool)
        ensures
            r == stops(self.breaks(), self.is_running(), pc),
    {
        if !self.running {
            return true;
        }
        let mut i: usize = 0;
        while i < self.breakpoints.len()
            invariant
                i <= self.breakpoints@.len(),
                forall|k: int| 0 <= k < i ==> self.breakpoints@[k] != pc,
            decreases self.breakpoints.len() - i,
        {
            if self.breakpoints[i] == pc {
                assert(self.breakpoints@[i as int] == pc);
                return true;
            }
            i = i + 1;
        }
        false
    }

    /// Formats an operand as the disassembler does.
    pub fn fmt_op(&self, masi: &MASIFile, mode: u8, value: u64) -> (r: String)
        ensures
            r@ == fmt_operand(mode, value, offset_names(masi.label_map@), offset_names(masi.data_label_map@)),
    {
        fmt_op(mode, value, masi)
    }

    /// Reads an operand at `*pc`, moving `*pc` past what was read.
    pub fn read_op_pair(&self, code: &[u8], pc: &mut usize) -> (r: Option<(u8, u64)>)
        requires
            *old(pc) <= code@.len(),
        ensures
            (r, *final(pc) as int) == read_pair(code@, *old(pc) as int),
    {
        read_pair_exec(code, pc)
    }

    /// Up to `count` listing lines from `start_pc`, each with its address.
    pub fn disassemble_from(&self, masi: &MASIFile, start_pc: usize, count: usize) -> (r: Vec<(usize, String)>)
        ensures
            listing_view(r@) == listing(
                masi.code@,
                start_pc as int,
                count as nat,
                offset_names(masi.label_map@),
                offset_names(masi.data_label_map@),
            ),
    {
        let ghost l = offset_names(masi.label_map@);
        let ghost d = offset_names(masi.data_label_map@);
        let code = masi.code.as_slice();
        let mut lines: Vec<(usize, String)> = Vec::new();
        let mut pc = start_pc;
        let mut n: usize = 0;
        proof {
            assert(listing_view(lines@) =~= Seq::<(int, Seq<char>)>::empty());
        }
        while pc < code.len() && n < count
            invariant
                code@ == masi.code@,
                l == offset_names(masi.label_map@),
                d == offset_names(masi.data_label_map@),
                n <= count,
                listing_view(lines@) + listing(code@, pc as int, (count - n) as nat, l, d) == listing(
                    code@,
                    start_pc as int,
                    count as nat,
                    l,
                    d,
                ),
            decreases count - n,
        {
            match listing_text_exec(code, pc, masi) {
                None => {
                    proof {
                        assert(listing(code@, pc as int, (count - n) as nat, l, d) =~= Seq::<(int, Seq<char>)>::empty());
                        assert(listing_view(lines@) + Seq::<(int, Seq<char>)>::empty() =~= listing_view(lines@));
                    }
                    return lines;
                },
                Some((t, q)) => {
                    let line = listing_line_exec(pc, &t, masi);
                    let ghost before = listing_view(lines@);
                    let ghost lv = line@;
                    lines.push((pc, line));
                    proof {
                        assert(listing_view(lines@) =~= before.push((pc as int, lv)));
                        assert(listing(code@, pc as int, (count - n) as nat, l, d) == seq![(pc as int, lv)]
                            + listing(code@, q as int, (count - n - 1) as nat, l, d));
                        assert(listing_view(lines@) + listing(code@, q as int, (count - (n + 1)) as nat, l, d)
                            =~= before + listing(code@, pc as int, (count - n) as nat, l, d));
                    }
                    pc = q;
                    n = n + 1;
                },
            }
        }
        proof {
            assert(listing(code@, pc as int, (count - n) as nat, l, d) =~= Seq::<(int, Seq<char>)>::empty());
            assert(listing_view(lines@) + Seq::<(int, Seq<char>)>::empty() =~= listing_view(lines@));
        }
        lines
    }
}

} // verus!

verus! {

// ------------------------------------------------------------ breakpoints

/// `s` with `a` added in its place (unchanged when `a` is already there).
pub open spec fn bp_insert(s: Seq<usize>, a: usize) -> Seq<usize>
    decreases s.len(),
{
    if s.len() == 0 {
        seq![a]
    } else if a < s[0] {
        seq![a] + s
    } else if a == s[0] {
        s
    } else {
        seq![s[0]] + bp_insert(s.drop_first(), a)
    }
}

/// `s` without `a`.
pub open spec fn bp_remove(s: Seq<usize>, a: usize) -> Seq<usize>
    decreases s.len(),
{
    if s.len() == 0 {
        s
    } else if s[0] == a {
        bp_remove(s.drop_first(), a)
    } else {
        seq![s[0]] + bp_remove(s.drop_first(), a)
    }
}

/// Setting a breakpoint adds exactly that address, and the breakpoints
/// stay in increasing order without repeats.
pub proof fn lemma_bp_insert(s: Seq<usize>, a: usize)
    requires
        sorted_unique(s),
    ensures
        sorted_unique(bp_insert(s, a)),
        forall|x: usize| #[trigger] bp_insert(s, a).contains(x) <==> (s.contains(x) || x == a),
    decreases s.len(),
{
    let r = bp_insert(s, a);
    if s.len() == 0 {
        assert(r =~= seq![a]);
        assert forall|x: usize| r.contains(x) <==> (s.contains(x) || x == a) by {
            if r.contains(x) {
                let i = choose|i: int| 0 <= i < r.len() && r[i] == x;
                assert(i == 0);
            }
            if x == a {
                assert(r[0] == a);
            }
        }
    } else if a < s[0] {
        assert forall|i: int, j: int| 0 <= i < j < r.len() implies r[i] < r[j] by {
            if i > 0 {
                assert(r[i] == s[i - 1] && r[j] == s[j - 1]);
            } else {
                assert(r[j] == s[j - 1]);
                assert(s[0] <= s[j - 1]);
            }
        }
        assert forall|x: usize| r.contains(x) <==> (s.contains(x) || x == a) by {
            if r.contains(x) {
                let i = choose|i: int| 0 <= i < r.len() && r[i] == x;
                if i > 0 {
                    assert(s[i - 1] == x);
                }
            }
            if s.contains(x) {
                let i = choose|i: int| 0 <= i < s.len() && s[i] == x;
                assert(r[i + 1] == x);
            }
            if x == a {
                assert(r[0] == a);
            }
        }
    } else if a == s[0] {
        assert forall|x: usize| r.contains(x) <==> (s.contains(x) || x == a) by {
            if x == a {
                assert(s[0] == a);
            }
        }
    } else {
        let t = s.drop_first();
        assert forall|i: int, j: int| 0 <= i < j < t.len() implies t[i] < t[j] by {
            assert(t[i] == s[i + 1] && t[j] == s[j + 1]);
        }
        lemma_bp_insert(t, a);
        let rt = bp_insert(t, a);
        assert(r == seq![s[0]] + rt);
        assert forall|k: int| 0 <= k < rt.len() implies s[0] < #[trigger] rt[k] by {
            assert(rt.contains(rt[k]));
            if t.contains(rt[k]) {
                let i = choose|i: int| 0 <= i < t.len() && t[i] == rt[k];
                assert(s[i + 1] == rt[k]);
            }
        }
        assert forall|i: int, j: int| 0 <= i < j < r.len() implies r[i] < r[j] by {
            if i > 0 {
                assert(r[i] == rt[i - 1] && r[j] == rt[j - 1]);
            } else {
                assert(r[j] == rt[j - 1]);
            }
        }
        assert forall|x: usize| r.contains(x) <==> (s.contains(x) || x == a) by {
            if r.contains(x) {
                let i = choose|i: int| 0 <= i < r.len() && r[i] == x;
                if i > 0 {
                    assert(rt[i - 1] == x);
                    assert(rt.contains(x));
                    if t.contains(x) {
                        let k = choose|k: int| 0 <= k < t.len() && t[k] == x;
                        assert(s[k + 1] == x);
                    }
                } else {
                    assert(s[0] == x);
                }
            }
            if s.contains(x) {
                let i = choose|i: int| 0 <= i < s.len() && s[i] == x;
                if i > 0 {
                    assert(t[i - 1] == x);
                    assert(t.contains(x));
                    assert(rt.contains(x));
                    let k = choose|k: int| 0 <= k < rt.len() && rt[k] == x;
                    assert(r[k + 1] == x);
                } else {
                    assert(r[0] == x);
                }
            }
            if x == a {
                assert(rt.contains(a));
                let k = choose|k: int| 0 <= k < rt.len() && rt[k] == a;
                assert(r[k + 1] == a);
            }
        }
    }
}

/// Deleting a breakpoint removes exactly that address, and the
/// breakpoints stay in increasing order without repeats.
pub proof fn lemma_bp_remove(s: Seq<usize>, a: usize)
    requires
        sorted_unique(s),
    ensures
        sorted_unique(bp_remove(s, a)),
        forall|x: usize| #[trigger] bp_remove(s, a).contains(x) <==> (s.contains(x) && x != a),
    decreases s.len(),
{
    let r = bp_remove(s, a);
    if s.len() > 0 {
        let t = s.drop_first();
        assert forall|i: int, j: int| 0 <= i < j < t.len() implies t[i] < t[j] by {
            assert(t[i] == s[i + 1] && t[j] == s[j + 1]);
        }
        lemma_bp_remove(t, a);
        let rt = bp_remove(t, a);
        assert forall|k: int| 0 <= k < rt.len() implies s[0] < #[trigger] rt[k] by {
            assert(rt.contains(rt[k]));
            let i = choose|i: int| 0 <= i < t.len() && t[i] == rt[k];
            assert(s[i + 1] == rt[k]);
        }
        if s[0] == a {
            assert forall|x: usize| r.contains(x) <==> (s.contains(x) && x != a) by {
                if s.contains(x) && x != a {
                    let i = choose|i: int| 0 <= i < s.len() && s[i] == x;
                    assert(i > 0);
                    assert(t[i - 1] == x);
                }
                if r.contains(x) {
                    let k = choose|k: int| 0 <= k < t.len() && t[k] == x;
                    assert(s[k + 1] == x);
                }
            }
        } else {
            assert(r == seq![s[0]] + rt);
            assert forall|i: int, j: int| 0 <= i < j < r.len() implies r[i] < r[j] by {
                if i > 0 {
                    assert(r[i] == rt[i - 1] && r[j] == rt[j - 1]);
                } else {
                    assert(r[j] == rt[j - 1]);
                }
            }
            assert forall|x: usize| r.contains(x) <==> (s.contains(x) && x != a) by {
                if r.contains(x) {
                    let i = choose|i: int| 0 <= i < r.len() && r[i] == x;
                    if i > 0 {
                        assert(rt[i - 1] == x);
                        assert(rt.contains(x));
                        let k = choose|k: int| 0 <= k < t.len() && t[k] == x;
                        assert(s[k + 1] == x);
                    } else {
                        assert(s[0] == x);
                    }
                }
                if s.contains(x) && x != a {
                    let i = choose|i: int| 0 <= i < s.len() && s[i] == x;
                    if i > 0 {
                        assert(t[i - 1] == x);
                        assert(t.contains(x));
                        assert(rt.contains(x));
                        let k = choose|k: int| 0 <= k < rt.len() && rt[k] == x;
                        assert(r[k + 1] == x);
                    } else {
                        assert(r[0] == x);
                    }
                }
            }
        }
    }
}

fn bp_insert_exec(v: &Vec<usize>, a: usize) -> (r: Vec<usize>)
    ensures
        r@ == bp_insert(v@, a),
{
    let mut out: Vec<usize> = Vec::new();
    let mut i: usize = 0;
    proof {
        assert(v@.skip(0) =~= v@);
        assert(v@.take(0) + bp_insert(v@.skip(0), a) =~= bp_insert(v@, a));
    }
    while i < v.len() && v[i] < a
        invariant
            i <= v@.len(),
            out@ == v@.take(i as int),
            v@.take(i as int) + bp_insert(v@.skip(i as int), a) == bp_insert(v@, a),
        decreases v.len() - i,
    {
        proof {
            let t = v@.skip(i as int);
            assert(t[0] == v@[i as int]);
            assert(t.drop_first() =~= v@.skip(i + 1));
            assert(v@.take(i + 1) =~= v@.take(i as int).push(v@[i as int]));
            assert(v@.take(i + 1) + bp_insert(v@.skip(i + 1), a) =~= v@.take(i as int) + bp_insert(t, a));
        }
        out.push(v[i]);
        i = i + 1;
    }
    let ghost t = v@.skip(i as int);
    if i == v.len() {
        out.push(a);
        proof {
            assert(t =~= Seq::<usize>::empty());
            assert(out@ =~= v@.take(i as int) + seq![a]);
        }
        return out;
    }
    if v[i] != a {
        out.push(a);
    }
    let ghost mid = out@;
    let mut j = i;
    while j < v.len()
        invariant
            i <= j <= v@.len(),
            out@ == mid + v@.subrange(i as int, j as int),
        decreases v.len() - j,
    {
        out.push(v[j]);
        j = j + 1;
        assert(out@ =~= mid + v@.subrange(i as int, j as int));
    }
    proof {
        assert(t[0] == v@[i as int]);
        assert(v@.subrange(i as int, v@.len() as int) =~= t);
        if v@[i as int] == a {
            assert(bp_insert(t, a) == t);
        } else {
            assert(bp_insert(t, a) == seq![a] + t);
        }
        assert(out@ =~= v@.take(i as int) + bp_insert(t, a));
    }
    out
}

fn bp_remove_exec(v: &Vec<usize>, a: usize) -> (r: Vec<usize>)
    ensures
        r@ == bp_remove(v@, a),
{
    let mut out: Vec<usize> = Vec::new();
    let mut i: usize = 0;
    proof {
        assert(v@.skip(0) =~= v@);
    }
    while i < v.len()
        invariant
            i <= v@.len(),
            out@ + bp_remove(v@.skip(i as int), a) == bp_remove(v@, a),
        decreases v.len() - i,
    {
        proof {
            let t = v@.skip(i as int);
            assert(t[0] == v@[i as int]);
            assert(t.drop_first() =~= v@.skip(i + 1));
            if v@[i as int] != a {
                assert(out@.push(v@[i as int]) + bp_remove(v@.skip(i + 1), a) =~= out@ + bp_remove(t, a));
            }
        }
        if v[i] != a {
            out.push(v[i]);
        }
        i = i + 1;
    }
    proof {
        assert(v@.skip(i as int) =~= Seq::<usize>::empty());
        assert(out@ + Seq::<usize>::empty() =~= out@);
    }
    out
}

// ------------------------------------------------------------ addresses

pub open spec fn is_ascii_digit(c: char) -> bool {
    '0' <= c && c <= '9'
}

/// `usize::from_str_radix(s, radix).ok()`.
pub open spec fn spec_parse_usize(s: Seq<char>, radix: nat) -> Option<usize> {
    match parse_unsigned(s, radix) {
        Some(v) => if v <= usize::MAX {
            Some(v as usize)
        } else {
            None
        },
        None => None,
    }
}

/// The offset of the first code label called `name`.
pub open spec fn label_named(l: Seq<(u64, Seq<char>)>, name: Seq<char>) -> Option<u64>
    decreases l.len(),
{
    if l.len() == 0 {
        None
    } else if l[0].1 == name {
        Some(l[0].0)
    } else {
        label_named(l.drop_first(), name)
    }
}

/// An address as the debugger reads one: `0x` and hex digits, decimal
/// digits, or the name of a code label.
pub open spec fn addr_of(labels: Seq<(u64, Seq<char>)>, tok: Seq<char>) -> Option<usize> {
    if starts_with(tok, "0x"@) {
        spec_parse_usize(tok.skip(2), 16)
    } else if forall|i: int| 0 <= i < tok.len() ==> is_ascii_digit(#[trigger] tok[i]) {
        spec_parse_usize(tok, 10)
    } else {
        match label_named(labels, tok) {
            Some(o) => Some(o as usize),
            None => None,
        }
    }
}

fn parse_usize(s: &[char], radix: u32) -> (r: Option<usize>)
    requires
        radix == 10 || radix == 16,
    ensures
        r == spec_parse_usize(s@, radix as nat),
{
    match parse_u64_radix(s, radix) {
        Some(v) => {
            if v <= usize::MAX as u64 {
                Some(v as usize)
            } else {
                None
            }
        },
        None => None,
    }
}

fn label_named_exec(l: &Vec<(u64, String)>, name: &[char]) -> (r: Option<u64>)
    ensures
        r == label_named(offset_names(l@), name@),
{
    let ghost lv = offset_names(l@);
    let mut i: usize = 0;
    proof {
        assert(lv.skip(0) =~= lv);
    }
    while i < l.len()
        invariant
            i <= l@.len(),
            lv == offset_names(l@),
            label_named(lv.skip(i as int), name@) == label_named(lv, name@),
        decreases l.len() - i,
    {
        let n = str_chars(l[i].1.as_str());
        proof {
            assert(lv.skip(i as int)[0] == (l@[i as int].0, l@[i as int].1@));
            assert(lv.skip(i as int).drop_first() =~= lv.skip(i + 1));
        }
        if eq_chars(n.as_slice(), name) {
            return Some(l[i].0);
        }
        i = i + 1;
    }
    proof {
        assert(lv.skip(i as int) =~= Seq::<(u64, Seq<char>)>::empty());
    }
    None
}

fn addr_of_exec(masi: &MASIFile, tok: &[char]) -> (r: Option<usize>)
    ensures
        r == addr_of(offset_names(masi.label_map@), tok@),
{
    proof {
        reveal_strlit("0x");
    }
    if starts_with_str(tok, "0x") {
        let rest = slice_chars(tok, 2, tok.len());
        assert(rest@ =~= tok@.skip(2));
        return parse_usize(rest.as_slice(), 16);
    }
    let mut i: usize = 0;
    while i < tok.len() && '0' <= tok[i] && tok[i] <= '9'
        invariant
            i <= tok@.len(),
            forall|k: int| 0 <= k < i ==> is_ascii_digit(#[trigger] tok@[k]),
        decreases tok.len() - i,
    {
        i = i + 1;
    }
    if i == tok.len() {
        return parse_usize(tok, 10);
    }
    assert(!is_ascii_digit(tok@[i as int]));
    match label_named_exec(&masi.label_map, tok) {
        Some(o) => Some(o as usize),
        None => None,
    }
}

} // verus!

verus! {

// ------------------------------------------------------------ text

/// The line shown where the debugger stops.
pub open spec fn prompt_text(labels: Seq<(u64, Seq<char>)>, pc: usize, op: u8) -> Seq<char> {
    let place = match map_get(labels, pc as u64) {
        Some(n) => n + " (0x"@ + hex_upper(pc as nat) + ")"@,
        None => "0x"@ + hex_upper(pc as nat),
    };
    "stopped at "@ + place + ": "@ + opcode_text(op) + " (0x"@ + zero_pad(hex_upper(op as nat), 2) + ")"@
}

pub open spec fn bool_text(b: bool) -> Seq<char> {
    if b {
        "true"@
    } else {
        "false"@
    }
}

/// `NAME=0x<16 hex digits> ` for each register of the table.
pub open spec fn reg_entries(t: Seq<(Seq<char>, u16)>, regs: Map<u16, u64>) -> Seq<char>
    decreases t.len(),
{
    if t.len() == 0 {
        seq![]
    } else {
        reg_entries(t.drop_last(), regs) + t.last().0 + "=0x"@ + zero_pad(
            hex_upper(reg_val(regs, t.last().1) as nat),
            16,
        ) + " "@
    }
}

/// The register dump: every register in increasing id order (the order
/// of the register table), the flags, and the instruction pointer.
pub open spec fn regs_text(s: SState) -> Seq<Seq<char>> {
    seq![
        trim(reg_entries(reg_table(), s.regs)),
        "FLAGS: ZF="@ + bool_text(s.flags.0) + " SF="@ + bool_text(s.flags.1) + " CF="@ + bool_text(s.flags.2)
            + " OF="@ + bool_text(s.flags.3),
        "RIP=0x"@ + zero_pad(hex_upper(s.rip as nat), 16),
    ]
}

/// A byte as the dump shows it beside the hex: itself when printable ASCII.
pub open spec fn shown_char(b: u8) -> char {
    if 32 <= b && b <= 126 {
        b as char
    } else {
        '.'
    }
}

pub open spec fn hex_cell(mem: Seq<u8>, i: int, end: int) -> Seq<char> {
    if i < end {
        zero_pad(hex_upper(mem[i] as nat), 2) + " "@
    } else {
        "   "@
    }
}

pub open spec fn hex_cells(mem: Seq<u8>, i: int, end: int, k: nat) -> Seq<char>
    decreases k,
{
    if k == 0 {
        seq![]
    } else {
        hex_cells(mem, i, end, (k - 1) as nat) + hex_cell(mem, i + k - 1, end)
    }
}

pub open spec fn char_cells(mem: Seq<u8>, i: int, end: int, k: nat) -> Seq<char>
    decreases k,
{
    if k == 0 {
        seq![]
    } else {
        char_cells(mem, i, end, (k - 1) as nat) + if i + k - 1 < end {
            seq![shown_char(mem[i + k - 1])]
        } else {
            seq![]
        }
    }
}

/// One dump row: the address, sixteen hex cells, and the bytes as text.
pub open spec fn mem_row(mem: Seq<u8>, i: int, end: int) -> Seq<char> {
    zero_pad(hex_upper(i as nat), 8) + ": "@ + hex_cells(mem, i, end, 16) + " | "@ + char_cells(mem, i, end, 16)
}

pub open spec fn mem_rows(mem: Seq<u8>, i: int, end: int) -> Seq<Seq<char>>
    decreases (if end > i { end - i } else { 0 }),
{
    if i >= end {
        seq![]
    } else {
        seq![mem_row(mem, i, end)] + mem_rows(mem, i + 16, end)
    }
}

/// Where a dump of `len` bytes from `addr` ends: at the end of memory at
/// the latest.
pub open spec fn dump_end(mem_len: nat, addr: usize, len: usize) -> int {
    let e: int = if addr + len > usize::MAX {
        usize::MAX as int
    } else {
        addr + len
    };
    if e < mem_len {
        e
    } else {
        mem_len as int
    }
}

/// The rows of a memory dump of `len` bytes from `addr`.
pub open spec fn mem_text(mem: Seq<u8>, addr: usize, len: usize) -> Seq<Seq<char>> {
    mem_rows(mem, addr as int, dump_end(mem.len(), addr, len))
}

pub open spec fn bp_line(b: usize, labels: Seq<(u64, Seq<char>)>) -> Seq<char> {
    match map_get(labels, b as u64) {
        Some(n) => "- "@ + n + " (0x"@ + hex_upper(b as nat) + ")"@,
        None => "- 0x"@ + hex_upper(b as nat),
    }
}

/// The breakpoint list, or a note that there is none.
pub open spec fn bp_text(bps: Seq<usize>, labels: Seq<(u64, Seq<char>)>) -> Seq<Seq<char>> {
    if bps.len() == 0 {
        seq!["(no breakpoints)"@]
    } else {
        bps.map_values(|b: usize| bp_line(b, labels))
    }
}

fn bool_chars(out: &mut Vec<char>, b: bool)
    ensures
        final(out)@ == old(out)@ + bool_text(b),
{
    if b {
        append_str(out, "true");
    } else {
        append_str(out, "false");
    }
}

fn hex_chars_padded(out: &mut Vec<char>, v: u64, w: usize)
    ensures
        final(out)@ == old(out)@ + zero_pad(hex_upper(v as nat), w as nat),
{
    let h = hex_upper_chars(v);
    let p = zero_pad_chars(h, w);
    append_chars(out, p.as_slice());
}

fn to_strings(v: &Vec<Vec<char>>) -> (r: Vec<String>)
    ensures
        strings_view(r@) == views(v@),
{
    let mut r: Vec<String> = Vec::new();
    let mut i: usize = 0;
    while i < v.len()
        invariant
            i <= v@.len(),
            strings_view(r@) == views(v@).take(i as int),
        decreases v.len() - i,
    {
        let s = chars_to_string(v[i].as_slice());
        let ghost before = strings_view(r@);
        r.push(s);
        proof {
            assert(strings_view(r@) =~= before.push(s@));
            assert(views(v@)[i as int] == v@[i as int]@);
            assert(views(v@).take(i + 1) =~= views(v@).take(i as int).push(v@[i as int]@));
        }
        i = i + 1;
    }
    assert(views(v@).take(i as int) =~= views(v@));
    r
}

impl CliDebugger {
    /// The line shown where the debugger stops before `opcode` at `pc`.
    pub fn prompt(&self, masi: &MASIFile, pc: usize, opcode: u8) -> (r: String)
        ensures
            r@ == prompt_text(offset_names(masi.label_map@), pc, opcode),
    {
        let mut out: Vec<char> = Vec::new();
        append_str(&mut out, "stopped at ");
        match map_get_exec(&masi.label_map, pc as u64) {
            Some(n) => {
                append_chars(&mut out, n.as_slice());
                append_str(&mut out, " (0x");
                let h = hex_upper_chars(pc as u64);
                append_chars(&mut out, h.as_slice());
                append_str(&mut out, ")");
            },
            None => {
                append_str(&mut out, "0x");
                let h = hex_upper_chars(pc as u64);
                append_chars(&mut out, h.as_slice());
            },
        }
        append_str(&mut out, ": ");
        let name = opcode_name(opcode);
        let nc = str_chars(name.as_str());
        append_chars(&mut out, nc.as_slice());
        append_str(&mut out, " (0x");
        hex_chars_padded(&mut out, opcode as u64, 2);
        append_str(&mut out, ")");
        chars_to_string(out.as_slice())
    }

    /// The register dump.
    pub fn regs(&self, state: &State) -> (r: Vec<String>)
        ensures
            strings_view(r@) == regs_text(state_view(*state)),
    {
        let t = RegisterMap::build_name_to_id();
        let ghost regs = state.regs@;
        let mut line: Vec<char> = Vec::new();
        let mut i: usize = 0;
        proof {
            assert(pairs_view(t@).take(0) =~= Seq::<(Seq<char>, u16)>::empty());
        }
        while i < t.len()
            invariant
                i <= t@.len(),
                pairs_view(t@) == reg_table(),
                regs == state.regs@,
                line@ == reg_entries(pairs_view(t@).take(i as int), regs),
            decreases t.len() - i,
        {
            let ghost before = pairs_view(t@).take(i as int);
            append_chars(&mut line, t[i].0.as_slice());
            append_str(&mut line, "=0x");
            let v = state.reg(t[i].1);
            hex_chars_padded(&mut line, v, 16);
            append_str(&mut line, " ");
            proof {
                let now = pairs_view(t@).take(i + 1);
                assert(now.drop_last() =~= before);
                assert(now.last() == (t@[i as int].0@, t@[i as int].1));
            }
            i = i + 1;
        }
        proof {
            assert(pairs_view(t@).take(i as int) =~= reg_table());
        }
        let first = trim_chars(line.as_slice());
        let mut flags: Vec<char> = Vec::new();
        append_str(&mut flags, "FLAGS: ZF=");
        bool_chars(&mut flags, state.flags.0);
        append_str(&mut flags, " SF=");
        bool_chars(&mut flags, state.flags.1);
        append_str(&mut flags, " CF=");
        bool_chars(&mut flags, state.flags.2);
        append_str(&mut flags, " OF=");
        bool_chars(&mut flags, state.flags.3);
        let mut rip: Vec<char> = Vec::new();
        append_str(&mut rip, "RIP=0x");
        hex_chars_padded(&mut rip, state.rip, 16);
        let lines: Vec<Vec<char>> = vec![first, flags, rip];
        let r = to_strings(&lines);
        assert(views(lines@) =~= regs_text(state_view(*state)));
        r
    }

    /// A memory dump of `len` bytes from `addr`, sixteen to a row.
    pub fn mem(&self, state: &State, addr: usize, len: usize) -> (r: Vec<String>)
        ensures
            strings_view(r@) == mem_text(state.memory@, addr, len),
    {
        let mem = &state.memory;
        let e: usize = if len > usize::MAX - addr { usize::MAX } else { addr + len };
        let end: usize = if e < mem.len() { e } else { mem.len() };
        let ghost m = mem@;
        let ghost endi = end as int;
        assert(endi == dump_end(m.len(), addr, len));
        let mut rows: Vec<Vec<char>> = Vec::new();
        let mut i = addr;
        proof {
            assert(views(rows@) =~= Seq::<Seq<char>>::empty());
        }
        while i < end
            invariant
                end <= m.len(),
                m == state.memory@,
                mem@ == m,
                end as int == dump_end(m.len(), addr, len),
                views(rows@) + mem_rows(m, i as int, end as int) == mem_rows(m, addr as int, end as int),
            decreases end - i,
        {
            let mut row = Vec::new();
            hex_chars_padded(&mut row, i as u64, 8);
            append_str(&mut row, ": ");
            let mut j: usize = 0;
            while j < 16
                invariant
                    j <= 16,
                    i < end <= m.len(),
                    m == state.memory@,
                    mem@ == m,
                    row@ == zero_pad(hex_upper(i as nat), 8) + ": "@ + hex_cells(m, i as int, end as int, j as nat),
                decreases 16 - j,
            {
                let ghost before = row@;
                if j < end - i {
                    hex_chars_padded(&mut row, mem[i + j] as u64, 2);
                    append_str(&mut row, " ");
                } else {
                    append_str(&mut row, "   ");
                }
                proof {
                    assert(row@ =~= before + hex_cell(m, i + j, end as int));
                }
                j = j + 1;
            }
            append_str(&mut row, " | ");
            let ghost head = row@;
            let mut j: usize = 0;
            while j < 16
                invariant
                    j <= 16,
                    i < end <= m.len(),
                    m == state.memory@,
                    mem@ == m,
                    row@ == head + char_cells(m, i as int, end as int, j as nat),
                decreases 16 - j,
            {
                if j < end - i {
                    let b = mem[i + j];
                    let c: char = if 32 <= b && b <= 126 { b as char } else { '.' };
                    row.push(c);
                } else {
                }
                j = j + 1;
                assert(row@ =~= head + char_cells(m, i as int, end as int, j as nat));
            }
            let ghost before = views(rows@);
            let ghost rv = row@;
            rows.push(row);
            proof {
                assert(rv == mem_row(m, i as int, end as int));
                assert(views(rows@) =~= before.push(rv));
                assert(mem_rows(m, i as int, end as int) == seq![rv] + mem_rows(m, i + 16, end as int));
            }
            if end - i > 16 {
                i = i + 16;
                proof {
                    assert(views(rows@) + mem_rows(m, i as int, end as int) =~= before + mem_rows(m, (i - 16) as int, end as int));
                }
            } else {
                proof {
                    assert(mem_rows(m, i + 16, end as int) =~= Seq::<Seq<char>>::empty());
                    assert(views(rows@) =~= before + mem_rows(m, i as int, end as int));
                }
                let r = to_strings(&rows);
                return r;
            }
        }
        proof {
            assert(mem_rows(m, i as int, end as int) =~= Seq::<Seq<char>>::empty());
            assert(views(rows@) + Seq::<Seq<char>>::empty() =~= views(rows@));
        }
        to_strings(&rows)
    }

    /// The breakpoint list, in increasing order.
    pub fn breakpoint_lines(&self, masi: &MASIFile) -> (r: Vec<String>)
        ensures
            strings_view(r@) == bp_text(self.breaks(), offset_names(masi.label_map@)),
    {
        let mut lines: Vec<Vec<char>> = Vec::new();
        if self.breakpoints.len() == 0 {
            let mut l: Vec<char> = Vec::new();
            append_str(&mut l, "(no breakpoints)");
            lines.push(l);
            assert(views(lines@) =~= bp_text(self.breaks(), offset_names(masi.label_map@)));
            return to_strings(&lines);
        }
        let ghost labels = offset_names(masi.label_map@);
        let mut i: usize = 0;
        while i < self.breakpoints.len()
            invariant
                i <= self.breakpoints@.len(),
                labels == offset_names(masi.label_map@),
                views(lines@) == self.breakpoints@.take(i as int).map_values(|b: usize| bp_line(b, labels)),
            decreases self.breakpoints.len() - i,
        {
            let b = self.breakpoints[i];
            let mut l: Vec<char> = Vec::new();
            append_str(&mut l, "- ");
            match map_get_exec(&masi.label_map, b as u64) {
                Some(n) => {
                    append_chars(&mut l, n.as_slice());
                    append_str(&mut l, " (0x");
                    let h = hex_upper_chars(b as u64);
                    append_chars(&mut l, h.as_slice());
                    append_str(&mut l, ")");
                },
                None => {
                    append_str(&mut l, "0x");
                    let h = hex_upper_chars(b as u64);
                    append_chars(&mut l, h.as_slice());
                },
            }
            proof {
                reveal_strlit("- ");
                reveal_strlit("0x");
                reveal_strlit("- 0x");
                match map_get(labels, b as u64) {
                    Some(n) => {},
                    None => {
                        assert(l@ =~= "- 0x"@ + hex_upper(b as nat));
                    },
                }
            }
            let ghost before = views(lines@);
            let ghost lv = l@;
            lines.push(l);
            i = i + 1;
            proof {
                assert(views(lines@) =~= before.push(lv));
                assert(self.breakpoints@.take(i as int).map_values(|b: usize| bp_line(b, labels)) =~= before.push(lv));
            }
        }
        assert(self.breakpoints@.take(i as int) =~= self.breakpoints@);
        to_strings(&lines)
    }
}

} // verus!

verus! {

// ------------------------------------------------------------ commands

/// What one command line does: the breakpoints and the running flag
/// afterwards, the lines to show, and the decision, when the command
/// makes one.
pub struct SDebug {
    pub breaks: Seq<usize>,
    pub running: bool,
    pub out: Seq<Seq<char>>,
    pub control: Option<DebuggerControl>,
}

pub open spec fn tok_at(t: Seq<Seq<char>>, i: int) -> Option<Seq<char>> {
    if 0 <= i < t.len() {
        Some(t[i])
    } else {
        None
    }
}

/// A count argument: a decimal number, or `dflt` when it is missing or
/// not a number.
pub open spec fn count_arg(t: Option<Seq<char>>, dflt: usize) -> usize {
    match t {
        Some(x) => match spec_parse_usize(x, 10) {
            Some(v) => v,
            None => dflt,
        },
        None => dflt,
    }
}

pub open spec fn help_text() -> Seq<char> {
    "Commands: step(s), continue(c), break(b) <addr|label>, delete(db) <addr|label>, info breakpoints, regs, x <addr> [len], disas [addr] [count], quit(q)"@
}

pub open spec fn say(bps: Seq<usize>, running: bool, out: Seq<Seq<char>>) -> SDebug {
    SDebug { breaks: bps, running, out, control: None }
}

/// One command line typed at the debugger's prompt while stopped before
/// the instruction at `pc`. An empty line steps; `c` runs on to the next
/// breakpoint; `s` steps; `q` ends the run; `b` and `db` set and delete a
/// breakpoint; `info b` lists them; `regs`, `x` and `disas` show
/// registers, memory and code; `help` lists the commands.
pub open spec fn command_spec(
    bps: Seq<usize>,
    running: bool,
    m: MASIFile,
    s: SState,
    pc: usize,
    line: Seq<char>,
) -> SDebug {
    let labels = offset_names(m.label_map@);
    let data = offset_names(m.data_label_map@);
    let t = trim(line);
    if t.len() == 0 {
        SDebug { breaks: bps, running: false, out: seq![], control: Some(DebuggerControl::Continue) }
    } else {
        let toks = split_ws(t);
        let cmd = match tok_at(toks, 0) {
            Some(c) => c,
            None => seq![],
        };
        let a1 = tok_at(toks, 1);
        let a2 = tok_at(toks, 2);
        if cmd == "c"@ || cmd == "cont"@ || cmd == "continue"@ {
            SDebug { breaks: bps, running: true, out: seq![], control: Some(DebuggerControl::Continue) }
        } else if cmd == "s"@ || cmd == "si"@ || cmd == "step"@ {
            SDebug { breaks: bps, running: false, out: seq![], control: Some(DebuggerControl::Continue) }
        } else if cmd == "q"@ || cmd == "quit"@ || cmd == "exit"@ {
            SDebug { breaks: bps, running, out: seq![], control: Some(DebuggerControl::Exit) }
        } else if cmd == "b"@ || cmd == "break"@ {
            match a1 {
                None => say(bps, running, seq!["usage: break <addr|label>"@]),
                Some(x) => match addr_of(labels, x) {
                    Some(a) => say(bp_insert(bps, a), running, seq!["Breakpoint set at 0x"@ + hex_upper(a as nat)]),
                    None => say(bps, running, seq!["Unknown address/label: "@ + x]),
                },
            }
        } else if cmd == "db"@ || cmd == "del"@ || cmd == "delete"@ {
            match a1 {
                None => say(bps, running, seq!["usage: delete <addr|label>"@]),
                Some(x) => match addr_of(labels, x) {
                    Some(a) => say(
                        bp_remove(bps, a),
                        running,
                        seq!["Deleted breakpoint at 0x"@ + hex_upper(a as nat)],
                    ),
                    None => say(bps, running, seq!["Unknown address/label: "@ + x]),
                },
            }
        } else if cmd == "info"@ {
            let sub = match a1 {
                Some(x) => x,
                None => seq![],
            };
            if sub == "b"@ || sub == "break"@ || sub == "breakpoints"@ {
                say(bps, running, bp_text(bps, labels))
            } else {
                say(bps, running, seq!["usage: info breakpoints"@])
            }
        } else if cmd == "regs"@ || cmd == "registers"@ {
            say(bps, running, regs_text(s))
        } else if cmd == "x"@ {
            match a1 {
                None => say(bps, running, seq!["usage: x <addr|label> [len]"@]),
                Some(x) => match addr_of(labels, x) {
                    Some(a) => say(bps, running, mem_text(s.memory, a, count_arg(a2, 64))),
                    None => say(bps, running, seq!["Unknown address/label: "@ + x]),
                },
            }
        } else if cmd == "help"@ || cmd == "h"@ {
            say(bps, running, seq![help_text()])
        } else if cmd == "disas"@ || cmd == "u"@ {
            let a = match a1 {
                Some(x) => match addr_of(labels, x) {
                    Some(v) => v,
                    None => pc,
                },
                None => pc,
            };
            say(
                bps,
                running,
                listing(m.code@, a as int, count_arg(a2, 10) as nat, labels, data).map_values(
                    |p: (int, Seq<char>)| p.1,
                ),
            )
        } else {
            say(bps, running, seq!["unknown command: "@ + cmd + " (type 'help')"@])
        }
    }
}

/// Whether a command line asks to continue (`c`, `cont` or `continue`).
pub open spec fn is_continue(line: Seq<char>) -> bool {
    let t = trim(line);
    &&& t.len() > 0
    &&& tok_at(split_ws(t), 0) matches Some(c)
    &&& (c == "c"@ || c == "cont"@ || c == "continue"@)
}

/// After a continue command the debugger keeps its breakpoints, hands the
/// run back, and from then on stops before an instruction exactly when
/// its address is a breakpoint.
pub proof fn lemma_continue_stops_only_at_breakpoints(
    bps: Seq<usize>,
    running: bool,
    m: MASIFile,
    s: SState,
    pc: usize,
    line: Seq<char>,
    next: usize,
)
    requires
        is_continue(line),
    ensures
        ({
            let e = command_spec(bps, running, m, s, pc, line);
            &&& e.breaks == bps
            &&& e.running
            &&& e.control == Some(DebuggerControl::Continue)
            &&& e.out == Seq::<Seq<char>>::empty()
            &&& stops(e.breaks, e.running, next) == bps.contains(next)
        }),
{
}

/// Whether a command line asks to quit (`q`, `quit` or `exit`).
pub open spec fn is_quit(line: Seq<char>) -> bool {
    let t = trim(line);
    &&& t.len() > 0
    &&& tok_at(split_ws(t), 0) matches Some(c)
    &&& (c == "q"@ || c == "quit"@ || c == "exit"@)
}

/// A quit command ends the run, printing nothing and leaving the
/// breakpoints and the running state as they were.
pub proof fn lemma_quit_ends_the_run(
    bps: Seq<usize>,
    running: bool,
    m: MASIFile,
    s: SState,
    pc: usize,
    line: Seq<char>,
)
    requires
        is_quit(line),
    ensures
        ({
            let e = command_spec(bps, running, m, s, pc, line);
            &&& e.breaks == bps
            &&& e.running == running
            &&& e.control == Some(DebuggerControl::Exit)
            &&& e.out == Seq::<Seq<char>>::empty()
        }),
{
    let c = tok_at(split_ws(trim(line)), 0)->Some_0;
    reveal_strlit("q");
    reveal_strlit("quit");
    reveal_strlit("exit");
    reveal_strlit("c");
    reveal_strlit("cont");
    reveal_strlit("continue");
    reveal_strlit("s");
    reveal_strlit("si");
    reveal_strlit("step");
    assert(c != "c"@ && c != "cont"@ && c != "continue"@ && c != "s"@ && c != "si"@ && c != "step"@) by {
        if c == "q"@ {
            assert(c.len() == 1 && c[0] == 'q');
        } else if c == "quit"@ {
            assert(c.len() == 4 && c[0] == 'q');
        } else {
            assert(c.len() == 4 && c[0] == 'e');
        }
    }
}

fn count_arg_exec(toks: &Vec<Vec<char>>, i: usize, dflt: usize) -> (r: usize)
    ensures
        r == count_arg(tok_at(views(toks@), i as int), dflt),
{
    if i < toks.len() {
        match parse_usize(toks[i].as_slice(), 10) {
            Some(v) => v,
            None => dflt,
        }
    } else {
        dflt
    }
}

fn one_line(s: &str) -> (r: Vec<String>)
    ensures
        strings_view(r@) == seq![s@],
{
    let mut v: Vec<String> = Vec::new();
    v.push(chars_to_string(str_chars(s).as_slice()));
    assert(strings_view(v@) =~= seq![s@]);
    v
}

fn one_line_chars(c: Vec<char>) -> (r: Vec<String>)
    ensures
        strings_view(r@) == seq![c@],
{
    let mut v: Vec<String> = Vec::new();
    v.push(chars_to_string(c.as_slice()));
    assert(strings_view(v@) =~= seq![c@]);
    v
}

fn msg_chars(a: &str, b: &[char], c: &str) -> (r: Vec<char>)
    ensures
        r@ == a@ + b@ + c@,
{
    let mut out: Vec<char> = Vec::new();
    append_str(&mut out, a);
    append_chars(&mut out, b);
    append_str(&mut out, c);
    out
}

fn unknown_chars(b: &[char]) -> (r: Vec<char>)
    ensures
        r@ == "Unknown address/label: "@ + b@,
{
    let mut out: Vec<char> = Vec::new();
    append_str(&mut out, "Unknown address/label: ");
    append_chars(&mut out, b);
    out
}

fn addr_msg(a: &str, v: usize) -> (r: Vec<String>)
    ensures
        strings_view(r@) == seq![a@ + hex_upper(v as nat)],
{
    let h = hex_upper_chars(v as u64);
    let mut out: Vec<char> = Vec::new();
    append_str(&mut out, a);
    append_chars(&mut out, h.as_slice());
    one_line_chars(out)
}

impl CliDebugger {
    /// Sets a breakpoint at `a`.
    pub fn set_breakpoint(&mut self, a: usize)
        ensures
            final(self).breaks() == bp_insert(old(self).breaks(), a),
            final(self).is_running() == old(self).is_running(),
    {
        proof {
            use_type_invariant(&*self);
            lemma_bp_insert(self.breakpoints@, a);
        }
        let v = bp_insert_exec(&self.breakpoints, a);
        self.breakpoints = v;
    }

    /// Deletes the breakpoint at `a`, if there is one.
    pub fn delete_breakpoint(&mut self, a: usize)
        ensures
            final(self).breaks() == bp_remove(old(self).breaks(), a),
            final(self).is_running() == old(self).is_running(),
    {
        proof {
            use_type_invariant(&*self);
            lemma_bp_remove(self.breakpoints@, a);
        }
        let v = bp_remove_exec(&self.breakpoints, a);
        self.breakpoints = v;
    }

    /// Reads an address: `0x` and hex digits, decimal digits, or a code
    /// label's name.
    pub fn parse_addr(&self, masi: &MASIFile, tok: &str) -> (r: Option<usize>)
        ensures
            r == addr_of(offset_names(masi.label_map@), tok@),
    {
        let t = str_chars(tok);
        addr_of_exec(masi, t.as_slice())
    }

    /// Carries out one command line typed while stopped before the
    /// instruction at `pc`: the lines to show, and `Continue` or `Exit`
    /// when the command ends the stop.
    pub fn command(&mut self, masi: &MASIFile, state: &State, pc: usize, line: &str) -> (r: (
        Vec<String>,
        Option<DebuggerControl>,
    ))
        ensures
            ({
                let e = command_spec(
                    old(self).breaks(),
                    old(self).is_running(),
                    *masi,
                    state_view(*state),
                    pc,
                    line@,
                );
                &&& final(self).breaks() == e.breaks
                &&& final(self).is_running() == e.running
                &&& strings_view(r.0@) == e.out
                &&& r.1 == e.control
            }),
    {
        proof {
            use_type_invariant(&*self);
        }
        let ghost labels = offset_names(masi.label_map@);
        let lc = str_chars(line);
        let t = trim_chars(lc.as_slice());
        if t.len() == 0 {
            self.running = false;
            return (Vec::new(), Some(DebuggerControl::Continue));
        }
        let toks = split_ws_chars(t.as_slice());
        let ghost tv = views(toks@);
        let cmd: Vec<char> = if toks.len() > 0 { copy_chars(toks[0].as_slice()) } else { Vec::new() };
        assert(cmd@ == match tok_at(tv, 0) { Some(c) => c, None => Seq::<char>::empty() });
        let c = cmd.as_slice();
        if eq_str(c, "c") || eq_str(c, "cont") || eq_str(c, "continue") {
            self.running = true;
            return (Vec::new(), Some(DebuggerControl::Continue));
        }
        if eq_str(c, "s") || eq_str(c, "si") || eq_str(c, "step") {
            self.running = false;
            return (Vec::new(), Some(DebuggerControl::Continue));
        }
        if eq_str(c, "q") || eq_str(c, "quit") || eq_str(c, "exit") {
            return (Vec::new(), Some(DebuggerControl::Exit));
        }
        if eq_str(c, "b") || eq_str(c, "break") {
            if toks.len() < 2 {
                return (one_line("usage: break <addr|label>"), None);
            }
            match addr_of_exec(masi, toks[1].as_slice()) {
                Some(a) => {
                    self.set_breakpoint(a);
                    return (addr_msg("Breakpoint set at 0x", a), None);
                },
                None => {
                    return (one_line_chars(unknown_chars(toks[1].as_slice())), None);
                },
            }
        }
        if eq_str(c, "db") || eq_str(c, "del") || eq_str(c, "delete") {
            if toks.len() < 2 {
                return (one_line("usage: delete <addr|label>"), None);
            }
            match addr_of_exec(masi, toks[1].as_slice()) {
                Some(a) => {
                    self.delete_breakpoint(a);
                    return (addr_msg("Deleted breakpoint at 0x", a), None);
                },
                None => {
                    return (one_line_chars(unknown_chars(toks[1].as_slice())), None);
                },
            }
        }
        if eq_str(c, "info") {
            let sub: Vec<char> = if toks.len() > 1 { copy_chars(toks[1].as_slice()) } else { Vec::new() };
            let sc = sub.as_slice();
            if eq_str(sc, "b") || eq_str(sc, "break") || eq_str(sc, "breakpoints") {
                return (self.breakpoint_lines(masi), None);
            }
            return (one_line("usage: info breakpoints"), None);
        }
        if eq_str(c, "regs") || eq_str(c, "registers") {
            return (self.regs(state), None);
        }
        if eq_str(c, "x") {
            if toks.len() < 2 {
                return (one_line("usage: x <addr|label> [len]"), None);
            }
            match addr_of_exec(masi, toks[1].as_slice()) {
                Some(a) => {
                    let n = count_arg_exec(&toks, 2, 64);
                    return (self.mem(state, a, n), None);
                },
                None => {
                    return (one_line_chars(unknown_chars(toks[1].as_slice())), None);
                },
            }
        }
        if eq_str(c, "help") || eq_str(c, "h") {
            return (
                one_line(
                    "Commands: step(s), continue(c), break(b) <addr|label>, delete(db) <addr|label>, info breakpoints, regs, x <addr> [len], disas [addr] [count], quit(q)",
                ),
                None,
            );
        }
        if eq_str(c, "disas") || eq_str(c, "u") {
            let a: usize = if toks.len() > 1 {
                match addr_of_exec(masi, toks[1].as_slice()) {
                    Some(v) => v,
                    None => pc,
                }
            } else {
                pc
            };
            let n = count_arg_exec(&toks, 2, 10);
            let lst = self.disassemble_from(masi, a, n);
            let mut out: Vec<String> = Vec::new();
            let mut i: usize = 0;
            while i < lst.len()
                invariant
                    i <= lst@.len(),
                    strings_view(out@) == listing_view(lst@).take(i as int).map_values(
                        |p: (int, Seq<char>)| p.1,
                    ),
                decreases lst.len() - i,
            {
                let s = chars_to_string(str_chars(lst[i].1.as_str()).as_slice());
                let ghost before = strings_view(out@);
                out.push(s);
                i = i + 1;
                proof {
                    assert(strings_view(out@) =~= before.push(lst@[i - 1].1@));
                    assert(listing_view(lst@).take(i as int).map_values(|p: (int, Seq<char>)| p.1) =~= before.push(
                        lst@[i - 1].1@,
                    ));
                }
            }
            assert(listing_view(lst@).take(i as int) =~= listing_view(lst@));
            return (out, None);
        }
        (one_line_chars(msg_chars("unknown command: ", c, " (type 'help')")), None)
    }
}

} // verus!
