//! The native functions built into the VM that work on its state alone:
//! `tool.set_rax`, the `Memory` functions, which grow and shrink the flat
//! memory and keep a table of the blocks they handed out, and the two
//! `Raylib` pixel-buffer operations, which paint RGBA bytes into memory.
use vstd::prelude::*;
use vstd::utf8::encode_utf8;
use crate::vm::{SState, State, state_view, reg_or0, reg_or0_exec, strings_view, reg_val, store_bytes};
use crate::register_map::{spec_reg_id, reg_id};
use crate::interpreter::{MniCtx, AllocRegistry};
use crate::debugger::{tok_at, spec_parse_usize};
use crate::number::{spec_parse_i64, spec_parse_u64, parse_i64_dec, parse_u64_radix};
use crate::layout::{zeros, push_zeros};
use crate::text::{
    str_chars, utf8_bytes, eq_str, trim, trim_chars, trim_set_start, starts_with, starts_with_str, slice_chars,
    upper_text, upper_chars,
};
use crate::vm::overwrite;

verus! {

pub open spec fn with_reg(s: SState, id: u16, v: u64) -> SState {
    SState { regs: s.regs.insert(id, v), ..s }
}

pub open spec fn with_memory(s: SState, m: Seq<u8>) -> SState {
    SState { memory: m, ..s }
}

/// `tool.set_rax n`: `RAX` takes the signed decimal `n`.
pub open spec fn set_rax_spec(s: SState, args: Seq<Seq<char>>) -> SState {
    match tok_at(args, 0) {
        Some(a) => match spec_parse_i64(a) {
            Some(v) => with_reg(s, reg_or0("RAX"@), v as u64),
            None => s,
        },
        None => s,
    }
}

/// The size argument of `Memory.allocate`, when it is a number.
pub open spec fn alloc_size(args: Seq<Seq<char>>) -> Option<usize> {
    match tok_at(args, 0) {
        Some(a) => spec_parse_usize(a, 10),
        None => None,
    }
}

/// `Memory.allocate size`: the memory grows by `size` zero bytes, the new
/// block is recorded, and its base goes to `R1`.
pub open spec fn allocate_spec(s: SState, al: Map<usize, usize>, args: Seq<Seq<char>>) -> (SState, Map<usize, usize>) {
    match alloc_size(args) {
        Some(sz) => {
            let base = s.memory.len();
            (with_reg(with_memory(s, s.memory + zeros(sz as nat)), reg_or0("R1"@), base as u64), al.insert(base as usize, sz))
        },
        None => (s, al),
    }
}

/// `Memory.free ptr`: the block's record is dropped; the memory stays.
pub open spec fn free_spec(al: Map<usize, usize>, args: Seq<Seq<char>>) -> Map<usize, usize> {
    match alloc_size(args) {
        Some(p) => al.remove(p),
        None => al,
    }
}

/// The bytes `Memory.write_bytes` stores: the string's UTF-8 and a zero.
pub open spec fn string_bytes(t: Seq<char>) -> Seq<u8> {
    encode_utf8(t) + seq![0u8]
}

/// `mem` grown with zeros to at least `n` bytes.
pub open spec fn grown(mem: Seq<u8>, n: int) -> Seq<u8> {
    if n > mem.len() {
        mem + zeros((n - mem.len()) as nat)
    } else {
        mem
    }
}

/// `Memory.write_bytes dest text`: the text and a zero byte are stored at
/// `dest` (the memory grows to hold them), recorded as a block, and their
/// count goes to `RAX`.
pub open spec fn write_bytes_spec(s: SState, al: Map<usize, usize>, args: Seq<Seq<char>>) -> (SState, Map<usize, usize>) {
    if args.len() >= 2 {
        match spec_parse_usize(args[0], 10) {
            Some(dest) => {
                let b = string_bytes(args[1]);
                let g = grown(s.memory, dest + b.len());
                let m = g.take(dest as int) + b + g.skip(dest + b.len());
                (with_reg(with_memory(s, m), reg_or0("RAX"@), b.len() as u64), al.insert(dest, b.len() as usize))
            },
            None => (s, al),
        }
    } else {
        (s, al)
    }
}

/// `Memory.realloc ptr size` on a recorded block: a block at the end of
/// memory is resized in place; another one is copied to a new block at
/// the end. The new base goes to `RAX`, or `u64::MAX` when `ptr` is not
/// a recorded block or an argument is not a number.
pub open spec fn realloc_spec(s: SState, al: Map<usize, usize>, args: Seq<Seq<char>>) -> (SState, Map<usize, usize>) {
    let rax = reg_or0("RAX"@);
    let fail = (with_reg(s, rax, u64::MAX), al);
    if args.len() >= 2 {
        match (spec_parse_usize(args[0], 10), spec_parse_usize(args[1], 10)) {
            (Some(ptr), Some(new_sz)) => if al.contains_key(ptr) {
                let old_sz = al[ptr];
                let mem = s.memory;
                if ptr + old_sz == mem.len() {
                    if new_sz <= old_sz {
                        (with_reg(with_memory(s, mem.take(ptr + new_sz)), rax, ptr as u64), al.insert(ptr, new_sz))
                    } else {
                        (
                            with_reg(with_memory(s, mem + zeros((ptr + new_sz - mem.len()) as nat)), rax, ptr as u64),
                            al.insert(ptr, new_sz),
                        )
                    }
                } else {
                    let base = mem.len();
                    let n = if old_sz < new_sz {
                        old_sz
                    } else {
                        new_sz
                    };
                    let m = mem + mem.subrange(ptr as int, ptr + n) + zeros((new_sz - n) as nat);
                    (with_reg(with_memory(s, m), rax, base as u64), al.insert(base as usize, new_sz).remove(ptr))
                }
            } else {
                fail
            },
            _ => fail,
        }
    } else {
        fail
    }
}

/// The inputs on which `Memory.realloc` can do its work: the grown
/// memory fits the address space, and a block that moves lies within the
/// memory.
pub open spec fn realloc_fits(s: SState, al: Map<usize, usize>, args: Seq<Seq<char>>) -> bool {
    args.len() >= 2 ==> match (spec_parse_usize(args[0], 10), spec_parse_usize(args[1], 10)) {
        (Some(ptr), Some(new_sz)) => al.contains_key(ptr) ==> {
            let old_sz = al[ptr];
            let len = s.memory.len();
            if ptr + old_sz == len {
                ptr + new_sz <= usize::MAX
            } else {
                &&& len + new_sz <= usize::MAX
                &&& ptr + (if old_sz < new_sz { old_sz } else { new_sz }) <= len
            }
        },
        _ => true,
    }
}

fn arg_chars(ctx: &MniCtx, i: usize) -> (r: Vec<char>)
    requires
        i < ctx.args@.len(),
    ensures
        r@ == ctx.args@[i as int]@,
{
    str_chars(ctx.args[i].as_str())
}

fn parse_usize_dec(s: &[char]) -> (r: Option<usize>)
    ensures
        r == spec_parse_usize(s@, 10),
{
    match parse_u64_radix(s, 10) {
        Some(v) => {
            if v <= usize::MAX as u64 {
                Some(v as usize)
            } else {
                None
            }
        },
        None => None,
    }
}

fn extend_bytes(mem: &mut Vec<u8>, b: &[u8])
    ensures
        final(mem)@ == old(mem)@ + b@,
{
    let ghost m0 = mem@;
    let mut k: usize = 0;
    while k < b.len()
        invariant
            k <= b@.len(),
            mem@ == m0 + b@.take(k as int),
        decreases b.len() - k,
    {
        mem.push(b[k]);
        k = k + 1;
        assert(mem@ =~= m0 + b@.take(k as int));
    }
    assert(b@.take(k as int) =~= b@);
}

/// `tool.set_rax n`.
pub fn set_rax(ctx: &mut MniCtx)
    ensures
        state_view(final(ctx).state) == set_rax_spec(state_view(old(ctx).state), strings_view(old(ctx).args@)),
        final(ctx).args == old(ctx).args,
{
    if ctx.args.len() == 0 {
        return;
    }
    let a = arg_chars(ctx, 0);
    match parse_i64_dec(a.as_slice()) {
        Some(v) => {
            let rax = reg_or0_exec("RAX");
            ctx.state.set_reg(rax, v as u64);
        },
        None => {},
    }
}

/// `Memory.allocate size`.
pub fn allocate(ctx: &mut MniCtx, allocs: &mut AllocRegistry)
    requires
        alloc_size(strings_view(old(ctx).args@)) matches Some(sz) ==> old(ctx).state.memory@.len() + sz
            <= usize::MAX,
    ensures
        (state_view(final(ctx).state), final(allocs).map@) == allocate_spec(
            state_view(old(ctx).state),
            old(allocs).map@,
            strings_view(old(ctx).args@),
        ),
        final(ctx).args == old(ctx).args,
{
    if ctx.args.len() == 0 {
        return;
    }
    let a = arg_chars(ctx, 0);
    match parse_usize_dec(a.as_slice()) {
        Some(sz) => {
            let base = ctx.state.memory.len();
            push_zeros(&mut ctx.state.memory, sz);
            allocs.insert(base, sz);
            let r1 = reg_or0_exec("R1");
            ctx.state.set_reg(r1, base as u64);
        },
        None => {},
    }
}

/// `Memory.free ptr`.
pub fn free(ctx: &MniCtx, allocs: &mut AllocRegistry)
    ensures
        final(allocs).map@ == free_spec(old(allocs).map@, strings_view(ctx.args@)),
{
    if ctx.args.len() == 0 {
        return;
    }
    let a = arg_chars(ctx, 0);
    match parse_usize_dec(a.as_slice()) {
        Some(p) => {
            allocs.remove(p);
        },
        None => {},
    }
}

/// `Memory.write_bytes dest text`.
pub fn write_bytes(ctx: &mut MniCtx, allocs: &mut AllocRegistry)
    requires
        old(ctx).args@.len() >= 2 ==> (spec_parse_usize(old(ctx).args@[0]@, 10) matches Some(dest) ==> dest
            + string_bytes(old(ctx).args@[1]@).len() <= usize::MAX),
    ensures
        (state_view(final(ctx).state), final(allocs).map@) == write_bytes_spec(
            state_view(old(ctx).state),
            old(allocs).map@,
            strings_view(old(ctx).args@),
        ),
        final(ctx).args == old(ctx).args,
{
    if ctx.args.len() < 2 {
        return;
    }
    let a = arg_chars(ctx, 0);
    match parse_usize_dec(a.as_slice()) {
        Some(dest) => {
            let t = arg_chars(ctx, 1);
            let mut bytes = utf8_bytes(t.as_slice());
            bytes.push(0u8);
            assert(bytes@ =~= string_bytes(t@));
            assert(t@ == strings_view(ctx.args@)[1]);
            assert(a@ == strings_view(ctx.args@)[0]);
            let n = bytes.len();
            let ghost m0 = ctx.state.memory@;
            if dest + n > ctx.state.memory.len() {
                let extra = dest + n - ctx.state.memory.len();
                push_zeros(&mut ctx.state.memory, extra);
            }
            assert(ctx.state.memory@ == crate::natives::grown(m0, dest + n));
            overwrite(&mut ctx.state.memory, dest, &bytes);
            let rax = reg_or0_exec("RAX");
            ctx.state.set_reg(rax, n as u64);
            allocs.insert(dest, n);
        },
        None => {},
    }
}

/// `Memory.realloc ptr size`.
pub fn realloc(ctx: &mut MniCtx, allocs: &mut AllocRegistry)
    requires
        realloc_fits(state_view(old(ctx).state), old(allocs).map@, strings_view(old(ctx).args@)),
    ensures
        (state_view(final(ctx).state), final(allocs).map@) == realloc_spec(
            state_view(old(ctx).state),
            old(allocs).map@,
            strings_view(old(ctx).args@),
        ),
        final(ctx).args == old(ctx).args,
{
    let rax = reg_or0_exec("RAX");
    if ctx.args.len() >= 2 {
        let a = arg_chars(ctx, 0);
        let b = arg_chars(ctx, 1);
        match (parse_usize_dec(a.as_slice()), parse_usize_dec(b.as_slice())) {
            (Some(ptr), Some(new_sz)) => {
                match allocs.get(ptr) {
                    Some(old_sz) => {
                        let len = ctx.state.memory.len();
                        if ptr <= len && old_sz == len - ptr {
                            if new_sz <= old_sz {
                                ctx.state.memory.truncate(ptr + new_sz);
                            } else {
                                push_zeros(&mut ctx.state.memory, ptr + new_sz - len);
                            }
                            allocs.insert(ptr, new_sz);
                            ctx.state.set_reg(rax, ptr as u64);
                            return;
                        } else {
                            let base = len;
                            let n = if old_sz < new_sz { old_sz } else { new_sz };
                            let temp = crate::le::copy_bytes(ctx.state.memory.as_slice(), ptr, ptr + n);
                            extend_bytes(&mut ctx.state.memory, temp.as_slice());
                            push_zeros(&mut ctx.state.memory, new_sz - n);
                            allocs.insert(base, new_sz);
                            allocs.remove(ptr);
                            ctx.state.set_reg(rax, base as u64);
                            return;
                        }
                    },
                    None => {},
                }
            },
            _ => {},
        }
    }
    ctx.state.set_reg(rax, u64::MAX);
}

} // verus!

verus! {

/// The natives built into the VM that work on its state alone.
#[derive(Clone, Copy, PartialEq, Eq, Structural, Debug)]
pub enum Native {
    SetRax,
    Allocate,
    Free,
    WriteBytes,
    Realloc,
    SetPixel,
    ClearBuffer,
}

/// The built-in native registered under a (trimmed, lower-case) module
/// and function name.
pub open spec fn native_named(m: Seq<char>, f: Seq<char>) -> Option<Native> {
    if m == "tool"@ && f == "set_rax"@ {
        Some(Native::SetRax)
    } else if m == "memory"@ && f == "allocate"@ {
        Some(Native::Allocate)
    } else if m == "memory"@ && f == "free"@ {
        Some(Native::Free)
    } else if m == "memory"@ && f == "write_bytes"@ {
        Some(Native::WriteBytes)
    } else if m == "memory"@ && f == "realloc"@ {
        Some(Native::Realloc)
    } else if m == "raylib"@ && f == "set_pixel"@ {
        Some(Native::SetPixel)
    } else if m == "raylib"@ && f == "clear_buffer"@ {
        Some(Native::ClearBuffer)
    } else {
        None
    }
}

pub fn builtin_native(module: &str, function: &str) -> (r: Option<Native>)
    ensures
        r == native_named(module@, function@),
{
    let m = str_chars(module);
    let f = str_chars(function);
    let mc = m.as_slice();
    let fc = f.as_slice();
    if eq_str(mc, "tool") && eq_str(fc, "set_rax") {
        Some(Native::SetRax)
    } else if eq_str(mc, "memory") && eq_str(fc, "allocate") {
        Some(Native::Allocate)
    } else if eq_str(mc, "memory") && eq_str(fc, "free") {
        Some(Native::Free)
    } else if eq_str(mc, "memory") && eq_str(fc, "write_bytes") {
        Some(Native::WriteBytes)
    } else if eq_str(mc, "memory") && eq_str(fc, "realloc") {
        Some(Native::Realloc)
    } else if eq_str(mc, "raylib") && eq_str(fc, "set_pixel") {
        Some(Native::SetPixel)
    } else if eq_str(mc, "raylib") && eq_str(fc, "clear_buffer") {
        Some(Native::ClearBuffer)
    } else {
        None
    }
}

/// Whether a native can do its work on these inputs without outgrowing
/// the address space or reading past the memory.
pub open spec fn native_fits(n: Native, s: SState, al: Map<usize, usize>, args: Seq<Seq<char>>) -> bool {
    match n {
        Native::Allocate => alloc_size(args) matches Some(sz) ==> s.memory.len() + sz <= usize::MAX,
        Native::WriteBytes => args.len() >= 2 ==> (spec_parse_usize(args[0], 10) matches Some(dest) ==> dest
            + string_bytes(args[1]).len() <= usize::MAX),
        Native::Realloc => realloc_fits(s, al, args),
        Native::SetPixel => set_pixel_fits(s, args),
        Native::ClearBuffer => clear_buffer_fits(s, args),
        _ => true,
    }
}

/// What a native does to the VM state and the block table.
pub open spec fn native_spec(n: Native, s: SState, al: Map<usize, usize>, args: Seq<Seq<char>>) -> (SState, Map<
    usize,
    usize,
>) {
    match n {
        Native::SetRax => (set_rax_spec(s, args), al),
        Native::Allocate => allocate_spec(s, al, args),
        Native::Free => (s, free_spec(al, args)),
        Native::WriteBytes => write_bytes_spec(s, al, args),
        Native::Realloc => realloc_spec(s, al, args),
        Native::SetPixel => (set_pixel_native(s, args), al),
        Native::ClearBuffer => (clear_buffer_native(s, args), al),
    }
}

/// Whether `call_native` can run `n` here.
pub fn native_fits_exec(n: Native, ctx: &MniCtx, allocs: &AllocRegistry) -> (r: bool)
    ensures
        r == native_fits(n, state_view(ctx.state), allocs.map@, strings_view(ctx.args@)),
{
    let len = ctx.state.memory.len();
    match n {
        Native::Allocate => {
            if ctx.args.len() == 0 {
                return true;
            }
            let a = arg_chars(ctx, 0);
            match parse_usize_dec(a.as_slice()) {
                Some(sz) => sz <= usize::MAX - len,
                None => true,
            }
        },
        Native::WriteBytes => {
            if ctx.args.len() < 2 {
                return true;
            }
            let a = arg_chars(ctx, 0);
            match parse_usize_dec(a.as_slice()) {
                Some(dest) => {
                    let t = arg_chars(ctx, 1);
                    let mut bytes = utf8_bytes(t.as_slice());
                    bytes.push(0u8);
                    assert(bytes@ =~= string_bytes(t@));
                    assert(t@ == strings_view(ctx.args@)[1]);
                    assert(a@ == strings_view(ctx.args@)[0]);
                    bytes.len() <= usize::MAX - dest
                },
                None => true,
            }
        },
        Native::Realloc => {
            if ctx.args.len() < 2 {
                return true;
            }
            let a = arg_chars(ctx, 0);
            let b = arg_chars(ctx, 1);
            match (parse_usize_dec(a.as_slice()), parse_usize_dec(b.as_slice())) {
                (Some(ptr), Some(new_sz)) => match allocs.get(ptr) {
                    Some(old_sz) => {
                        if ptr <= len && old_sz == len - ptr {
                            new_sz <= usize::MAX - ptr
                        } else {
                            let n = if old_sz < new_sz { old_sz } else { new_sz };
                            new_sz <= usize::MAX - len && ptr <= len && n <= len - ptr
                        }
                    },
                    None => true,
                },
                _ => true,
            }
        },
        Native::SetPixel => set_pixel_fits_exec(ctx),
        Native::ClearBuffer => clear_buffer_fits_exec(ctx),
        _ => true,
    }
}

/// Runs a built-in native on the VM state and the block table.
pub fn call_native(n: Native, ctx: &mut MniCtx, allocs: &mut AllocRegistry)
    requires
        native_fits(n, state_view(old(ctx).state), old(allocs).map@, strings_view(old(ctx).args@)),
    ensures
        (state_view(final(ctx).state), final(allocs).map@) == native_spec(
            n,
            state_view(old(ctx).state),
            old(allocs).map@,
            strings_view(old(ctx).args@),
        ),
        final(ctx).args == old(ctx).args,
{
    match n {
        Native::SetRax => set_rax(ctx),
        Native::Allocate => allocate(ctx, allocs),
        Native::Free => free(ctx, allocs),
        Native::WriteBytes => write_bytes(ctx, allocs),
        Native::Realloc => realloc(ctx, allocs),
        Native::SetPixel => set_pixel(ctx),
        Native::ClearBuffer => clear_buffer(ctx),
    }
}

} // verus!

verus! {

/// Where a scripted native asks for bytes to be stored: at an address, or
/// at the address a named register holds.
pub enum StoreDest {
    Addr(u64),
    Reg(String),
}

pub enum SStoreDest {
    Addr(u64),
    Reg(Seq<char>),
}

pub open spec fn store_dest_view(d: Option<StoreDest>) -> Option<SStoreDest> {
    match d {
        Some(StoreDest::Addr(a)) => Some(SStoreDest::Addr(a)),
        Some(StoreDest::Reg(n)) => Some(SStoreDest::Reg(n@)),
        None => None,
    }
}

/// The register updates of a scripted native's reply, in order; a name
/// that is not a register is passed over.
pub open spec fn reply_regs(s: SState, regs: Seq<(Seq<char>, i64)>) -> SState
    decreases regs.len(),
{
    if regs.len() == 0 {
        s
    } else {
        let s1 = reply_regs(s, regs.drop_last());
        match spec_reg_id(regs.last().0) {
            Some(id) => with_reg(s1, id, regs.last().1 as u64),
            None => s1,
        }
    }
}

/// The store address of a reply, read after the register updates.
pub open spec fn reply_dest(s: SState, dest: Option<SStoreDest>) -> Option<u64> {
    match dest {
        Some(SStoreDest::Addr(a)) => Some(a),
        Some(SStoreDest::Reg(n)) => match spec_reg_id(n) {
            Some(id) => Some(reg_val(s.regs, id)),
            None => None,
        },
        None => None,
    }
}

/// A scripted native's reply applied to the VM state: the register
/// updates, then the payload stored at the destination (memory grows to
/// hold it) when there are both.
pub open spec fn apply_reply_spec(s: SState, regs: Seq<(Seq<char>, i64)>, dest: Option<SStoreDest>, payload: Option<
    Seq<u8>,
>) -> SState {
    let s1 = reply_regs(s, regs);
    match reply_dest(s1, dest) {
        Some(a) => match payload {
            Some(b) => with_memory(s1, store_bytes(s1.memory, a as nat, b)),
            None => s1,
        },
        None => s1,
    }
}

pub open spec fn reply_pairs_view(v: Seq<(String, i64)>) -> Seq<(Seq<char>, i64)> {
    v.map_values(|p: (String, i64)| (p.0@, p.1))
}

/// Whether storing the payload stays within the address space.
pub open spec fn reply_fits(s: SState, regs: Seq<(Seq<char>, i64)>, dest: Option<SStoreDest>, payload: Option<Seq<u8>>) -> bool {
    match reply_dest(reply_regs(s, regs), dest) {
        Some(a) => match payload {
            Some(b) => a + b.len() <= usize::MAX,
            None => true,
        },
        None => true,
    }
}

/// Applies the reply of a scripted native to the VM state.
pub fn apply_reply(st: &mut State, regs: &Vec<(String, i64)>, dest: Option<StoreDest>, payload: Option<Vec<u8>>)
    requires
        reply_fits(state_view(*old(st)), reply_pairs_view(regs@), store_dest_view(dest), match payload {
            Some(b) => Some(b@),
            None => None,
        }),
    ensures
        state_view(*final(st)) == apply_reply_spec(
            state_view(*old(st)),
            reply_pairs_view(regs@),
            store_dest_view(dest),
            match payload {
                Some(b) => Some(b@),
                None => None,
            },
        ),
{
    let ghost rv = reply_pairs_view(regs@);
    let ghost s0 = state_view(*st);
    let mut i: usize = 0;
    while i < regs.len()
        invariant
            i <= regs@.len(),
            rv == reply_pairs_view(regs@),
            state_view(*st) == reply_regs(s0, rv.take(i as int)),
        decreases regs.len() - i,
    {
        let n = str_chars(regs[i].0.as_str());
        proof {
            assert(rv.take(i + 1).drop_last() =~= rv.take(i as int));
            assert(rv.take(i + 1).last() == (regs@[i as int].0@, regs@[i as int].1));
        }
        match reg_id(n.as_slice()) {
            Some(id) => {
                st.set_reg(id, regs[i].1 as u64);
            },
            None => {},
        }
        i = i + 1;
    }
    assert(rv.take(i as int) =~= rv);
    let a: Option<u64> = match dest {
        Some(StoreDest::Addr(a)) => Some(a),
        Some(StoreDest::Reg(n)) => {
            let nc = str_chars(n.as_str());
            match reg_id(nc.as_slice()) {
                Some(id) => Some(st.reg(id)),
                None => None,
            }
        },
        None => None,
    };
    match a {
        Some(addr) => match payload {
            Some(b) => {
                st.store(addr as usize, &b);
            },
            None => {},
        },
        None => {},
    }
}

/// `a * b`, or `usize::MAX` where the product does not fit.
pub open spec fn sat_mul(a: int, b: int) -> int {
    if a * b > usize::MAX {
        usize::MAX as int
    } else {
        a * b
    }
}

/// `a + b`, or `usize::MAX` where the sum does not fit.
pub open spec fn sat_add(a: int, b: int) -> int {
    if a + b > usize::MAX {
        usize::MAX as int
    } else {
        a + b
    }
}

/// The four bytes of an RGBA colour, in that order.
pub open spec fn rgba_bytes(c: (u8, u8, u8, u8)) -> Seq<u8> {
    seq![c.0, c.1, c.2, c.3]
}

/// Where pixel (`x`, `y`) of a buffer `width` pixels wide at `base`
/// starts: `base + (y * width + x) * 4`, the products and the outer sum
/// saturating.
pub open spec fn pixel_index(base: usize, width: usize, x: usize, y: usize) -> int {
    sat_add(base as int, sat_mul(sat_mul(y as int, width as int) + x, 4))
}

/// `Raylib.set_pixel`: the pixel's four bytes take the colour, the memory
/// growing with zeros to hold them; a buffer of width zero is left alone.
pub open spec fn set_pixel_spec(mem: Seq<u8>, base: usize, width: usize, x: usize, y: usize, c: (u8, u8, u8, u8)) -> Seq<u8> {
    if width == 0 {
        mem
    } else {
        let i = pixel_index(base, width, x, y);
        let g = grown(mem, i + 4);
        g.take(i) + rgba_bytes(c) + g.skip(i + 4)
    }
}

/// `n` bytes of the colour repeated.
pub open spec fn painted(c: (u8, u8, u8, u8), n: nat) -> Seq<u8> {
    Seq::new(n, |k: int| rgba_bytes(c)[k % 4])
}

/// `Raylib.clear_buffer`: the `width * height` pixels at `base` all take
/// the colour, the memory growing with zeros to hold them; an empty
/// buffer is left alone.
pub open spec fn clear_buffer_spec(mem: Seq<u8>, base: usize, width: usize, height: usize, c: (u8, u8, u8, u8)) -> Seq<u8> {
    if width == 0 || height == 0 {
        mem
    } else {
        let n = width * height * 4;
        let g = grown(mem, base + n);
        g.take(base as int) + painted(c, n as nat) + g.skip(base + n)
    }
}

fn sat_mul_usize(a: usize, b: usize) -> (r: usize)
    ensures
        r == sat_mul(a as int, b as int),
{
    match a.checked_mul(b) {
        Some(v) => v,
        None => usize::MAX,
    }
}

fn sat_add_usize(a: usize, b: usize) -> (r: usize)
    ensures
        r == sat_add(a as int, b as int),
{
    match a.checked_add(b) {
        Some(v) => v,
        None => usize::MAX,
    }
}

fn rgba_at(c: (u8, u8, u8, u8), k: usize) -> (r: u8)
    ensures
        r == rgba_bytes(c)[(k % 4) as int],
{
    let j = k % 4;
    if j == 0 {
        c.0
    } else if j == 1 {
        c.1
    } else if j == 2 {
        c.2
    } else {
        c.3
    }
}

/// Grows `mem` with zeros to at least `n` bytes.
fn grow_to(mem: &mut Vec<u8>, n: usize)
    ensures
        final(mem)@ == grown(old(mem)@, n as int),
{
    if n > mem.len() {
        let extra = n - mem.len();
        push_zeros(mem, extra);
    }
}

/// `Raylib.set_pixel base width x y r g b a` on the VM's memory.
pub fn raylib_set_pixel(memory: &mut Vec<u8>, base: usize, width: usize, x: usize, y: usize, rgba: (u8, u8, u8, u8))
    requires
        width != 0 ==> sat_mul(y as int, width as int) + x <= usize::MAX,
        width != 0 ==> pixel_index(base, width, x, y) + 4 <= usize::MAX,
    ensures
        final(memory)@ == set_pixel_spec(old(memory)@, base, width, x, y, rgba),
{
    if width == 0 {
        return;
    }
    let row = sat_mul_usize(y, width);
    let off = sat_mul_usize(row + x, 4);
    let idx = sat_add_usize(base, off);
    let ghost m0 = memory@;
    grow_to(memory, idx + 4);
    let ghost g = memory@;
    memory.set(idx, rgba.0);
    memory.set(idx + 1, rgba.1);
    memory.set(idx + 2, rgba.2);
    memory.set(idx + 3, rgba.3);
    assert(memory@ =~= g.take(idx as int) + rgba_bytes(rgba) + g.skip(idx + 4));
}

/// `Raylib.clear_buffer base width height r g b a` on the VM's memory.
pub fn raylib_clear_buffer(memory: &mut Vec<u8>, base: usize, width: usize, height: usize, rgba: (u8, u8, u8, u8))
    requires
        base + width * height * 4 <= usize::MAX,
    ensures
        final(memory)@ == clear_buffer_spec(old(memory)@, base, width, height, rgba),
{
    if width == 0 || height == 0 {
        return;
    }
    assert(width * height <= width * height * 4) by (nonlinear_arith)
        requires
            width >= 1,
            height >= 1,
    ;
    let n = width * height * 4;
    let end = base + n;
    grow_to(memory, end);
    let ghost g = memory@;
    let mut k: usize = 0;
    while k < n
        invariant
            k <= n,
            n == width * height * 4,
            end == base + n,
            end <= g.len(),
            memory@.len() == g.len(),
            forall|i: int| 0 <= i < base ==> memory@[i] == g[i],
            forall|i: int| base <= i < base + k ==> memory@[i] == rgba_bytes(rgba)[(i - base) % 4],
            forall|i: int| base + k <= i < g.len() ==> memory@[i] == g[i],
        decreases n - k,
    {
        let b = rgba_at(rgba, k);
        memory.set(base + k, b);
        k = k + 1;
    }
    assert(memory@ =~= g.take(base as int) + painted(rgba, n as nat) + g.skip(end as int));
}

// ------------------------------------------------------------ pixel natives

/// A numeric argument of the pixel-buffer natives: a decimal number, a
/// `0x` (or `0X`) hexadecimal one, or else the value of the register it
/// names (leading `$` signs dropped, in any case), 0 when it names none.
pub open spec fn pixel_arg(s: SState, a: Seq<char>) -> u64 {
    let st = trim(a);
    match spec_parse_u64(st, 10) {
        Some(v) => v,
        None => {
            let hex = if starts_with(st, "0x"@) || starts_with(st, "0X"@) {
                spec_parse_u64(st.skip(2), 16)
            } else {
                None
            };
            match hex {
                Some(v) => v,
                None => match spec_reg_id(upper_text(trim_set_start(trim(st), seq!['$']))) {
                    Some(id) => reg_val(s.regs, id),
                    None => 0,
                },
            }
        },
    }
}

/// A colour component argument: a decimal number up to 255, else `dflt`.
pub open spec fn pixel_colour(a: Seq<char>, dflt: u8) -> u8 {
    match spec_parse_u64(trim(a), 10) {
        Some(v) => if v < 256 {
            v as u8
        } else {
            dflt
        },
        None => dflt,
    }
}

/// The colour of the arguments from `i` on: red, green and blue default
/// to 0, alpha to 255.
pub open spec fn pixel_rgba(args: Seq<Seq<char>>, i: int) -> (u8, u8, u8, u8) {
    (
        pixel_colour(args[i], 0),
        pixel_colour(args[i + 1], 0),
        pixel_colour(args[i + 2], 0),
        pixel_colour(args[i + 3], 255),
    )
}

/// `Raylib.set_pixel base width x y r g b a`: fewer than eight arguments
/// do nothing.
pub open spec fn set_pixel_native(s: SState, args: Seq<Seq<char>>) -> SState {
    if args.len() < 8 {
        s
    } else {
        with_memory(
            s,
            set_pixel_spec(
                s.memory,
                pixel_arg(s, args[0]) as usize,
                pixel_arg(s, args[1]) as usize,
                pixel_arg(s, args[2]) as usize,
                pixel_arg(s, args[3]) as usize,
                pixel_rgba(args, 4),
            ),
        )
    }
}

/// Whether `Raylib.set_pixel` stays within the address space.
pub open spec fn set_pixel_fits(s: SState, args: Seq<Seq<char>>) -> bool {
    args.len() >= 8 ==> {
        let base = pixel_arg(s, args[0]) as usize;
        let w = pixel_arg(s, args[1]) as usize;
        let x = pixel_arg(s, args[2]) as usize;
        let y = pixel_arg(s, args[3]) as usize;
        w != 0 ==> sat_mul(y as int, w as int) + x <= usize::MAX && pixel_index(base, w, x, y) + 4 <= usize::MAX
    }
}

/// `Raylib.clear_buffer base width height r g b a`: fewer than seven
/// arguments do nothing.
pub open spec fn clear_buffer_native(s: SState, args: Seq<Seq<char>>) -> SState {
    if args.len() < 7 {
        s
    } else {
        with_memory(
            s,
            clear_buffer_spec(
                s.memory,
                pixel_arg(s, args[0]) as usize,
                pixel_arg(s, args[1]) as usize,
                pixel_arg(s, args[2]) as usize,
                pixel_rgba(args, 3),
            ),
        )
    }
}

/// Whether `Raylib.clear_buffer` stays within the address space.
pub open spec fn clear_buffer_fits(s: SState, args: Seq<Seq<char>>) -> bool {
    args.len() >= 7 ==> (pixel_arg(s, args[0]) as usize) + (pixel_arg(s, args[1]) as usize) * (pixel_arg(
        s,
        args[2],
    ) as usize) * 4 <= usize::MAX
}

fn strip_dollars(s: &[char]) -> (r: Vec<char>)
    ensures
        r@ == trim_set_start(s@, seq!['$']),
{
    let mut i: usize = 0;
    assert(s@.skip(0) =~= s@);
    while i < s.len() && s[i] == '$'
        invariant
            i <= s@.len(),
            trim_set_start(s@.skip(i as int), seq!['$']) == trim_set_start(s@, seq!['$']),
        decreases s.len() - i,
    {
        assert(seq!['$'].contains(s@[i as int])) by {
            assert(seq!['$'][0] == '$');
        }
        assert(s@.skip(i as int).drop_first() =~= s@.skip(i + 1));
        i = i + 1;
    }
    if i < s.len() {
        assert(!seq!['$'].contains(s@[i as int]));
    }
    assert(s@.skip(i as int) =~= s@.subrange(i as int, s@.len() as int));
    slice_chars(s, i, s.len())
}

fn pixel_arg_exec(st: &State, a: &[char]) -> (r: u64)
    ensures
        r == pixel_arg(state_view(*st), a@),
{
    let t = trim_chars(a);
    match parse_u64_radix(t.as_slice(), 10) {
        Some(v) => v,
        None => {
            proof {
                reveal_strlit("0x");
                reveal_strlit("0X");
            }
            let hex = if starts_with_str(t.as_slice(), "0x") || starts_with_str(t.as_slice(), "0X") {
                let rest = slice_chars(t.as_slice(), 2, t.len());
                assert(rest@ =~= t@.skip(2));
                parse_u64_radix(rest.as_slice(), 16)
            } else {
                None
            };
            match hex {
                Some(v) => v,
                None => {
                    let t2 = trim_chars(t.as_slice());
                    let k = strip_dollars(t2.as_slice());
                    let u = upper_chars(k.as_slice());
                    match reg_id(u.as_slice()) {
                        Some(id) => st.reg(id),
                        None => 0,
                    }
                },
            }
        },
    }
}

fn pixel_colour_exec(a: &[char], dflt: u8) -> (r: u8)
    ensures
        r == pixel_colour(a@, dflt),
{
    let t = trim_chars(a);
    match parse_u64_radix(t.as_slice(), 10) {
        Some(v) => if v < 256 {
            v as u8
        } else {
            dflt
        },
        None => dflt,
    }
}

fn pixel_arg_at(ctx: &MniCtx, i: usize) -> (r: usize)
    requires
        i < ctx.args@.len(),
    ensures
        r == pixel_arg(state_view(ctx.state), strings_view(ctx.args@)[i as int]) as usize,
{
    let a = arg_chars(ctx, i);
    assert(strings_view(ctx.args@)[i as int] == ctx.args@[i as int]@);
    pixel_arg_exec(&ctx.state, a.as_slice()) as usize
}

fn pixel_rgba_at(ctx: &MniCtx, i: usize) -> (r: (u8, u8, u8, u8))
    requires
        i + 4 <= ctx.args.len(),
    ensures
        r == pixel_rgba(strings_view(ctx.args@), i as int),
{
    assert(forall|k: int| 0 <= k < ctx.args@.len() ==> #[trigger] strings_view(ctx.args@)[k] == ctx.args@[k]@);
    let r = pixel_colour_exec(arg_chars(ctx, i).as_slice(), 0);
    let g = pixel_colour_exec(arg_chars(ctx, i + 1).as_slice(), 0);
    let b = pixel_colour_exec(arg_chars(ctx, i + 2).as_slice(), 0);
    let a = pixel_colour_exec(arg_chars(ctx, i + 3).as_slice(), 255);
    (r, g, b, a)
}

fn set_pixel_fits_exec(ctx: &MniCtx) -> (r: bool)
    ensures
        r == set_pixel_fits(state_view(ctx.state), strings_view(ctx.args@)),
{
    if ctx.args.len() < 8 {
        return true;
    }
    let base = pixel_arg_at(ctx, 0);
    let w = pixel_arg_at(ctx, 1);
    let x = pixel_arg_at(ctx, 2);
    let y = pixel_arg_at(ctx, 3);
    if w == 0 {
        return true;
    }
    let row = sat_mul_usize(y, w);
    if x > usize::MAX - row {
        return false;
    }
    let off = sat_mul_usize(row + x, 4);
    let idx = sat_add_usize(base, off);
    idx <= usize::MAX - 4
}

fn clear_buffer_fits_exec(ctx: &MniCtx) -> (r: bool)
    ensures
        r == clear_buffer_fits(state_view(ctx.state), strings_view(ctx.args@)),
{
    if ctx.args.len() < 7 {
        return true;
    }
    let base = pixel_arg_at(ctx, 0);
    let w = pixel_arg_at(ctx, 1);
    let h = pixel_arg_at(ctx, 2);
    match w.checked_mul(h) {
        Some(a) => match a.checked_mul(4) {
            Some(n) => n <= usize::MAX - base,
            None => false,
        },
        None => {
            assert(w * h * 4 > usize::MAX) by (nonlinear_arith)
                requires
                    w * h > usize::MAX,
            ;
            false
        },
    }
}

/// `Raylib.set_pixel` on the VM state.
fn set_pixel(ctx: &mut MniCtx)
    requires
        set_pixel_fits(state_view(old(ctx).state), strings_view(old(ctx).args@)),
    ensures
        state_view(final(ctx).state) == set_pixel_native(state_view(old(ctx).state), strings_view(old(ctx).args@)),
        final(ctx).args == old(ctx).args,
{
    if ctx.args.len() < 8 {
        return;
    }
    let base = pixel_arg_at(ctx, 0);
    let w = pixel_arg_at(ctx, 1);
    let x = pixel_arg_at(ctx, 2);
    let y = pixel_arg_at(ctx, 3);
    let c = pixel_rgba_at(ctx, 4);
    raylib_set_pixel(&mut ctx.state.memory, base, w, x, y, c);
}

/// `Raylib.clear_buffer` on the VM state.
fn clear_buffer(ctx: &mut MniCtx)
    requires
        clear_buffer_fits(state_view(old(ctx).state), strings_view(old(ctx).args@)),
    ensures
        state_view(final(ctx).state) == clear_buffer_native(state_view(old(ctx).state), strings_view(old(ctx).args@)),
        final(ctx).args == old(ctx).args,
{
    if ctx.args.len() < 7 {
        return;
    }
    let base = pixel_arg_at(ctx, 0);
    let w = pixel_arg_at(ctx, 1);
    let h = pixel_arg_at(ctx, 2);
    let c = pixel_rgba_at(ctx, 3);
    raylib_clear_buffer(&mut ctx.state.memory, base, w, h, c);
}

} // verus!
