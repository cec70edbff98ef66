//! The MASI virtual machine and the entry points that run it.
pub use crate::vm::{State, Outcome, Stop, Io, FloatClass, FpOrder, Fetched};
pub use crate::debugger::CliDebugger;
use vstd::prelude::*;
use crate::text::{str_chars, chars_to_string};
use crate::fmt::{append_chars, append_str};
use crate::asm_lines::{AsmEnv, Need, SNeed, SEnv, env_view};
use crate::assembler::{AsmStep, SAsm, assemble, assemble_to_masi, step_view};
use crate::vm::{SState, state_view, strings_view, reg_val, reg_or0, reg_or0_exec};
use crate::fmt::{dec, hex_upper, zero_pad, dec_chars, hex_upper_chars, zero_pad_chars};
use crate::masi::MASIFile;

verus! {

/// Nothing supplied from outside.
pub open spec fn no_env() -> SEnv {
    SEnv { floats: seq![], files: seq![], texts: seq![] }
}

/// The result of assembling with nothing supplied from outside: a source
/// that needs a floating-point value or a binary include file is refused.
pub open spec fn compiled(a: SAsm) -> Result<Seq<u8>, Seq<char>> {
    match a {
        SAsm::Done(_, r) => r,
        SAsm::Need(SNeed::Float(t)) => Err("error: no value given for floating-point literal '"@ + t + "'"@),
        SAsm::Need(SNeed::File(p)) => Err("error: no contents given for include file '"@ + p + "'"@),
        SAsm::Need(SNeed::Text(p)) => Err("error: no text given for include file '"@ + p + "'"@),
    }
}

/// Compiles a MASM source string into MASI bytes, for sources that need
/// neither floating-point literals nor binary include files.
pub fn compile_source_to_masi_bytes(src: &str) -> (r: Result<Vec<u8>, String>)
    ensures
        match compiled(assemble(src@, no_env(), None)) {
            Ok(b) => r matches Ok(x) && x@ == b,
            Err(m) => r matches Err(e) && e@ == m,
        },
{
    let env = AsmEnv::new();
    proof {
        assert(env_view(env) == no_env());
    }
    match assemble_to_masi(src, &env) {
        AsmStep::Done(_, r) => r,
        AsmStep::Need(Need::Float(t)) => {
            let mut m: Vec<char> = Vec::new();
            append_str(&mut m, "error: no value given for floating-point literal '");
            append_chars(&mut m, t.as_slice());
            append_str(&mut m, "'");
            Err(chars_to_string(m.as_slice()))
        },
        AsmStep::Need(Need::Text(p)) => {
            let mut m: Vec<char> = Vec::new();
            append_str(&mut m, "error: no text given for include file '");
            append_chars(&mut m, p.as_slice());
            append_str(&mut m, "'");
            Err(chars_to_string(m.as_slice()))
        },
        AsmStep::Need(Need::File(p)) => {
            let mut m: Vec<char> = Vec::new();
            append_str(&mut m, "error: no contents given for include file '");
            append_chars(&mut m, p.as_slice());
            append_str(&mut m, "'");
            Err(chars_to_string(m.as_slice()))
        },
    }
}

} // verus!

verus! {

impl Default for State {
    fn default() -> (r: State)
        ensures
            state_view(r) == (SState {
                regs: Map::empty(),
                flags: (false, false, false, false),
                rip: 0,
                stack: seq![],
                memory: seq![],
                warnings: seq![],
                errors: seq![],
            }),
    {
        State::new()
    }
}

/// The state a program starts in: its data section as memory, no register
/// set, flags clear, and nothing on the stack, warned of or failed.
pub open spec fn start_state(data: Seq<u8>) -> SState {
    SState {
        regs: Map::empty(),
        flags: (false, false, false, false),
        rip: 0,
        stack: seq![],
        memory: data,
        warnings: seq![],
        errors: seq![],
    }
}

/// The state that running `masi` starts from.
pub fn program_state(masi: &MASIFile) -> (r: State)
    ensures
        state_view(r) == start_state(masi.data@),
{
    let mut r = State::new();
    r.memory = crate::le::copy_bytes(masi.data.as_slice(), 0, masi.data.len());
    assert(masi.data@.subrange(0, masi.data@.len() as int) =~= masi.data@);
    r
}

/// What a debugger decides before an instruction: go on, or end the run.
pub enum DebuggerControl {
    Continue,
    Exit,
}

/// A hook the VM calls before each instruction.
pub trait Debugger {
    fn before_execute(&mut self, masi: &MASIFile, state: &State, pc: usize, opcode: u8) -> DebuggerControl;
}

/// What a native-module function sees and may change: the VM state and
/// its string arguments.
pub struct MniCtx {
    pub state: State,
    pub args: Vec<String>,
}

/// Mnemonic of an opcode, `"?"` for an unknown one.
pub open spec fn opcode_text(op: u8) -> Seq<char> {
    if op == 0x60 {
        "MNI"@
    } else {
        match crate::disassembler::dis_name(crate::disassembler::dis_table(), op) {
            Some(n) => n,
            None => "?"@,
        }
    }
}

pub fn opcode_name(op: u8) -> (r: String)
    ensures
        r@ == opcode_text(op),
{
    let c: Vec<char> = if op == 0x60 {
        str_chars("MNI")
    } else {
        match crate::disassembler::dis_name_exec(op) {
            Some(n) => str_chars(n),
            None => str_chars("?"),
        }
    };
    chars_to_string(c.as_slice())
}

pub open spec fn tui_status_line(s: SState, pc: usize, op: u8) -> Seq<char> {
    "[DBG] RIP=0x"@ + hex_upper(s.rip as nat) + " PC="@ + dec(pc as nat) + " OPCODE=0x"@ + zero_pad(hex_upper(op as nat), 2)
}

pub open spec fn tui_names() -> Seq<Seq<char>> {
    seq!["RAX"@, "RBX"@, "RCX"@, "RDX"@, "RSP"@, "RBP"@]
}

/// `NAME=0x<hex> ` for each of the named registers.
pub open spec fn tui_regs(names: Seq<Seq<char>>, regs: Map<u16, u64>) -> Seq<char>
    decreases names.len(),
{
    if names.len() == 0 {
        seq![]
    } else {
        tui_regs(names.drop_last(), regs) + names.last() + "=0x"@ + hex_upper(reg_val(regs, reg_or0(names.last())) as nat) + " "@
    }
}

/// The key-driven debugger's decisions: `s` steps, `c` runs on without
/// stopping again, `q` ends the run.
pub struct TuiDebugger {
    pub continue_mode: bool,
}

impl TuiDebugger {
    pub fn new() -> (r: TuiDebugger)
        ensures
            !r.continue_mode,
    {
        TuiDebugger { continue_mode: false }
    }

    /// Whether the debugger stops before the next instruction.
    pub fn stops(&self) -> (r: bool)
        ensures
            r == !self.continue_mode,
    {
        !self.continue_mode
    }

    /// The decision for a key press; `None` for an unrecognized key, which steps.
    pub fn on_key(&mut self, key: char) -> (r: (DebuggerControl, bool))
        ensures
            final(self).continue_mode == (old(self).continue_mode || key == 'c'),
            (r.0 is Exit) == (key == 'q'),
            r.1 == !(key == 's' || key == 'c' || key == 'q'),
    {
        if key == 's' {
            (DebuggerControl::Continue, false)
        } else if key == 'c' {
            self.continue_mode = true;
            (DebuggerControl::Continue, false)
        } else if key == 'q' {
            (DebuggerControl::Exit, false)
        } else {
            (DebuggerControl::Continue, true)
        }
    }

    /// The status shown where the debugger stops: the instruction pointer,
    /// offset and opcode, then a few registers.
    pub fn status(&self, state: &State, pc: usize, opcode: u8) -> (r: (String, String))
        ensures
            r.0@ == tui_status_line(state_view(*state), pc, opcode),
            r.1@ == tui_regs(tui_names(), state_view(*state).regs),
    {
        let mut a: Vec<char> = Vec::new();
        append_str(&mut a, "[DBG] RIP=0x");
        append_chars(&mut a, hex_upper_chars(state.rip).as_slice());
        append_str(&mut a, " PC=");
        append_chars(&mut a, dec_chars(pc as u64).as_slice());
        append_str(&mut a, " OPCODE=0x");
        append_chars(&mut a, zero_pad_chars(hex_upper_chars(opcode as u64), 2).as_slice());
        let names: Vec<&str> = vec!["RAX", "RBX", "RCX", "RDX", "RSP", "RBP"];
        let ghost nv = names@.map_values(|n: &str| n@);
        assert(nv =~= tui_names());
        let mut b: Vec<char> = Vec::new();
        let mut i: usize = 0;
        while i < names.len()
            invariant
                i <= names@.len(),
                nv == names@.map_values(|n: &str| n@),
                b@ == tui_regs(nv.take(i as int), state.regs@),
            decreases names.len() - i,
        {
            let id = reg_or0_exec(names[i]);
            let v = state.reg(id);
            append_str(&mut b, names[i]);
            append_str(&mut b, "=0x");
            append_chars(&mut b, hex_upper_chars(v).as_slice());
            append_str(&mut b, " ");
            proof {
                assert(nv.take(i + 1).drop_last() =~= nv.take(i as int));
            }
            i = i + 1;
        }
        assert(nv.take(i as int) =~= nv);
        (chars_to_string(a.as_slice()), chars_to_string(b.as_slice()))
    }

    /// The decision for a typed line, when keys cannot be read.
    pub fn on_line(&mut self, line: &str) -> (r: DebuggerControl)
        ensures
            final(self).continue_mode == (old(self).continue_mode || crate::text::trim(line@) == "c"@),
            (r is Exit) == (crate::text::trim(line@) == "q"@ && crate::text::trim(line@) != "c"@),
    {
        let t = crate::text::trim_chars(str_chars(line).as_slice());
        if crate::text::eq_str(t.as_slice(), "c") {
            self.continue_mode = true;
            return DebuggerControl::Continue;
        }
        if crate::text::eq_str(t.as_slice(), "q") {
            return DebuggerControl::Exit;
        }
        DebuggerControl::Continue
    }
}

/// The memory pane's window: bytes per row, rows, first and past-the-last
/// offset shown.
pub open spec fn memory_window_spec(mem_len: usize, width: usize, height: usize, offset: usize) -> (usize, usize, usize, usize) {
    let avail: int = if width >= 15 { width - 15 } else { 0 };
    let bpr: int = if avail / 4 < 32 { if avail / 4 > 4 { avail / 4 } else { 4 } } else { 32 };
    let rows: int = if height < 16 { if height > 3 { height as int } else { 3 } } else { 16 };
    let span = bpr * rows;
    let max_start: int = if mem_len > span { mem_len - span } else { 0 };
    let start: int = if offset < max_start { offset as int } else { max_start };
    let end: int = if mem_len < start + span { mem_len as int } else { start + span };
    (bpr as usize, rows as usize, start as usize, end as usize)
}

/// The terminal-UI debugger's state: whether it runs on, where its memory
/// view starts, which pane has the focus.
pub struct RatatuiDebuggerInner {
    pub continue_mode: bool,
    pub memory_offset: usize,
    pub focused_pane: u8,
}

/// A key of the terminal-UI debugger.
pub enum UiKey {
    Char(char),
    Up,
    Down,
    Left,
    Right,
    PageUp,
    PageDown,
    Other,
}

/// What a key asks of the terminal-UI debugger.
pub enum UiAction {
    Step,
    Continue,
    Quit,
    Redraw,
    Nothing,
}

impl RatatuiDebuggerInner {
    pub fn new() -> (r: RatatuiDebuggerInner)
        ensures
            !r.continue_mode,
            r.memory_offset == 0,
            r.focused_pane == 2,
    {
        RatatuiDebuggerInner { continue_mode: false, memory_offset: 0, focused_pane: 2 }
    }

    /// The memory pane's window for a pane `width` by `height` cells: bytes
    /// per row (4 to 32, four cells each after a 15-cell address column),
    /// rows (3 to 16), and the first and past-the-last offset shown, the
    /// view's offset held back so that the window stays within memory.
    pub fn memory_window(&self, mem_len: usize, width: usize, height: usize) -> (r: (usize, usize, usize, usize))
        ensures
            r == memory_window_spec(mem_len, width, height, self.memory_offset),
    {
        let avail = if width >= 15 { width - 15 } else { 0 };
        let per = if avail / 4 < 32 { avail / 4 } else { 32 };
        let bpr = if per > 4 { per } else { 4 };
        let h = if height < 16 { height } else { 16 };
        let rows = if h > 3 { h } else { 3 };
        assert(bpr * rows <= 512) by (nonlinear_arith)
            requires
                bpr <= 32,
                rows <= 16,
        ;
        let span = bpr * rows;
        let max_start = if mem_len > span { mem_len - span } else { 0 };
        let start = if self.memory_offset < max_start { self.memory_offset } else { max_start };
        let end = if mem_len < start + span { mem_len } else { start + span };
        (bpr, rows, start, end)
    }

    /// Handles a key: `s`, `c`, `q` end the wait; `d` redraws; `1`..`3`
    /// focus a pane; with the memory pane focused, the arrows (or `8`, `4`,
    /// `6`) and page keys move the memory view by a row, a byte or eight rows.
    pub fn on_key(&mut self, key: UiKey) -> (r: UiAction)
        ensures
            final(self).continue_mode == (old(self).continue_mode || key == UiKey::Char('c')),
            key == UiKey::Char('s') ==> r == UiAction::Step,
            key == UiKey::Char('c') ==> r == UiAction::Continue,
            key == UiKey::Char('q') ==> r == UiAction::Quit,
            (key == UiKey::Char('1') || key == UiKey::Char('2') || key == UiKey::Char('3')) ==> r == UiAction::Redraw
                && final(self).focused_pane == (if key == UiKey::Char('1') { 1u8 } else if key == UiKey::Char('2') { 2u8 } else { 3u8 }),
            !(key == UiKey::Char('1') || key == UiKey::Char('2') || key == UiKey::Char('3')) ==> final(self).focused_pane == old(self).focused_pane,
            ({
                let m = old(self).memory_offset as int;
                let focus = old(self).focused_pane == 2;
                final(self).memory_offset == if !focus {
                    m
                } else if key == UiKey::Char('8') || key == UiKey::Up {
                    if m >= 16 { m - 16 } else { 0 }
                } else if key == UiKey::Down {
                    if m + 16 <= usize::MAX { m + 16 } else { usize::MAX as int }
                } else if key == UiKey::Char('4') || key == UiKey::Left {
                    if m >= 1 { m - 1 } else { 0 }
                } else if key == UiKey::Char('6') || key == UiKey::Right {
                    if m + 1 <= usize::MAX { m + 1 } else { usize::MAX as int }
                } else if key == UiKey::PageUp {
                    if m >= 128 { m - 128 } else { 0 }
                } else if key == UiKey::PageDown {
                    if m + 128 <= usize::MAX { m + 128 } else { usize::MAX as int }
                } else {
                    m
                }
            }),
    {
        let focus = self.focused_pane == 2;
        match key {
            UiKey::Char('s') => UiAction::Step,
            UiKey::Char('c') => {
                self.continue_mode = true;
                UiAction::Continue
            },
            UiKey::Char('q') => UiAction::Quit,
            UiKey::Char('d') => UiAction::Redraw,
            UiKey::Char('1') => {
                self.focused_pane = 1;
                UiAction::Redraw
            },
            UiKey::Char('2') => {
                self.focused_pane = 2;
                UiAction::Redraw
            },
            UiKey::Char('3') => {
                self.focused_pane = 3;
                UiAction::Redraw
            },
            UiKey::Char('8') | UiKey::Up => {
                if focus {
                    self.memory_offset = self.memory_offset.saturating_sub(16);
                    UiAction::Redraw
                } else {
                    UiAction::Nothing
                }
            },
            UiKey::Down => {
                if focus {
                    self.memory_offset = self.memory_offset.saturating_add(16);
                    UiAction::Redraw
                } else {
                    UiAction::Nothing
                }
            },
            UiKey::Char('4') | UiKey::Left => {
                if focus {
                    self.memory_offset = self.memory_offset.saturating_sub(1);
                    UiAction::Redraw
                } else {
                    UiAction::Nothing
                }
            },
            UiKey::Char('6') | UiKey::Right => {
                if focus {
                    self.memory_offset = self.memory_offset.saturating_add(1);
                    UiAction::Redraw
                } else {
                    UiAction::Nothing
                }
            },
            UiKey::PageUp => {
                if focus {
                    self.memory_offset = self.memory_offset.saturating_sub(128);
                    UiAction::Redraw
                } else {
                    UiAction::Nothing
                }
            },
            UiKey::PageDown => {
                if focus {
                    self.memory_offset = self.memory_offset.saturating_add(128);
                    UiAction::Redraw
                } else {
                    UiAction::Nothing
                }
            },
            _ => UiAction::Nothing,
        }
    }
}

/// The terminal-UI debugger as the default build has it: nothing inside.
pub struct RatatuiDebugger {}

impl RatatuiDebugger {
    pub fn new() -> (r: RatatuiDebugger) {
        RatatuiDebugger {  }
    }
}

/// Allocation bookkeeping for the native memory functions: base offset to size.
pub struct AllocRegistry {
    pub map: std::collections::HashMap<usize, usize>,
}

impl AllocRegistry {
    pub fn new() -> (r: AllocRegistry)
        ensures
            r.map@ == Map::<usize, usize>::empty(),
    {
        AllocRegistry { map: std::collections::HashMap::new() }
    }

    pub fn insert(&mut self, base: usize, size: usize)
        ensures
            final(self).map@ == old(self).map@.insert(base, size),
    {
        self.map.insert(base, size);
    }

    pub fn remove(&mut self, base: usize) -> (r: Option<usize>)
        ensures
            final(self).map@ == old(self).map@.remove(base),
            r == (if old(self).map@.contains_key(base) { Some(old(self).map@[base]) } else { None::<usize> }),
    {
        self.map.remove(&base)
    }

    pub fn get(&self, base: usize) -> (r: Option<usize>)
        ensures
            r == (if self.map@.contains_key(base) { Some(self.map@[base]) } else { None::<usize> }),
    {
        match self.map.get(&base) {
            Some(v) => Some(*v),
            None => None,
        }
    }
}

} // verus!
