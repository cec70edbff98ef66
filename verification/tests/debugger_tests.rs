use masm::debugger::CliDebugger;
use masm::disassembler::{parse_masi_bytes, MASIFile};
use masm::interpreter::{compile_source_to_masi_bytes, DebuggerControl, State};

fn program() -> MASIFile {
    let src = "LBL start\nMOV R1 5\nLBL loop\nOUT 1 R1\nHLT\n";
    let bytes = compile_source_to_masi_bytes(src).expect("compile");
    parse_masi_bytes(&bytes).expect("parse")
}

fn run_cmd(d: &mut CliDebugger, m: &MASIFile, st: &State, line: &str) -> (Vec<String>, Option<DebuggerControl>) {
    d.command(m, st, 0, line)
}

#[test]
fn new_debugger_has_no_breakpoints_and_stops_everywhere() {
    let d = CliDebugger::new();
    assert!(d.breakpoints().is_empty());
    assert!(d.stops_at(0));
    assert!(d.stops_at(123));
}

#[test]
fn prompt_names_the_label_and_opcode() {
    let m = program();
    let d = CliDebugger::new();
    assert_eq!(d.prompt(&m, 0, 0x01), "stopped at start (0x0): MOV (0x01)");
    assert_eq!(d.prompt(&m, 5, 0xFF), "stopped at 0x5: HLT (0xFF)");
    assert_eq!(d.prompt(&m, 5, 0x99), "stopped at 0x5: ? (0x99)");
}

#[test]
fn break_info_delete_round_trip() {
    let m = program();
    let st = State::new();
    let mut d = CliDebugger::new();
    let (out, c) = run_cmd(&mut d, &m, &st, "b loop");
    assert_eq!(out, vec!["Breakpoint set at 0x13"]);
    assert!(c.is_none());
    let (out, _) = run_cmd(&mut d, &m, &st, "break 0x0");
    assert_eq!(out, vec!["Breakpoint set at 0x0"]);
    let (out, _) = run_cmd(&mut d, &m, &st, "b 19");
    assert_eq!(out, vec!["Breakpoint set at 0x13"]);
    assert_eq!(d.breakpoints(), vec![0, 19]);
    let (out, _) = run_cmd(&mut d, &m, &st, "info breakpoints");
    assert_eq!(out, vec!["- start (0x0)", "- loop (0x13)"]);
    let (out, _) = run_cmd(&mut d, &m, &st, "db loop");
    assert_eq!(out, vec!["Deleted breakpoint at 0x13"]);
    assert_eq!(d.breakpoints(), vec![0]);
    let (out, _) = run_cmd(&mut d, &m, &st, "delete 0");
    assert_eq!(out, vec!["Deleted breakpoint at 0x0"]);
    let (out, _) = run_cmd(&mut d, &m, &st, "info b");
    assert_eq!(out, vec!["(no breakpoints)"]);
}

#[test]
fn bad_arguments_give_usage_or_unknown() {
    let m = program();
    let st = State::new();
    let mut d = CliDebugger::new();
    assert_eq!(run_cmd(&mut d, &m, &st, "b").0, vec!["usage: break <addr|label>"]);
    assert_eq!(run_cmd(&mut d, &m, &st, "del").0, vec!["usage: delete <addr|label>"]);
    assert_eq!(run_cmd(&mut d, &m, &st, "b nowhere").0, vec!["Unknown address/label: nowhere"]);
    assert_eq!(run_cmd(&mut d, &m, &st, "b 0xZZ").0, vec!["Unknown address/label: 0xZZ"]);
    assert_eq!(run_cmd(&mut d, &m, &st, "info").0, vec!["usage: info breakpoints"]);
    assert_eq!(run_cmd(&mut d, &m, &st, "x").0, vec!["usage: x <addr|label> [len]"]);
    assert_eq!(run_cmd(&mut d, &m, &st, "frobnicate now").0, vec!["unknown command: frobnicate (type 'help')"]);
    assert!(d.breakpoints().is_empty());
}

#[test]
fn step_continue_and_quit_decide() {
    let m = program();
    let st = State::new();
    let mut d = CliDebugger::new();
    let (out, c) = run_cmd(&mut d, &m, &st, "c");
    assert!(out.is_empty());
    assert!(matches!(c, Some(DebuggerControl::Continue)));
    assert!(!d.stops_at(19));
    run_cmd(&mut d, &m, &st, "b 19");
    assert!(d.stops_at(19));
    assert!(!d.stops_at(0));
    let (_, c) = run_cmd(&mut d, &m, &st, "   ");
    assert!(matches!(c, Some(DebuggerControl::Continue)));
    assert!(d.stops_at(0));
    let (_, c) = run_cmd(&mut d, &m, &st, "continue");
    assert!(matches!(c, Some(DebuggerControl::Continue)));
    let (_, c) = run_cmd(&mut d, &m, &st, "si");
    assert!(matches!(c, Some(DebuggerControl::Continue)));
    assert!(d.stops_at(0));
    let (_, c) = run_cmd(&mut d, &m, &st, "quit");
    assert!(matches!(c, Some(DebuggerControl::Exit)));
}

#[test]
fn regs_shows_every_register_flags_and_rip() {
    let m = program();
    let mut st = State::new();
    st.set_reg(1, 0xAB);
    st.flags = (true, false, true, false);
    st.rip = 0x13;
    let mut d = CliDebugger::new();
    let (out, _) = run_cmd(&mut d, &m, &st, "regs");
    assert_eq!(out.len(), 3);
    assert!(out[0].starts_with("RAX=0x00000000000000AB RBX=0x0000000000000000 "));
    assert!(out[0].ends_with("FPR15=0x0000000000000000"));
    assert_eq!(out[0].split(' ').count(), 44);
    assert_eq!(out[1], "FLAGS: ZF=true SF=false CF=true OF=false");
    assert_eq!(out[2], "RIP=0x0000000000000013");
}

#[test]
fn memory_dump_rows() {
    let m = program();
    let mut st = State::new();
    st.memory = vec![0x48, 0x69, 0x00, 0x7F];
    let d = CliDebugger::new();
    let rows = d.mem(&st, 0, 64);
    let mut expected = String::from("00000000: 48 69 00 7F ");
    for _ in 0..12 {
        expected.push_str("   ");
    }
    expected.push_str(" | Hi..");
    assert_eq!(rows, vec![expected]);
    assert!(d.mem(&st, 10, 4).is_empty());
    st.memory = (0u8..20).map(|b| b + 0x41).collect();
    let rows = d.mem(&st, 2, 18);
    assert_eq!(rows.len(), 2);
    assert!(rows[0].starts_with("00000002: 43 44 "));
    assert!(rows[0].ends_with(" | CDEFGHIJKLMNOPQR"));
    assert!(rows[1].starts_with("00000012: 53 54 "));
    assert!(rows[1].ends_with(" | ST"));
    let mut d2 = CliDebugger::new();
    let (out, _) = d2.command(&m, &st, 0, "x 2 18");
    assert_eq!(out, rows);
}

#[test]
fn disassembly_listing_with_labels() {
    let m = program();
    let st = State::new();
    let d = CliDebugger::new();
    let lines = d.disassemble_from(&m, 0, 10);
    let texts: Vec<String> = lines.iter().map(|(_, l)| l.clone()).collect();
    assert_eq!(
        texts,
        vec!["00000000: start    MOV R1 5", "00000013: loop     OUT 1 R1", "00000026: HLT"]
    );
    assert_eq!(lines.iter().map(|(p, _)| *p).collect::<Vec<_>>(), vec![0, 19, 38]);
    let mut d2 = CliDebugger::new();
    let (out, _) = d2.command(&m, &st, 0, "disas loop 1");
    assert_eq!(out, vec!["00000013: loop     OUT 1 R1"]);
    let (out, _) = d2.command(&m, &st, 38, "u");
    assert_eq!(out, vec!["00000026: HLT"]);
}

#[test]
fn listing_tolerates_truncated_code() {
    let mut m = program();
    m.code = vec![0x01, 0x01, 0x99];
    m.label_map = Vec::new();
    let d = CliDebugger::new();
    let lines = d.disassemble_from(&m, 0, 10);
    assert_eq!(lines, vec![(0usize, "00000000: ".to_string())]);
    m.code = vec![0x99, 0x00];
    let lines = d.disassemble_from(&m, 0, 10);
    assert_eq!(lines, vec![(0usize, "00000000: ; DB 0x99".to_string()), (1usize, "00000001: NOP".to_string())]);
}

#[test]
fn read_op_pair_moves_past_what_it_read() {
    let d = CliDebugger::new();
    let code: Vec<u8> = vec![1, 2, 0, 0, 0, 0, 0, 0, 0, 3];
    let mut pc = 0usize;
    assert_eq!(d.read_op_pair(&code, &mut pc), Some((1, 2)));
    assert_eq!(pc, 9);
    assert_eq!(d.read_op_pair(&code, &mut pc), None);
    assert_eq!(pc, 10);
    assert_eq!(d.read_op_pair(&code, &mut pc), None);
    assert_eq!(pc, 10);
}

#[test]
fn parse_addr_forms() {
    let m = program();
    let d = CliDebugger::new();
    assert_eq!(d.parse_addr(&m, "0x1F"), Some(31));
    assert_eq!(d.parse_addr(&m, "42"), Some(42));
    assert_eq!(d.parse_addr(&m, "loop"), Some(19));
    assert_eq!(d.parse_addr(&m, "0x"), None);
    assert_eq!(d.parse_addr(&m, ""), None);
    assert_eq!(d.parse_addr(&m, "99999999999999999999999"), None);
    assert_eq!(d.fmt_op(&m, 2, 19), "#loop");
    assert_eq!(d.fmt_op(&m, 1, 1), "RAX");
}

#[test]
fn help_lists_commands() {
    let m = program();
    let st = State::new();
    let mut d = CliDebugger::new();
    let (out, c) = d.command(&m, &st, 0, "h");
    assert!(c.is_none());
    assert_eq!(out.len(), 1);
    assert!(out[0].starts_with("Commands: step(s), continue(c)"));
}

#[test]
fn after_continue_the_debugger_stops_only_at_breakpoints() {
    let m = program();
    let st = State::new();
    let mut d = CliDebugger::new();
    run_cmd(&mut d, &m, &st, "b loop");
    let (out, c) = run_cmd(&mut d, &m, &st, "  continue ");
    assert!(out.is_empty());
    assert!(matches!(c, Some(DebuggerControl::Continue)));
    assert_eq!(d.breakpoints(), vec![0x13]);
    assert!(d.stops_at(0x13));
    assert!(!d.stops_at(0));
    assert!(!d.stops_at(0x14));
}

#[test]
fn listing_offsets_increase_and_prefix_each_line() {
    let m = program();
    let d = CliDebugger::new();
    let lines = d.disassemble_from(&m, 0, 10);
    assert!(lines.len() <= 10);
    assert_eq!(lines[0].0, 0);
    for w in lines.windows(2) {
        assert!(w[0].0 < w[1].0);
    }
    for (pc, text) in lines.iter() {
        assert!(*pc < m.code.len());
        assert!(text.starts_with(&format!("{:08X}: ", pc)));
    }
    assert!(d.disassemble_from(&m, m.code.len(), 5).is_empty());
    assert_eq!(d.disassemble_from(&m, 0, 1).len(), 1);
}

#[test]
fn quit_ends_the_run_and_keeps_the_breakpoints() {
    let m = program();
    let st = State::new();
    let mut d = CliDebugger::new();
    run_cmd(&mut d, &m, &st, "b 0x0");
    let (out, c) = run_cmd(&mut d, &m, &st, "quit");
    assert!(out.is_empty());
    assert!(matches!(c, Some(DebuggerControl::Exit)));
    assert_eq!(d.breakpoints(), vec![0]);
    assert!(d.stops_at(5));
}
