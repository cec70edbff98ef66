use masm::disassembler::{code_decodes, disassemble, dump, parse_masi_bytes, MASIFile};
use masm::interpreter::{compile_source_to_masi_bytes, Io, State, Stop};
use masm::linker::link_files;
use masm::masi::check_chunks_fit;
use masm::vm::run_exec;

fn load(src: &str) -> MASIFile {
    let bytes = compile_source_to_masi_bytes(src).expect("compile");
    assert!(check_chunks_fit(&bytes));
    parse_masi_bytes(&bytes).expect("parse")
}

fn run(m: &MASIFile) -> String {
    let mut st = State::new();
    st.memory = m.data.clone();
    let mut io = Io::new(Vec::new());
    let (_, stop) = run_exec(&mut st, &m.code, m.entry as usize, &mut io, 10_000);
    assert!(matches!(stop, Stop::End));
    String::from_utf8_lossy(&io.out).to_string()
}

#[test]
fn disassembly_shows_labels_and_operands() {
    let m = load("msg: DB \"Hi\", 0\nLBL start\nMOV R1 5\nOUT 1 $msg\nJMP #start\nHLT\n");
    assert!(code_decodes(&m.code));
    let text = disassemble(&m);
    let lines: Vec<&str> = text.lines().collect();
    assert_eq!(lines, vec!["LBL start", "MOV R1 5", "OUT 1 $msg", "JMP #start", "HLT"]);
}

#[test]
fn disassembly_marks_unknown_opcodes() {
    let mut m = load("HLT\n");
    m.code = vec![0x99, 0xFF];
    let text = disassemble(&m);
    let lines: Vec<&str> = text.lines().collect();
    assert_eq!(lines, vec!["; DB 0x99 ; Unknown opcode", "HLT"]);
}

#[test]
fn truncated_code_does_not_decode() {
    assert!(!code_decodes(&[0x01, 0x01]));
    assert!(code_decodes(&[0x00, 0xFF]));
    assert!(code_decodes(&[]));
}

#[test]
fn dump_lists_header_and_labels() {
    let m = load("d: DB 1, 2\nLBL main\nNOP\nHLT\n");
    let text = dump(&m);
    let lines: Vec<&str> = text.lines().collect();
    assert_eq!(&lines[0..4], &["MASI Dump", "- Version: 1", "- Entry: 0x0000000000000000", "- Sections:"]);
    assert_eq!(lines[4].split(':').next().unwrap(), "  - import");
    assert_eq!(lines[7], "  - const: 0 bytes");
    assert_eq!(lines[8], "  - data: 2 bytes");
    assert_eq!(lines[10], "  - code: 2 bytes");
    assert_eq!(&lines[11..13], &["- Labels:", "  - 0x0: main"]);
    assert_eq!(&lines[13..], &["- Data labels:", "  - 0x0: d", "- Data section size: 2 bytes"]);
}

#[test]
fn linking_resolves_imports_against_exports() {
    let a = load("#import code foo\nCALL #foo\nOUT 1 R1\nHLT\n");
    let b = load("#export #foo\nLBL foo\nMOV R1 7\nRET\n");
    let linked = link_files(&vec![a.clone(), b.clone()]).expect("link");
    assert!(check_chunks_fit(&linked.bytes));
    let m = parse_masi_bytes(&linked.bytes).expect("parse linked");
    assert_eq!(m.code.len(), a.code.len() + b.code.len());
    assert_eq!(&m.code[a.code.len()..], &b.code[..]);
    assert!(m.imports.is_empty());
    assert_eq!(run(&m), "7\n");
}

#[test]
fn linking_concatenates_data() {
    let a = load("x: DB \"A\", 0\nOUT 1 $x\nHLT\n");
    let b = load("y: DB \"BC\", 0\nHLT\n");
    let linked = link_files(&vec![a.clone(), b.clone()]).expect("link");
    let m = parse_masi_bytes(&linked.bytes).expect("parse linked");
    let mut data = a.data.clone();
    data.extend_from_slice(&b.data);
    assert_eq!(m.data, data);
    assert_eq!(m.entry, a.entry);
    assert!(m.data_label_map.iter().any(|(o, n)| n == "y" && *o == a.data.len() as u64));
}

#[test]
fn linking_reports_unresolved_imports() {
    let a = load("#import code foo\nCALL #foo\nHLT\n");
    let r = link_files(&vec![a]);
    assert_eq!(
        r.err().unwrap(),
        "error[ELD002]: unresolved import: code foo\n   = help: ensure the providing object exports this symbol or link it before users"
    );
}

#[test]
fn linking_rejects_a_symbol_exported_twice() {
    let a = load("#export #main\nLBL main\nHLT\n");
    let b = load("#export #main\nLBL main\nRET\n");
    let r = link_files(&vec![a, b]);
    assert_eq!(r.err().unwrap(), "error[ELD001]: duplicate export symbol 'code main'");
}

#[test]
fn linking_nothing_is_an_error() {
    let r = link_files(&Vec::new());
    assert_eq!(r.err().unwrap(), "no input files");
}

#[test]
fn numeric_memory_addresses_are_never_imports() {
    let m = load("#import data buf\nOUT 1 $1000\nOUT 1 $0x3000\nOUT 1 $buf\nHLT\n");
    assert_eq!(m.imports.len(), 1);
    assert_eq!(m.imports[0].name, "buf");
    assert_eq!(m.imports[0].refs.len(), 1);
    // The two numeric addresses are encoded as direct memory operands.
    assert_eq!(m.code[10], 3);
    assert_eq!(u64::from_le_bytes(m.code[11..19].try_into().unwrap()), 1000);
    assert_eq!(m.code[29], 3);
    assert_eq!(u64::from_le_bytes(m.code[30..38].try_into().unwrap()), 0x3000);
}

#[test]
fn linked_import_reference_holds_the_moved_export_offset() {
    let a = load("#import code foo\nCALL #foo\nHLT\n");
    let b = load("NOP\n#export #foo\nLBL foo\nMOV R1 7\nRET\n");
    let linked = link_files(&vec![a.clone(), b.clone()]).expect("link");
    let m = parse_masi_bytes(&linked.bytes).expect("parse linked");
    // CALL's operand value sits after the opcode and mode bytes.
    let target = u64::from_le_bytes(m.code[2..10].try_into().unwrap());
    assert_eq!(target, a.code.len() as u64 + 1);
    assert_eq!(m.code[0], a.code[0]);
    assert_eq!(&m.code[10..a.code.len()], &a.code[10..]);
}

#[test]
fn disassembly_has_a_line_per_instruction_and_label() {
    let m = load("LBL start\nMOV R1 5\nNOP\nLBL end\nHLT\n");
    let text = disassemble(&m);
    let lines: Vec<&str> = text.lines().collect();
    assert_eq!(lines.len(), 3 + 2);
    assert_eq!(lines.iter().filter(|l| l.starts_with("LBL ")).count(), 2);
}

#[test]
fn each_label_line_stands_before_its_instruction() {
    let m = load("LBL start\nMOV R1 5\nNOP\nLBL end\nHLT\n");
    let text = disassemble(&m);
    let lines: Vec<&str> = text.lines().collect();
    assert_eq!(lines[0], "LBL start");
    assert!(lines[1].starts_with("MOV"));
    assert!(lines[2].starts_with("NOP"));
    assert_eq!(lines[3], "LBL end");
    assert!(lines[4].starts_with("HLT"));
}

#[test]
fn parse_says_too_small_exactly_below_sixteen_bytes() {
    for n in 0..20 {
        let b = vec![0u8; n];
        let too_small = matches!(parse_masi_bytes(&b), Err(e) if e == "File too small");
        assert_eq!(too_small, n < 16);
    }
}
