use masm::asm_lines::{short_hash, AsmEnv};
use masm::assembler::{assemble_to_masi, assemble_to_masi_with_base, AsmStep};
use masm::disassembler::parse_masi_bytes;
use masm::interpreter::compile_source_to_masi_bytes;
use masm::macros::expand_macros;
use masm::register_map::{reg_id, reg_name, RegisterMap};

#[test]
fn unknown_instruction_is_reported_but_assembles() {
    let bytes = compile_source_to_masi_bytes("FMOO R1 R2\nHLT\n").expect("compile");
    let m = parse_masi_bytes(&bytes).expect("parse");
    assert_eq!(m.code, vec![0xFF]);
}

#[test]
fn duplicate_code_label_is_an_error() {
    let e = compile_source_to_masi_bytes("LBL a\nNOP\nLBL a\nHLT\n").unwrap_err();
    assert_eq!(e, "error[EASM002]: duplicate code label 'a'");
}

#[test]
fn duplicate_data_label_is_an_error() {
    let e = compile_source_to_masi_bytes("x: DB 1\nx: DB 2\nHLT\n").unwrap_err();
    assert_eq!(e, "error[EASM002]: duplicate data label 'x'");
}

#[test]
fn export_of_unknown_symbol_is_an_error() {
    let e = compile_source_to_masi_bytes("#export #nothere\nHLT\n").unwrap_err();
    assert_eq!(e, "error[EASM003]: export of unknown code symbol 'nothere'");
}

#[test]
fn float_literals_need_the_host() {
    let e = compile_source_to_masi_bytes("FMOV FPR0 1.5\nHLT\n").unwrap_err();
    assert!(e.contains("floating-point literal"), "{}", e);
}

#[test]
fn image_layout_of_a_small_program() {
    let bytes = compile_source_to_masi_bytes("LBL main\nMOV RAX 1\nHLT\n").expect("compile");
    assert_eq!(&bytes[0..4], b"MASI");
    assert_eq!(u16::from_le_bytes([bytes[4], bytes[5]]), 1);
    let m = parse_masi_bytes(&bytes).expect("parse");
    assert_eq!(m.version, 1);
    assert_eq!(m.entry, 0);
    let code = vec![0x01, 1, 1, 0, 0, 0, 0, 0, 0, 0, 0, 1, 0, 0, 0, 0, 0, 0, 0, 0xFF];
    assert_eq!(m.code, code);
    assert!(m.label_map.iter().any(|(o, n)| *o == 0 && n == "main"));
}

#[test]
fn parse_rejects_short_and_foreign_files() {
    assert_eq!(parse_masi_bytes(&[1, 2, 3]).err().unwrap(), "File too small");
    assert_eq!(parse_masi_bytes(&[0u8; 16]).err().unwrap(), "Bad magic");
}

#[test]
fn macro_expansion_substitutes_parameters() {
    let src: Vec<char> = "MACRO inc2 r\nINC r\nINC r\nENDMACRO\ninc2 R1\nHLT\n".chars().collect();
    let out: String = expand_macros(&src).iter().collect();
    let lines: Vec<&str> = out.lines().map(|l| l.trim()).filter(|l| !l.is_empty()).collect();
    assert_eq!(lines, vec!["INC R1", "INC R1", "HLT"]);
}

#[test]
fn short_hash_is_deterministic_hex() {
    let a = short_hash("hello");
    let b = short_hash("hello");
    assert_eq!(a, b);
    assert!(a.len() >= 8);
    assert!(a.chars().all(|c| c.is_ascii_hexdigit() && !c.is_ascii_uppercase()));
    assert_ne!(short_hash("hello"), short_hash("world"));
}

#[test]
fn register_tables_are_inverse() {
    let names = RegisterMap::build_name_to_id();
    let ids = RegisterMap::build_id_to_name();
    assert_eq!(names.len(), 44);
    for ((n, id), (id2, n2)) in names.iter().zip(ids.iter()) {
        assert_eq!(id, id2);
        assert_eq!(n, n2);
        assert_eq!(reg_id(n), Some(*id));
        assert_eq!(reg_name(*id), Some(n.clone()));
    }
    assert_eq!(reg_id(&['R', 'A', 'X']), Some(1));
    assert_eq!(reg_id(&['R', '1', '5']), Some(47));
    assert_eq!(reg_id(&['F', 'P', 'R', '0']), Some(200));
    assert_eq!(reg_name(10), None);
}

#[test]
fn unknown_instruction_warning_names_the_line() {
    let env = AsmEnv::new();
    match assemble_to_masi("FMOO R1 R2\nHLT\n", &env) {
        AsmStep::Done(w, r) => {
            assert!(r.is_ok());
            assert_eq!(w.len(), 1);
            assert!(w[0].starts_with("error[EASM001]: unrecognized instruction or operand count"), "{}", w[0]);
            assert!(w[0].ends_with("got: 'FMOO R1 R2'"), "{}", w[0]);
        }
        AsmStep::Need(_) => panic!("nothing to supply"),
    }
}

#[test]
fn lower_case_register_indirect_operand() {
    let bytes = compile_source_to_masi_bytes("MOV RBX 0\nOUT 1 $rbx\nHLT\n").expect("compile");
    let m = parse_masi_bytes(&bytes).expect("parse");
    // OUT 1 $rbx: the second operand is register-indirect (mode 4) through RBX (id 2).
    assert_eq!(m.code[19], 0x40);
    assert_eq!(m.code[29], 4);
    assert_eq!(m.code[30], 2);
}

#[test]
fn label_names_that_are_not_utf8_fall_back() {
    let mut bytes = compile_source_to_masi_bytes("LBL ab\nHLT\n").expect("compile");
    let pos = bytes.windows(2).position(|w| w == b"ab").expect("label name in the file");
    bytes[pos] = 0xFF;
    let m = parse_masi_bytes(&bytes).expect("parse");
    assert_eq!(m.label_map, vec![(0u64, "label_?".to_string())]);
}

#[test]
fn short_hash_has_eight_to_sixteen_lower_hex_digits() {
    for s in ["", "a", "hello", "__str_414243", "a much longer piece of text to hash"] {
        let h = short_hash(s);
        assert!(h.len() >= 8 && h.len() <= 16, "{}", h);
        assert!(h.chars().all(|c| c.is_ascii_digit() || ('a'..='f').contains(&c)), "{}", h);
    }
}

#[test]
fn text_without_macros_passes_through_expansion() {
    let src = "LBL a\r\n  MOV R1 2 ; two\nHLT";
    let chars: Vec<char> = src.chars().collect();
    let out: String = expand_macros(&chars).iter().collect();
    assert_eq!(out, src.lines().collect::<Vec<_>>().join("\n"));
}

#[test]
fn a_source_without_includes_ignores_the_base_directory() {
    let src = "x: DB 1, 2\nLBL main\nMOV R1 $x\nHLT\n";
    let env = AsmEnv::new();
    let plain = match assemble_to_masi(src, &env) {
        AsmStep::Done(_, r) => r,
        AsmStep::Need(_) => panic!("needs nothing"),
    };
    let based = match assemble_to_masi_with_base(src, "/some/dir", &env) {
        AsmStep::Done(_, r) => r,
        AsmStep::Need(_) => panic!("needs nothing"),
    };
    assert_eq!(plain, based);
    assert!(plain.is_ok());
}
