use masm::asm_lines::{AsmEnv, Need};
use masm::assembler::{assemble_to_masi, AsmStep};
use masm::disassembler::parse_masi_bytes;
use masm::interpreter::{AllocRegistry, FloatClass, FpOrder, Io, MniCtx, Outcome, State, Stop};
use masm::masi::check_chunks_fit;
use masm::natives::{builtin_native, call_native, native_fits_exec};
use masm::register_map::reg_id;
use masm::vm::run_exec;

fn assemble(src: &str) -> Result<Vec<u8>, String> {
    let mut env = AsmEnv::new();
    loop {
        match assemble_to_masi(src, &env) {
            AsmStep::Done(_, r) => return r,
            AsmStep::Need(Need::Float(t)) => {
                let s: String = t.iter().collect();
                let f32_bits = s.parse::<f32>().ok().map(|f| f.to_bits());
                let f64_bits = s.parse::<f64>().ok().map(|f| f.to_bits());
                env.add_float(&t, f32_bits, f64_bits);
            }
            AsmStep::Need(Need::File(p)) => {
                let msg: Vec<char> = "missing file".chars().collect();
                env.add_file(&p, Err(msg));
            }
            AsmStep::Need(Need::Text(p)) => {
                let msg: Vec<char> = "missing file".chars().collect();
                env.add_text(&p, Err(msg));
            }
        }
    }
}

struct Run {
    out: String,
    err: String,
    state: State,
    result: Result<(), String>,
}

fn sqrt_native(st: &mut State, args: &[String]) {
    if args.len() >= 2 {
        let a: Vec<char> = args[0].chars().collect();
        let b: Vec<char> = args[1].chars().collect();
        if let (Some(sid), Some(did)) = (reg_id(&a), reg_id(&b)) {
            let v = f64::from_bits(st.reg(sid));
            st.set_reg(did, v.sqrt().to_bits());
        }
    }
}

fn run_bytes(bytes: &[u8], input: &str) -> Run {
    assert!(check_chunks_fit(bytes));
    let masi = parse_masi_bytes(bytes).expect("load masi");
    let mut st = State::new();
    st.memory = masi.data.clone();
    let mut io = Io::new(input.as_bytes().to_vec());
    let mut allocs = AllocRegistry::new();
    let mut pc = masi.entry as usize;
    let result = loop {
        let (at, stop) = run_exec(&mut st, &masi.code, pc, &mut io, 1_000_000);
        match stop {
            Stop::End => break Ok(()),
            Stop::Fault(m) => break Err(m),
            Stop::Fuel => pc = at,
            Stop::Trap => break Err("trap".to_string()),
            Stop::Truncated => break Err("truncated instruction".to_string()),
            Stop::Host(o) => match o {
                Outcome::Float { op, a, b, dest, next } => {
                    let x = f64::from_bits(a);
                    let y = f64::from_bits(b);
                    let r = match op {
                        0x71 => x + y,
                        0x72 => x - y,
                        0x73 => x * y,
                        _ => x / y,
                    };
                    let class = if r.is_nan() {
                        FloatClass::NaN
                    } else if r.is_infinite() {
                        FloatClass::Infinite
                    } else {
                        FloatClass::Finite
                    };
                    st.finish_float(dest, r.to_bits(), class);
                    pc = next;
                }
                Outcome::Compare { a, b, next } => {
                    let x = f64::from_bits(a);
                    let y = f64::from_bits(b);
                    let order = match x.partial_cmp(&y) {
                        None => FpOrder::Unordered,
                        Some(std::cmp::Ordering::Equal) => FpOrder::Equal,
                        Some(std::cmp::Ordering::Less) => FpOrder::Less,
                        Some(std::cmp::Ordering::Greater) => FpOrder::Greater,
                    };
                    st.finish_compare(order);
                    pc = next;
                }
                Outcome::Mni { module, function, args, next } => {
                    let m = module.trim().to_lowercase();
                    let f = function.trim().to_lowercase();
                    if let Some(n) = builtin_native(&m, &f) {
                        let mut ctx = MniCtx { state: std::mem::replace(&mut st, State::new()), args };
                        assert!(native_fits_exec(n, &ctx, &allocs));
                        call_native(n, &mut ctx, &mut allocs);
                        st = ctx.state;
                    } else if m == "math" && f == "sqrt" {
                        sqrt_native(&mut st, &args);
                    } else {
                        break Err(format!("MNI: function not found: {}.{}", module, function));
                    }
                    pc = next;
                }
                _ => break Err("unexpected host request".to_string()),
            },
        }
    };
    Run {
        out: String::from_utf8_lossy(&io.out).to_string(),
        err: String::from_utf8_lossy(&io.err).to_string(),
        state: st,
        result,
    }
}

fn run_source_with_io(source: &str, input: &str) -> (String, String) {
    let bytes = assemble(source).expect("assemble");
    let r = run_bytes(&bytes, input);
    r.result.expect("run");
    (r.out, r.err)
}

#[test]
fn test_mov_add_out_numeric() {
    let source = r#"
		MOV R1 5
		ADD R1 7
		OUT 1 R1
		HLT
	"#;
    let (out, err) = run_source_with_io(source, "");
    assert_eq!(err, "");
    assert_eq!(out.trim(), "12");
}

#[test]
fn test_out_string_from_data_label() {
    let source = r#"
		msg: DB "Hello", 0
		OUT 1 $msg
		HLT
	"#;
    let (out, _) = run_source_with_io(source, "");
    assert_eq!(out, "Hello\n");
}

#[test]
fn test_cmp_je_jne() {
    let source = r#"
		MOV R1 10
		CMP R1 10
		JE #eq
		OUT 1 0
		JMP #end
	LBL eq
		OUT 1 1
	LBL end
		HLT
	"#;
    let (out, _) = run_source_with_io(source, "");
    assert_eq!(out.lines().collect::<Vec<_>>(), vec!["1"]);
}

#[test]
fn test_push_pop_stack() {
    let source = r#"
		MOV R2 42
		PUSH R2
		MOV R2 0
		POP R3
		OUT 1 R3
		HLT
	"#;
    let (out, _) = run_source_with_io(source, "");
    assert_eq!(out.trim(), "42");
}

#[test]
fn test_call_ret_enter_leave() {
    let source = r#"
		CALL #func
		HLT
	LBL func
		ENTER 16
		MOV R4 7
		ADD R4 8
		OUT 1 R4
		LEAVE
		RET
	"#;
    let (out, _) = run_source_with_io(source, "");
    assert_eq!(out.trim(), "15");
}

#[test]
fn test_in_reads_into_memory_and_out_prints() {
    let source = r#"
		buf: RESB 64
		IN $buf
		OUT 1 $buf
		HLT
	"#;
    let (out, _) = run_source_with_io(source, "abc\n");
    assert_eq!(out, "abc\n\n");
}

#[test]
fn test_cout_single_char() {
    let source = r#"
		COUT 1 65
		COUT 1 10
		HLT
	"#;
    let (out, _) = run_source_with_io(source, "");
    assert_eq!(out, "A\n");
}

#[test]
fn test_out_to_stderr() {
    let source = r#"
		OUT 2 123
		HLT
	"#;
    let (out, err) = run_source_with_io(source, "");
    assert_eq!(out, "");
    assert_eq!(err.trim(), "123");
}

#[test]
fn test_out_string_via_register_indirect() {
    let source = r#"
		hello: DB "Hello from temp!", 0
		MOV RBX hello
		; Both should print the same string
		OUT 1 $RBX
		OUT 1 $[RBX]
		HLT
	"#;
    let (out, err) = run_source_with_io(source, "");
    assert_eq!(err, "");
    let lines: Vec<&str> = out.lines().collect();
    assert_eq!(lines, vec!["Hello from temp!", "Hello from temp!"]);
}

#[test]
fn set_rax_native_then_an_unregistered_echo() {
    // `tool.set_rax` is built in; `tool.echo` would come from a Lua module,
    // which the library alone does not load, so the run stops there.
    let source = r#"
		MNI tool.set_rax 99
		; set_rax returns RAX=99; print it
		OUT 1 RAX
		MNI tool.echo Hello World
		HLT
	"#;
    let bytes = assemble(source).expect("assemble");
    let r = run_bytes(&bytes, "");
    let lines: Vec<&str> = r.out.lines().collect();
    assert_eq!(lines.get(0).copied(), Some("99"));
    assert!(r.result.unwrap_err().contains("MNI: function not found"));
}

#[test]
fn test_jmp_unconditional_skips_block() {
    let source = r#"
		OUT 1 1
		JMP #after
		OUT 1 999
	LBL after
		OUT 1 2
		HLT
	"#;
    let (out, _) = run_source_with_io(source, "");
    let lines: Vec<&str> = out.lines().collect();
    assert_eq!(lines, vec!["1", "2"]);
}

#[test]
fn test_sub_then_je_on_zero() {
    let source = r#"
		MOV R1 7
		SUB R1 7
		JE #zero
		OUT 1 0
		JMP #end
	LBL zero
		OUT 1 1
	LBL end
		HLT
	"#;
    let (out, _) = run_source_with_io(source, "");
    assert_eq!(out.trim(), "1");
}

#[test]
fn test_direct_memory_db_address_out_string() {
    let source = r#"
		DB $1000 "ABS"
		OUT 1 $1000
		HLT
	"#;
    let (out, _) = run_source_with_io(source, "");
    assert_eq!(out, "ABS\n");
}

#[test]
fn test_cout_reads_byte_from_memory_address() {
    let source = r#"
		msg: DB "Hi", 0
		; COUT expects numeric address for second operand
		COUT 1 msg     ; 'H'
		MOV R1 msg
		ADD R1 1
		COUT 1 R1      ; 'i'
		COUT 1 10      ; '\n'
		HLT
	"#;
    let (out, _) = run_source_with_io(source, "");
    assert_eq!(out, "Hi\n");
}

#[test]
fn test_mov_memory_via_register_indirect_roundtrip_qword() {
    let source = r#"
		buf: DQ 0x1122334455667788
		MOV R1 buf
		MOV R2 $R1
		OUT 1 R2
		HLT
	"#;
    let (out, _) = run_source_with_io(source, "");
    assert_eq!(out.trim(), "1234605616436508552");
}

#[test]
fn test_nop_no_effect() {
    let source = r#"
		OUT 1 10
		NOP
		OUT 1 20
		HLT
	"#;
    let (out, _) = run_source_with_io(source, "");
    let lines: Vec<&str> = out.lines().collect();
    assert_eq!(lines, vec!["10", "20"]);
}

#[test]
fn test_jne_taken_when_not_equal() {
    let source = r#"
		CMP 1 2
		JNE #neq
		OUT 1 0
		JMP #end
	LBL neq
		OUT 1 1
	LBL end
		HLT
	"#;
    let (out, _) = run_source_with_io(source, "");
    assert_eq!(out.trim(), "1");
}

#[test]
fn test_enter_leave_updates_rsp_rbp() {
    let source = r#"
		; After ENTER 8: RSP should be increased by 8 from initial 0, RBP set to 0
		ENTER 8
		OUT 1 RSP
		OUT 1 RBP
		LEAVE
		; After LEAVE: both back to 0
		OUT 1 RSP
		OUT 1 RBP
		HLT
	"#;
    let (out, _) = run_source_with_io(source, "");
    let lines: Vec<&str> = out.lines().collect();
    assert_eq!(lines, vec!["9", "1", "1", "0"]);
}

#[test]
fn test_fmov_fadd_and_result_bits() {
    let source = r#"
		FMOV FPR0 2.5
		FADD FPR0 1.5
		; Move result bits into an integer register and print
		MOV R1 FPR0
		OUT 1 R1
		HLT
	"#;
    let (out, _) = run_source_with_io(source, "");
    let got: u64 = out.trim().parse().unwrap();
    assert_eq!(got, (2.5f64 + 1.5f64).to_bits());
}

#[test]
fn test_fmov_load_from_memory_ddbl() {
    let source = r#"
		val: DDBL 3.25
		FMOV FPR1 $val
		MOV R2 FPR1
		OUT 1 R2
		HLT
	"#;
    let (out, _) = run_source_with_io(source, "");
    let got: u64 = out.trim().parse().unwrap();
    assert_eq!(got, 3.25f64.to_bits());
}

#[test]
fn test_fcmp_conditional_jumps_and_unordered() {
    let source_lt = r#"
		FMOV FPR0 2.0
		FMOV FPR1 3.0
		FCMP FPR0 FPR1
		FJLT #yes
		OUT 1 0
		JMP #end
	LBL yes
		OUT 1 1
	LBL end
		HLT
	"#;
    let (out_lt, _) = run_source_with_io(source_lt, "");
    assert_eq!(out_lt.trim(), "1");

    let source_uo = r#"
		nan: DQ 0x7FF8000000000001
		FMOV FPR0 $nan
		FMOV FPR1 1.0
		FCMP FPR0 FPR1
		FJUO #u
		OUT 1 0
		JMP #end
	LBL u
		OUT 1 1
	LBL end
		HLT
	"#;
    let (out_uo, _) = run_source_with_io(source_uo, "");
    assert_eq!(out_uo.trim(), "1");
}

#[test]
fn test_syscall_write_and_read() {
    let source = r#"
		DB $2000 "sys\n"
		MOV RAX 1
		MOV RDI 1
		MOV RSI 2000
		MOV RDX 4
		SYSCALL
		; read line from input (max 5)
		MOV RAX 0
		MOV RDI 0
		MOV RSI 3000
		MOV RDX 5
		SYSCALL
		OUT 1 $3000
		HLT
	"#;
    let (out, _) = run_source_with_io(source, "in\n");
    let mut lines: Vec<&str> = out.lines().collect();
    if let Some("") = lines.last().copied() {
        lines.pop();
    }
    assert_eq!(lines, vec!["sys", "in"]);
}

#[test]
fn test_macros_with_local_labels() {
    let source = r#"
		MACRO twice reg val
			ADD reg val
			ADD reg val
		ENDMACRO

		MACRO loop_dec reg
		@@start:
			DEC reg
			JNZ @@start
		ENDMACRO

		MOV R1 0
		twice R1 5
		OUT 1 R1

		MOV R2 3
		loop_dec R2
		OUT 1 R2
		HLT
	"#;
    let (out, _) = run_source_with_io(source, "");
    let lines: Vec<&str> = out.lines().collect();
    assert_eq!(lines, vec!["10", "0"]);
}

#[test]
fn test_mni_math_and_memory() {
    let source = r#"
		; allocate 8 bytes and write a string
		MNI Memory.allocate 8 R1
		MOV R2 R1
		DB $4000 "x\0"
		; sqrt(9.0) into FPR1
		FMOV FPR0 9.0
		MNI Math.sqrt FPR0 FPR1
		MOV R3 FPR1
		OUT 1 R3
		HLT
	"#;
    let (out, _) = run_source_with_io(source, "");
    let got: u64 = out.trim().parse().unwrap();
    assert_eq!(got, 3.0f64.to_bits());
}

#[test]
fn test_oob_read_emits_warning() {
    let source = r#"
        MOV R1 0x100000
        MOV R2 $R1
        HLT
    "#;
    let bytes = assemble(source).expect("assemble");
    let r = run_bytes(&bytes, "");
    r.result.expect("run");
    assert!(r.state.warnings.iter().any(|w| w.contains("read_u64 OOB")));
}

#[test]
fn test_mni_missing_returns_error() {
    let source = r#"
        MNI notamodule.notafunc arg1
        HLT
    "#;
    let bytes = assemble(source).expect("assemble");
    let r = run_bytes(&bytes, "");
    assert!(r.result.is_err());
    let msg = r.result.err().unwrap();
    assert!(msg.contains("MNI: function not found"));
}

#[test]
fn test_state_directive_emits_labeled_value() {
    let source = r#"
    buf: RESQ 1
    STATE my_b <BYTE> 65
    pad: RESQ 1
        MOV R1 my_b
        MOV R2 $R1
        OUT 1 R2
        STATE my_q <QWORD> 1234
        MOV R3 my_q
        MOV R4 $R3
        OUT 1 R4
        HLT
    "#;
    let bytes = assemble(source).expect("assemble");
    let r = run_bytes(&bytes, "");
    r.result.expect("run");
    assert_eq!(r.err, "");
    let lines: Vec<&str> = r.out.lines().collect();
    assert_eq!(lines, vec!["65", "1234"]);
}

#[test]
fn jump_outside_code_is_an_evm004_error() {
    let source = r#"
        JMP 100000
        HLT
    "#;
    let bytes = assemble(source).expect("assemble");
    let r = run_bytes(&bytes, "");
    let msg = r.result.unwrap_err();
    assert!(msg.contains("EVM004"), "{}", msg);
}

#[test]
fn return_outside_code_is_an_evm002_error() {
    let source = r#"
        PUSH 100000
        RET
    "#;
    let bytes = assemble(source).expect("assemble");
    let r = run_bytes(&bytes, "");
    let msg = r.result.unwrap_err();
    assert!(msg.contains("EVM002"), "{}", msg);
}

#[test]
fn call_outside_code_is_an_evm003_error() {
    let source = r#"
        CALL 100000
        HLT
    "#;
    let bytes = assemble(source).expect("assemble");
    let r = run_bytes(&bytes, "");
    let msg = r.result.unwrap_err();
    assert!(msg.contains("EVM003"), "{}", msg);
}

#[test]
fn pop_on_empty_stack_warns() {
    let bytes = assemble("POP R1\nHLT\n").expect("assemble");
    let r = run_bytes(&bytes, "");
    r.result.expect("run");
    assert!(r.state.warnings.iter().any(|w| w.contains("POP on empty stack")));
}

#[test]
fn float_division_by_zero_warns_infinite() {
    let source = r#"
        FMOV FPR0 1.0
        FDIV FPR0 0.0
        HLT
    "#;
    let bytes = assemble(source).expect("assemble");
    let r = run_bytes(&bytes, "");
    r.result.expect("run");
    assert!(r.state.warnings.iter().any(|w| w.contains("FP result is infinite")));
}

#[test]
fn add_then_sub_restores_register() {
    let source = r#"
        MOV R1 123456789
        ADD R1 987654321
        SUB R1 987654321
        OUT 1 R1
        HLT
    "#;
    let (out, _) = run_source_with_io(source, "");
    assert_eq!(out.trim(), "123456789");
}

#[test]
fn store_then_load_gives_value_back() {
    let source = r#"
        buf: RESQ 2
        MOV R1 buf
        MOV $R1 77
        MOV R2 $R1
        OUT 1 R2
        HLT
    "#;
    let (out, _) = run_source_with_io(source, "");
    assert_eq!(out.trim(), "77");
}

#[test]
fn cmp_equal_values_sets_zero_flag() {
    let source = r#"
        MOV R1 5
        CMP R1 R1
        HLT
    "#;
    let bytes = assemble(source).expect("assemble");
    let r = run_bytes(&bytes, "");
    r.result.expect("run");
    assert!(r.state.flags.0);
    assert!(!r.state.flags.1);
}

#[test]
fn a_program_starts_with_its_data_as_memory() {
    let bytes = assemble("x: DB 7, 8, 9\nHLT\n").expect("assemble");
    let m = parse_masi_bytes(&bytes).expect("parse");
    let st = masm::interpreter::program_state(&m);
    assert_eq!(st.memory, m.data);
    assert!(st.stack.is_empty() && st.errors.is_empty() && st.warnings.is_empty());
    assert_eq!(st.rip, 0);
}

#[test]
fn steps_go_on_inside_the_code_or_fault() {
    let bytes = assemble("NOP\nJMP 1000\nHLT\n").expect("assemble");
    let m = parse_masi_bytes(&bytes).expect("parse");
    let mut st = masm::interpreter::program_state(&m);
    match masm::vm::step_exec(&mut st, &m.code, 0) {
        Some(Outcome::Next(n)) => assert_eq!(n, 1),
        _ => panic!("NOP goes on"),
    }
    match masm::vm::step_exec(&mut st, &m.code, 1) {
        Some(Outcome::Fault(e)) => assert!(e.starts_with("error[EVM004]"), "{}", e),
        _ => panic!("a jump past the code faults"),
    }
}
