use masm::asm_lines::{AsmEnv, Need};
use masm::assembler::{assemble_to_masi, assemble_to_masi_with_base, AsmStep};
use masm::disassembler::parse_masi_bytes;
use masm::interpreter::{Io, State, Stop};
use masm::vm::run_exec;

/// Assembles with the given files standing in for the file system: binary
/// includes from `files`, source includes from `texts`, both by the path
/// the assembler asks for.
fn assemble_with(
    src: &str,
    base: Option<&str>,
    files: &[(&str, Vec<u8>)],
    texts: &[(&str, &str)],
) -> (Vec<String>, Result<Vec<u8>, String>, Vec<String>) {
    let mut env = AsmEnv::new();
    let mut asked: Vec<String> = Vec::new();
    loop {
        let step = match base {
            Some(b) => assemble_to_masi_with_base(src, b, &env),
            None => assemble_to_masi(src, &env),
        };
        match step {
            AsmStep::Done(w, r) => return (w, r, asked),
            AsmStep::Need(Need::Float(t)) => {
                let s: String = t.iter().collect();
                env.add_float(&t, s.parse::<f32>().ok().map(|f| f.to_bits()), s.parse::<f64>().ok().map(|f| f.to_bits()));
            }
            AsmStep::Need(Need::File(p)) => {
                let ps: String = p.iter().collect();
                asked.push(ps.clone());
                match files.iter().find(|(n, _)| *n == ps) {
                    Some((_, b)) => env.add_file(&p, Ok(b.clone())),
                    None => {
                        let m: Vec<char> = format!("Failed to read include data '{}': not found", ps).chars().collect();
                        env.add_file(&p, Err(m));
                    }
                }
            }
            AsmStep::Need(Need::Text(p)) => {
                let ps: String = p.iter().collect();
                asked.push(ps.clone());
                match texts.iter().find(|(n, _)| *n == ps) {
                    Some((_, t)) => env.add_text(&p, Ok(t.chars().collect())),
                    None => {
                        let m: Vec<char> = format!("Failed to read include '{}': not found", ps).chars().collect();
                        env.add_text(&p, Err(m));
                    }
                }
            }
        }
    }
}

fn run_out(bytes: &[u8]) -> (String, String) {
    let masi = parse_masi_bytes(bytes).expect("load masi");
    let mut st = State::new();
    st.memory = masi.data.clone();
    let mut io = Io::new(Vec::new());
    let (_, stop) = run_exec(&mut st, &masi.code, masi.entry as usize, &mut io, 100_000);
    assert!(matches!(stop, Stop::End));
    (String::from_utf8_lossy(&io.out).to_string(), String::from_utf8_lossy(&io.err).to_string())
}

#[test]
fn test_include_source_file() {
    let source = "#include \"inc.masm\"\nOUT 1 $msg\nHLT\n";
    let (_, r, asked) = assemble_with(source, Some("/tmp/proj"), &[], &[("/tmp/proj/inc.masm", "msg: DB \"INC\", 0\n")]);
    assert_eq!(asked, vec!["/tmp/proj/inc.masm".to_string()]);
    let (out, err) = run_out(&r.expect("assemble with base"));
    assert_eq!(err, "");
    assert_eq!(out, "INC\n");
}

#[test]
fn test_include_bytes_and_len() {
    let bytes: Vec<u8> = vec![0x11, 0x22, 0x33, 0x44, 0x55, 0x66, 0x77, 0x88];
    let source = "#include_bytes data, \"data.bin\"\n\
         MOV R1 data\n\
         MOV R2 $R1\n\
         OUT 1 R2\n\
         MOV R3 data_len\n\
         MOV R4 $R3\n\
         OUT 1 R4\n\
         HLT\n";
    let (_, r, _) = assemble_with(source, Some("/tmp/proj"), &[("/tmp/proj/data.bin", bytes)], &[]);
    let (out, err) = run_out(&r.expect("assemble with base"));
    assert_eq!(err, "");
    let lines: Vec<&str> = out.lines().collect();
    assert_eq!(lines.len(), 2);
    assert_eq!(lines[0].parse::<u64>().unwrap(), 0x8877665544332211);
    assert_eq!(lines[1].parse::<u64>().unwrap(), 8);
}

#[test]
fn test_include_dq_and_len() {
    let mut bytes: Vec<u8> = Vec::new();
    bytes.extend_from_slice(&1u64.to_le_bytes());
    bytes.extend_from_slice(&2u64.to_le_bytes());
    let source = "#include_dq tab, \"table.bin\"\n\
         MOV R1 tab\n\
         MOV R2 $R1\n\
         OUT 1 R2\n\
         MOV R3 tab\n\
         ADD R3 8\n\
         MOV R3 $R3\n\
         OUT 1 R3\n\
         MOV R4 tab_len\n\
         MOV R4 $R4\n\
         OUT 1 R4\n\
         HLT\n";
    let (_, r, _) = assemble_with(source, Some("/tmp/proj"), &[("/tmp/proj/table.bin", bytes)], &[]);
    let (out, err) = run_out(&r.expect("assemble with base"));
    assert_eq!(err, "");
    let lines: Vec<&str> = out.lines().collect();
    assert_eq!(lines, vec!["1", "2", "16"]);
}

#[test]
fn nested_include_resolves_against_the_including_file() {
    let source = "#include \"lib/a.masm\"\nOUT 1 $m\nHLT\n";
    let (_, r, asked) = assemble_with(
        source,
        Some("/p"),
        &[],
        &[("/p/lib/a.masm", "#include \"b.masm\" ; more\n"), ("/p/lib/b.masm", "m: DB \"B\", 0\n")],
    );
    assert_eq!(asked, vec!["/p/lib/a.masm".to_string(), "/p/lib/b.masm".to_string()]);
    let (out, _) = run_out(&r.expect("assemble"));
    assert_eq!(out, "B\n");
}

#[test]
fn missing_include_fails_the_assembly() {
    let (w, r, _) = assemble_with("#include \"nope.masm\"\nHLT\n", None, &[], &[]);
    assert!(w.is_empty());
    assert_eq!(r.unwrap_err(), "Failed to read include 'nope.masm': not found");
}

#[test]
fn self_include_stops_at_the_depth_limit() {
    let (_, r, _) = assemble_with("#include \"loop.masm\"\n", None, &[], &[("loop.masm", "#include \"loop.masm\"\n")]);
    assert_eq!(r.unwrap_err(), "error[EASM004]: include depth exceeds limit (depth=33)");
}

#[test]
fn missing_binary_include_is_a_warning() {
    let (w, r, _) = assemble_with("#include_bytes d, \"x.bin\"\nHLT\n", None, &[], &[]);
    assert!(r.is_ok());
    assert!(w.iter().any(|m| m == "Failed to read include data 'x.bin': not found"));
}
