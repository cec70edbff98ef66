use masm::interpreter::{AllocRegistry, MniCtx, State};
use masm::natives::{builtin_native, call_native, native_fits_exec, raylib_clear_buffer, raylib_set_pixel, Native};

fn ctx(mem: Vec<u8>, args: &[&str]) -> MniCtx {
    let mut st = State::new();
    st.memory = mem;
    MniCtx { state: st, args: args.iter().map(|s| s.to_string()).collect() }
}

fn call(n: Native, c: &mut MniCtx, al: &mut AllocRegistry) {
    assert!(native_fits_exec(n, c, al));
    call_native(n, c, al);
}

#[test]
fn builtin_names_are_lower_case() {
    assert_eq!(builtin_native("tool", "set_rax"), Some(Native::SetRax));
    assert_eq!(builtin_native("memory", "allocate"), Some(Native::Allocate));
    assert_eq!(builtin_native("memory", "free"), Some(Native::Free));
    assert_eq!(builtin_native("memory", "write_bytes"), Some(Native::WriteBytes));
    assert_eq!(builtin_native("memory", "realloc"), Some(Native::Realloc));
    assert_eq!(builtin_native("Memory", "allocate"), None);
    assert_eq!(builtin_native("math", "sqrt"), None);
}

#[test]
fn set_rax_parses_signed_decimal() {
    let mut al = AllocRegistry::new();
    let mut c = ctx(vec![], &["-1"]);
    call(Native::SetRax, &mut c, &mut al);
    assert_eq!(c.state.reg(1), u64::MAX);
    let mut c = ctx(vec![], &["abc"]);
    call(Native::SetRax, &mut c, &mut al);
    assert_eq!(c.state.reg(1), 0);
}

#[test]
fn allocate_grows_memory_and_returns_base_in_r1() {
    let mut al = AllocRegistry::new();
    let mut c = ctx(vec![9, 9], &["4"]);
    call(Native::Allocate, &mut c, &mut al);
    assert_eq!(c.state.memory, vec![9, 9, 0, 0, 0, 0]);
    assert_eq!(c.state.reg(33), 2);
    assert_eq!(al.get(2), Some(4));
    let mut f = ctx(vec![], &["2"]);
    call(Native::Free, &mut f, &mut al);
    assert_eq!(al.get(2), None);
}

#[test]
fn write_bytes_stores_text_with_terminator() {
    let mut al = AllocRegistry::new();
    let mut c = ctx(vec![1, 2, 3], &["1", "hé"]);
    call(Native::WriteBytes, &mut c, &mut al);
    assert_eq!(c.state.memory, vec![1, b'h', 0xC3, 0xA9, 0]);
    assert_eq!(c.state.reg(1), 4);
    assert_eq!(al.get(1), Some(4));
}

#[test]
fn realloc_in_place_at_the_end_of_memory() {
    let mut al = AllocRegistry::new();
    let mut c = ctx(vec![7], &["3"]);
    call(Native::Allocate, &mut c, &mut al);
    c.state.memory[1] = 5;
    c.args = vec!["1".to_string(), "5".to_string()];
    call(Native::Realloc, &mut c, &mut al);
    assert_eq!(c.state.reg(1), 1);
    assert_eq!(c.state.memory, vec![7, 5, 0, 0, 0, 0]);
    c.args = vec!["1".to_string(), "1".to_string()];
    call(Native::Realloc, &mut c, &mut al);
    assert_eq!(c.state.memory, vec![7, 5]);
    assert_eq!(al.get(1), Some(1));
}

#[test]
fn realloc_moves_a_block_that_is_not_last() {
    let mut al = AllocRegistry::new();
    let mut c = ctx(vec![], &["2"]);
    call(Native::Allocate, &mut c, &mut al);
    c.args = vec!["2".to_string()];
    call(Native::Allocate, &mut c, &mut al);
    c.state.memory[0] = 0xAA;
    c.state.memory[1] = 0xBB;
    c.args = vec!["0".to_string(), "3".to_string()];
    call(Native::Realloc, &mut c, &mut al);
    assert_eq!(c.state.reg(1), 4);
    assert_eq!(c.state.memory, vec![0xAA, 0xBB, 0, 0, 0xAA, 0xBB, 0]);
    assert_eq!(al.get(0), None);
    assert_eq!(al.get(4), Some(3));
}

#[test]
fn realloc_of_an_unknown_block_fails_with_max() {
    let mut al = AllocRegistry::new();
    let mut c = ctx(vec![], &["8", "16"]);
    call(Native::Realloc, &mut c, &mut al);
    assert_eq!(c.state.reg(1), u64::MAX);
    let mut c = ctx(vec![], &["8"]);
    call(Native::Realloc, &mut c, &mut al);
    assert_eq!(c.state.reg(1), u64::MAX);
}

#[test]
fn oversized_allocation_does_not_fit() {
    let al = AllocRegistry::new();
    let c = ctx(vec![0], &[&u64::MAX.to_string()]);
    assert!(!native_fits_exec(Native::Allocate, &c, &al));
}

#[test]
fn set_pixel_writes_rgba_at_the_pixel_and_grows_memory() {
    let mut mem: Vec<u8> = Vec::new();
    raylib_set_pixel(&mut mem, 0, 2, 1, 1, (10, 20, 30, 40));
    let mut expected = vec![0u8; 12];
    expected.extend_from_slice(&[10, 20, 30, 40]);
    assert_eq!(mem, expected);
}

#[test]
fn set_pixel_keeps_the_other_bytes() {
    let mut mem: Vec<u8> = vec![7; 20];
    raylib_set_pixel(&mut mem, 4, 3, 0, 1, (1, 2, 3, 255));
    let mut expected = vec![7u8; 20];
    expected[16..20].copy_from_slice(&[1, 2, 3, 255]);
    assert_eq!(mem, expected);
}

#[test]
fn set_pixel_with_zero_width_does_nothing() {
    let mut mem: Vec<u8> = vec![5, 6];
    raylib_set_pixel(&mut mem, 0, 0, 3, 3, (1, 2, 3, 4));
    assert_eq!(mem, vec![5, 6]);
}

#[test]
fn clear_buffer_paints_every_pixel() {
    let mut mem: Vec<u8> = vec![9, 9, 9];
    raylib_clear_buffer(&mut mem, 2, 2, 1, (1, 2, 3, 4));
    assert_eq!(mem, vec![9, 9, 1, 2, 3, 4, 1, 2, 3, 4]);
}

#[test]
fn clear_buffer_inside_memory_keeps_the_rest() {
    let mut mem: Vec<u8> = vec![0; 12];
    raylib_clear_buffer(&mut mem, 1, 1, 2, (255, 0, 128, 7));
    assert_eq!(mem, vec![0, 255, 0, 128, 7, 255, 0, 128, 7, 0, 0, 0]);
}

#[test]
fn clear_buffer_with_zero_height_does_nothing() {
    let mut mem: Vec<u8> = vec![1];
    raylib_clear_buffer(&mut mem, 0, 4, 0, (1, 2, 3, 4));
    assert_eq!(mem, vec![1]);
}

#[test]
fn pixel_natives_are_built_in() {
    assert_eq!(builtin_native("raylib", "set_pixel"), Some(Native::SetPixel));
    assert_eq!(builtin_native("raylib", "clear_buffer"), Some(Native::ClearBuffer));
}

#[test]
fn set_pixel_native_reads_numbers_hex_and_registers() {
    let mut c = ctx(vec![], &["0x4", " 2 ", "$r1", "0", "1", "2", "3", "4"]);
    let r1 = masm::register_map::reg_id(&['R', '1']).unwrap();
    c.state.set_reg(r1, 2);
    let mut al = AllocRegistry::new();
    call(Native::SetPixel, &mut c, &mut al);
    let mut expected = vec![0u8; 12];
    expected.extend_from_slice(&[1, 2, 3, 4]);
    assert_eq!(c.state.memory, expected);
}

#[test]
fn set_pixel_native_colour_defaults() {
    let mut c = ctx(vec![9; 4], &["0", "1", "0", "0", "x", "+7", "256", "oops"]);
    let mut al = AllocRegistry::new();
    call(Native::SetPixel, &mut c, &mut al);
    assert_eq!(c.state.memory, vec![0, 7, 0, 255]);
}

#[test]
fn pixel_natives_need_all_their_arguments() {
    let mut c = ctx(vec![1, 2], &["0", "1", "0", "0", "1", "2", "3"]);
    let mut al = AllocRegistry::new();
    call(Native::SetPixel, &mut c, &mut al);
    assert_eq!(c.state.memory, vec![1, 2]);
    let mut c = ctx(vec![1, 2], &["0", "1", "1", "1", "2", "3"]);
    call(Native::ClearBuffer, &mut c, &mut al);
    assert_eq!(c.state.memory, vec![1, 2]);
}

#[test]
fn clear_buffer_native_paints_the_buffer() {
    let mut c = ctx(vec![], &["1", "2", "1", "10", "20", "30", "40"]);
    let mut al = AllocRegistry::new();
    call(Native::ClearBuffer, &mut c, &mut al);
    assert_eq!(c.state.memory, vec![0, 10, 20, 30, 40, 10, 20, 30, 40]);
}

#[test]
fn pixel_native_with_unknown_register_uses_zero() {
    let mut c = ctx(vec![], &["nope", "1", "0", "0", "5", "6", "7", "8"]);
    let mut al = AllocRegistry::new();
    call(Native::SetPixel, &mut c, &mut al);
    assert_eq!(c.state.memory, vec![5, 6, 7, 8]);
}
