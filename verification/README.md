# masm

A Micro-Assembly toolchain: an assembler from MASM source to MASI object
files, a disassembler and dumper, a linker, and a virtual machine with a
line-driven debugger. The library under `src/` is verified with Verus; the
command-line tool under `app/` wraps it with the file system, the console,
floating-point arithmetic and the native-module host.

## Layout

- `src/text.rs`, `src/number.rs`, `src/fmt.rs`, `src/le.rs`, `src/assoc.rs`:
  character sequences, integer literals, number formatting, little-endian
  encoding, association lists.
- `src/macros.rs`, `src/includes.rs`, `src/asm_lines.rs`, `src/parse.rs`:
  macro expansion, source includes, data directives and instruction lines.
- `src/layout.rs`, `src/encode.rs`, `src/tables.rs`, `src/assembler.rs`:
  label layout, operand encoding, the MASI tables, and the assembler.
- `src/masi.rs`, `src/disassembler.rs`, `src/linker.rs`: reading and
  writing MASI files, disassembly and dumps, linking.
- `src/vm.rs`, `src/natives.rs`, `src/interpreter.rs`, `src/debugger.rs`:
  the instruction semantics, the built-in native functions, the run
  entry points and the debuggers' decisions.
- `app/`: the `masm` command (assemble, run, debug, disassemble, dump,
  link), the Lua and shared-library native modules, and the terminal
  debuggers.

## What needs the host

The assembler asks for what it cannot compute itself: the bit patterns
of floating-point literals and the contents of include files. It returns
`AsmStep::Need(..)`; the caller adds the answer to the `AsmEnv` and calls
again. The VM likewise stops for floating-point arithmetic and native
calls (`Outcome::Float`, `Outcome::Compare`, `Outcome::Mni`), which the
host performs before it resumes at the offset given.
