//! Line-level parsing for the assembler: data directives, instruction
//! lines and the values they refer to.
use vstd::prelude::*;
use std::collections::hash_map::DefaultHasher;
use std::hash::Hasher;
use vstd::std_specs::hash::DefaultHasherAdditionalSpecFns;
use crate::text::{
    trim, trim_chars, views, slice_chars, copy_chars, eq_chars, str_chars, chars_to_string, starts_with,
    starts_with_chars, skip_bytes, skip_bytes_chars, lower_chars, lower_text, all_ascii, ascii_lower, split_ws,
    split_ws_chars, split_on, find_char, find_char_from, lemma_find_char_facts, eq_ignore_case,
    eq_ignore_case_str, contains_char, split_once, is_ws,
};
use crate::fmt::{zero_pad, hex_lower, hex_lower_chars, zero_pad_chars, append_chars, is_lower_hex_digit, lemma_hex_lower_u64};
use crate::number::{
    spec_parse_u64, spec_parse_i64, all_digits, digit_of, spec_parse_i128, parse_u64_radix, parse_i64_dec, parse_i128_dec,
};
use crate::assoc::{assoc_get, pairs_view};
use crate::le::le_bytes;

verus! {

// ------------------------------------------------------------ values

/// A quad-word data value: a number, or the offset of a data label.
pub enum Val {
    Imm(u64),
    Sym(Vec<char>),
}

pub enum SVal {
    Imm(u64),
    Sym(Seq<char>),
}

/// A data directive, with its values already laid out as bytes where
/// no label needs resolving.
pub enum Dir {
    Bytes(Option<Vec<char>>, Vec<u8>),
    Quads(Option<Vec<char>>, Vec<Val>),
    /// Reserved zero bytes; `None` when the size overflows.
    Res(Option<Vec<char>>, Option<usize>),
    /// Bytes written at an absolute data address, followed by a zero.
    Direct(usize, Vec<u8>),
}

pub enum SDir {
    Bytes(Option<Seq<char>>, Seq<u8>),
    Quads(Option<Seq<char>>, Seq<SVal>),
    Res(Option<Seq<char>>, Option<nat>),
    Direct(nat, Seq<u8>),
}

/// An instruction line: a label (`kind` 0, its name in `ops[0]`), an
/// ordinary instruction (`kind` 1) or a native-module call (`kind` 2:
/// module, function, then arguments).
pub struct Inst {
    pub kind: u8,
    pub opcode: u8,
    pub ops: Vec<Vec<char>>,
}

pub struct SInst {
    pub kind: u8,
    pub opcode: u8,
    pub ops: Seq<Seq<char>>,
}

/// What the assembler needs from outside before it can go on: the value
/// of a floating-point literal, the contents of a binary include file, or
/// the text of a source include file.
pub enum Need {
    Float(Vec<char>),
    File(Vec<char>),
    Text(Vec<char>),
}

pub enum SNeed {
    Float(Seq<char>),
    File(Seq<char>),
    Text(Seq<char>),
}

/// Floating-point literal values (`f32` and `f64` bit patterns, `None`
/// where the literal does not parse), binary include files (contents, or
/// the message to report when reading failed) and source include files
/// (text, or the error that ends the assembly), keyed by their text.
pub struct AsmEnv {
    pub floats: Vec<(Vec<char>, Option<u32>, Option<u64>)>,
    pub files: Vec<(Vec<char>, Result<Vec<u8>, Vec<char>>)>,
    pub texts: Vec<(Vec<char>, Result<Vec<char>, Vec<char>>)>,
}

pub open spec fn val_view(v: Val) -> SVal {
    match v {
        Val::Imm(x) => SVal::Imm(x),
        Val::Sym(s) => SVal::Sym(s@),
    }
}

pub open spec fn opt_view(o: Option<Vec<char>>) -> Option<Seq<char>> {
    match o {
        Some(v) => Some(v@),
        None => None,
    }
}

pub open spec fn dir_view(d: Dir) -> SDir {
    match d {
        Dir::Bytes(l, b) => SDir::Bytes(opt_view(l), b@),
        Dir::Quads(l, v) => SDir::Quads(opt_view(l), v@.map_values(|x: Val| val_view(x))),
        Dir::Res(l, n) => SDir::Res(
            opt_view(l),
            match n {
                Some(k) => Some(k as nat),
                None => None,
            },
        ),
        Dir::Direct(a, b) => SDir::Direct(a as nat, b@),
    }
}

pub open spec fn inst_view(i: Inst) -> SInst {
    SInst { kind: i.kind, opcode: i.opcode, ops: views(i.ops@) }
}

pub open spec fn need_view(n: Need) -> SNeed {
    match n {
        Need::Float(t) => SNeed::Float(t@),
        Need::File(p) => SNeed::File(p@),
        Need::Text(p) => SNeed::Text(p@),
    }
}

/// What the assembler has been given from outside.
pub struct SEnv {
    pub floats: Seq<(Seq<char>, (Option<u32>, Option<u64>))>,
    pub files: Seq<(Seq<char>, Result<Seq<u8>, Seq<char>>)>,
    pub texts: Seq<(Seq<char>, Result<Seq<char>, Seq<char>>)>,
}

pub open spec fn env_view(e: AsmEnv) -> SEnv {
    SEnv { floats: floats_view(e), files: files_view(e), texts: texts_view(e) }
}

pub open spec fn text_view(r: Result<Vec<char>, Vec<char>>) -> Result<Seq<char>, Seq<char>> {
    match r {
        Ok(t) => Ok(t@),
        Err(m) => Err(m@),
    }
}

pub open spec fn texts_view(e: AsmEnv) -> Seq<(Seq<char>, Result<Seq<char>, Seq<char>>)> {
    e.texts@.map_values(|p: (Vec<char>, Result<Vec<char>, Vec<char>>)| (p.0@, text_view(p.1)))
}

pub open spec fn floats_view(e: AsmEnv) -> Seq<(Seq<char>, (Option<u32>, Option<u64>))> {
    e.floats@.map_values(|p: (Vec<char>, Option<u32>, Option<u64>)| (p.0@, (p.1, p.2)))
}

pub open spec fn file_view(r: Result<Vec<u8>, Vec<char>>) -> Result<Seq<u8>, Seq<char>> {
    match r {
        Ok(b) => Ok(b@),
        Err(m) => Err(m@),
    }
}

pub open spec fn files_view(e: AsmEnv) -> Seq<(Seq<char>, Result<Seq<u8>, Seq<char>>)> {
    e.files@.map_values(|p: (Vec<char>, Result<Vec<u8>, Vec<char>>)| (p.0@, file_view(p.1)))
}

impl AsmEnv {
    pub fn new() -> (r: AsmEnv)
        ensures
            floats_view(r) == Seq::<(Seq<char>, (Option<u32>, Option<u64>))>::empty(),
            files_view(r) == Seq::<(Seq<char>, Result<Seq<u8>, Seq<char>>)>::empty(),
            texts_view(r) == Seq::<(Seq<char>, Result<Seq<char>, Seq<char>>)>::empty(),
    {
        let r = AsmEnv { floats: Vec::new(), files: Vec::new(), texts: Vec::new() };
        assert(texts_view(r) =~= Seq::<(Seq<char>, Result<Seq<char>, Seq<char>>)>::empty());
        assert(floats_view(r) =~= Seq::<(Seq<char>, (Option<u32>, Option<u64>))>::empty());
        assert(files_view(r) =~= Seq::<(Seq<char>, Result<Seq<u8>, Seq<char>>)>::empty());
        r
    }

    /// Records the `f32` and `f64` bit patterns of a literal.
    pub fn add_float(&mut self, token: &[char], f32_bits: Option<u32>, f64_bits: Option<u64>)
        ensures
            floats_view(*final(self)) == floats_view(*old(self)).push((token@, (f32_bits, f64_bits))),
            files_view(*final(self)) == files_view(*old(self)),
            texts_view(*final(self)) == texts_view(*old(self)),
    {
        let t = copy_chars(token);
        let ghost before = floats_view(*self);
        self.floats.push((t, f32_bits, f64_bits));
        assert(floats_view(*self) =~= before.push((token@, (f32_bits, f64_bits))));
    }

    /// Records the contents of a binary include file, or the message to
    /// report when it could not be read.
    pub fn add_file(&mut self, path: &[char], contents: Result<Vec<u8>, Vec<char>>)
        ensures
            files_view(*final(self)) == files_view(*old(self)).push((path@, file_view(contents))),
            floats_view(*final(self)) == floats_view(*old(self)),
            texts_view(*final(self)) == texts_view(*old(self)),
    {
        let p = copy_chars(path);
        let ghost before = files_view(*self);
        let ghost c = file_view(contents);
        self.files.push((p, contents));
        assert(files_view(*self) =~= before.push((path@, c)));
    }

    /// Records the text of a source include file, or the error message
    /// that reading it ends the assembly with.
    pub fn add_text(&mut self, path: &[char], contents: Result<Vec<char>, Vec<char>>)
        ensures
            texts_view(*final(self)) == texts_view(*old(self)).push((path@, text_view(contents))),
            floats_view(*final(self)) == floats_view(*old(self)),
            files_view(*final(self)) == files_view(*old(self)),
    {
        let p = copy_chars(path);
        let ghost before = texts_view(*self);
        let ghost c = text_view(contents);
        self.texts.push((p, contents));
        assert(texts_view(*self) =~= before.push((path@, c)));
    }
}

pub fn env_float(env: &AsmEnv, tok: &[char]) -> (r: Option<(Option<u32>, Option<u64>)>)
    ensures
        r == assoc_get(floats_view(*env), tok@),
{
    let mut i = env.floats.len();
    proof {
        assert(floats_view(*env).take(i as int) =~= floats_view(*env));
    }
    while i > 0
        invariant
            i <= env.floats@.len(),
            assoc_get(floats_view(*env).take(i as int), tok@) == assoc_get(floats_view(*env), tok@),
        decreases i,
    {
        let ghost pv = floats_view(*env).take(i as int);
        proof {
            assert(floats_view(*env).take(i - 1) =~= pv.drop_last());
        }
        if eq_chars(env.floats[i - 1].0.as_slice(), tok) {
            return Some((env.floats[i - 1].1, env.floats[i - 1].2));
        }
        i = i - 1;
    }
    proof {
        assert(floats_view(*env).take(0) =~= Seq::<(Seq<char>, (Option<u32>, Option<u64>))>::empty());
    }
    None
}

pub fn env_file(env: &AsmEnv, path: &[char]) -> (r: Option<Result<Vec<u8>, Vec<char>>>)
    ensures
        match assoc_get(files_view(*env), path@) {
            Some(f) => r matches Some(x) && file_view(x) == f,
            None => r is None,
        },
{
    let mut i = env.files.len();
    proof {
        assert(files_view(*env).take(i as int) =~= files_view(*env));
    }
    while i > 0
        invariant
            i <= env.files@.len(),
            assoc_get(files_view(*env).take(i as int), path@) == assoc_get(files_view(*env), path@),
        decreases i,
    {
        let ghost pv = files_view(*env).take(i as int);
        proof {
            assert(files_view(*env).take(i - 1) =~= pv.drop_last());
        }
        if eq_chars(env.files[i - 1].0.as_slice(), path) {
            let r = match &env.files[i - 1].1 {
                Ok(b) => Ok(crate::le::copy_bytes(b.as_slice(), 0, b.len())),
                Err(m) => Err(slice_chars(m.as_slice(), 0, m.len())),
            };
            proof {
                match &r {
                    Ok(b) => { assert(b@ =~= env.files@[i - 1].1->Ok_0@); },
                    Err(m) => { assert(m@ =~= env.files@[i - 1].1->Err_0@); },
                }
            }
            return Some(r);
        }
        i = i - 1;
    }
    proof {
        assert(files_view(*env).take(0) =~= Seq::<(Seq<char>, Result<Seq<u8>, Seq<char>>)>::empty());
    }
    None
}

// ------------------------------------------------------------ string literals

pub open spec fn escape_byte(c: char) -> u8 {
    if c == 'n' {
        10
    } else if c == 'r' {
        13
    } else if c == 't' {
        9
    } else if c == '\\' {
        92
    } else if c == '"' {
        34
    } else if c == '0' {
        0
    } else {
        ((c as u32) % 256) as u8
    }
}

/// The bytes of the inside of a string literal: `\n \r \t \\ \" \0`
/// escapes, any other escaped or plain character as the low byte of its
/// code point; a trailing lone backslash ends the string.
pub open spec fn unescape(s: Seq<char>) -> Seq<u8>
    decreases s.len(),
{
    if s.len() == 0 {
        seq![]
    } else if s[0] == '\\' {
        if s.len() == 1 {
            seq![]
        } else {
            seq![escape_byte(s[1])] + unescape(s.skip(2))
        }
    } else {
        seq![((s[0] as u32) % 256) as u8] + unescape(s.drop_first())
    }
}

pub open spec fn string_literal(tok: Seq<char>) -> Option<Seq<u8>> {
    if tok.len() < 2 || tok[0] != '"' || tok.last() != '"' {
        None
    } else {
        Some(unescape(tok.subrange(1, tok.len() - 1)))
    }
}

pub fn parse_string_literal(tok: &[char]) -> (r: Option<Vec<u8>>)
    ensures
        match string_literal(tok@) {
            Some(b) => r matches Some(v) && v@ == b,
            None => r is None,
        },
{
    if tok.len() < 2 || tok[0] != '"' || tok[tok.len() - 1] != '"' {
        return None;
    }
    let inner = slice_chars(tok, 1, tok.len() - 1);
    let mut out: Vec<u8> = Vec::new();
    let mut i: usize = 0;
    proof {
        assert(inner@.skip(0) =~= inner@);
    }
    while i < inner.len()
        invariant
            i <= inner@.len(),
            out@ + unescape(inner@.skip(i as int)) == unescape(inner@),
        decreases inner.len() - i,
    {
        let ghost t = inner@.skip(i as int);
        let ghost before = out@;
        let c = inner[i];
        if c == '\\' {
            if i + 1 >= inner.len() {
                proof {
                    assert(t.len() == 1);
                    assert(inner@.skip(inner@.len() as int) =~= Seq::<char>::empty());
                    assert(out@ + unescape(inner@.skip(inner@.len() as int)) =~= out@);
                }
                i = inner.len();
            } else {
                let n = inner[i + 1];
                let b: u8 = if n == 'n' {
                    10
                } else if n == 'r' {
                    13
                } else if n == 't' {
                    9
                } else if n == '\\' {
                    92
                } else if n == '"' {
                    34
                } else if n == '0' {
                    0
                } else {
                    ((n as u32) % 256) as u8
                };
                out.push(b);
                proof {
                    assert(t.skip(2) =~= inner@.skip(i + 2));
                    assert(t[1] == n);
                    assert(out@ + unescape(inner@.skip(i + 2)) =~= before + unescape(t));
                }
                i = i + 2;
            }
        } else {
            out.push(((c as u32) % 256) as u8);
            proof {
                assert(t.drop_first() =~= inner@.skip(i + 1));
                assert(out@ + unescape(inner@.skip(i + 1)) =~= before + unescape(t));
            }
            i = i + 1;
        }
    }
    proof {
        assert(inner@.skip(i as int) =~= Seq::<char>::empty());
        assert(out@ + unescape(inner@.skip(i as int)) =~= out@);
    }
    Some(out)
}

// ------------------------------------------------------------ hashing

/// `format!("{:08x}", h)` of the default hasher's result `h` for the
/// UTF-8 bytes of `s` followed by the `0xFF` terminator that `str` hashing adds.
pub open spec fn spec_short_hash(s: Seq<char>) -> Seq<char> {
    zero_pad(
        hex_lower(
            DefaultHasher::spec_finish(seq![vstd::utf8::encode_utf8(s), seq![0xFFu8]]) as nat,
        ),
        8,
    )
}

/// The hash fragment of any text is eight to sixteen lower-case
/// hexadecimal digits.
pub proof fn lemma_short_hash_shape(s: Seq<char>)
    ensures
        8 <= spec_short_hash(s).len() <= 16,
        forall|i: int|
            0 <= i < spec_short_hash(s).len() ==> is_lower_hex_digit(#[trigger] spec_short_hash(s)[i]),
{
    let h = DefaultHasher::spec_finish(seq![vstd::utf8::encode_utf8(s), seq![0xFFu8]]);
    lemma_hex_lower_u64(h);
    let d = hex_lower(h as nat);
    let r = spec_short_hash(s);
    if d.len() < 8 {
        assert forall|i: int| 0 <= i < r.len() implies is_lower_hex_digit(#[trigger] r[i]) by {
            if i >= 8 - d.len() {
                assert(r[i] == d[i - (8 - d.len())]);
            }
        }
    }
}

/// A short deterministic name fragment for `s`: its default hash as at
/// least eight lower-case hexadecimal digits.
pub fn short_hash(s: &str) -> (r: String)
    ensures
        r@ == spec_short_hash(s@),
{
    let mut h = DefaultHasher::new();
    h.write(s.as_bytes());
    let term: [u8; 1] = [0xFFu8];
    h.write(&term);
    proof {
        assert(term@ =~= seq![0xFFu8]);
        assert(h@ =~= seq![vstd::utf8::encode_utf8(s@), seq![0xFFu8]]);
    }
    let v = h.finish();
    let d = hex_lower_chars(v);
    let p = zero_pad_chars(d, 8);
    chars_to_string(p.as_slice())
}

pub fn short_hash_chars(s: &[char]) -> (r: Vec<char>)
    ensures
        r@ == spec_short_hash(s@),
{
    let st = chars_to_string(s);
    let h = short_hash(st.as_str());
    str_chars(h.as_str())
}

} // verus!

verus! {

// ------------------------------------------------------------ parse state

/// What parsing has collected so far.
pub struct Parse {
    pub insts: Vec<Inst>,
    pub dirs: Vec<Dir>,
    /// Generated data labels of native-module string operands, by content.
    pub mni: Vec<(Vec<char>, Vec<char>)>,
    pub exports: Vec<Vec<char>>,
    /// Imported names and their kinds (0 code, 1 data).
    pub imports: Vec<(Vec<char>, u8)>,
    pub warns: Vec<Vec<char>>,
}

pub struct SParse {
    pub insts: Seq<SInst>,
    pub dirs: Seq<SDir>,
    pub mni: Seq<(Seq<char>, Seq<char>)>,
    pub exports: Seq<Seq<char>>,
    pub imports: Seq<(Seq<char>, u8)>,
    pub warns: Seq<Seq<char>>,
}

pub open spec fn parse_view(p: Parse) -> SParse {
    SParse {
        insts: p.insts@.map_values(|i: Inst| inst_view(i)),
        dirs: p.dirs@.map_values(|d: Dir| dir_view(d)),
        mni: p.mni@.map_values(|q: (Vec<char>, Vec<char>)| (q.0@, q.1@)),
        exports: views(p.exports@),
        imports: pairs_view(p.imports@),
        warns: views(p.warns@),
    }
}

pub open spec fn empty_parse() -> SParse {
    SParse {
        insts: seq![],
        dirs: seq![],
        mni: seq![],
        exports: seq![],
        imports: seq![],
        warns: seq![],
    }
}

impl Parse {
    pub fn new() -> (r: Parse)
        ensures
            parse_view(r) == empty_parse(),
    {
        let r = Parse {
            insts: Vec::new(),
            dirs: Vec::new(),
            mni: Vec::new(),
            exports: Vec::new(),
            imports: Vec::new(),
            warns: Vec::new(),
        };
        assert(parse_view(r).insts =~= empty_parse().insts);
        assert(parse_view(r).dirs =~= empty_parse().dirs);
        assert(parse_view(r).mni =~= empty_parse().mni);
        assert(parse_view(r).exports =~= empty_parse().exports);
        assert(parse_view(r).imports =~= empty_parse().imports);
        assert(parse_view(r).warns =~= empty_parse().warns);
        r
    }

    pub fn push_dir(&mut self, d: Dir)
        ensures
            parse_view(*final(self)) == (SParse {
                dirs: parse_view(*old(self)).dirs.push(dir_view(d)),
                ..parse_view(*old(self))
            }),
    {
        let ghost before = parse_view(*self);
        let ghost dv = dir_view(d);
        self.dirs.push(d);
        assert(parse_view(*self).dirs =~= before.dirs.push(dv));
    }

    pub fn push_inst(&mut self, i: Inst)
        ensures
            parse_view(*final(self)) == (SParse {
                insts: parse_view(*old(self)).insts.push(inst_view(i)),
                ..parse_view(*old(self))
            }),
    {
        let ghost before = parse_view(*self);
        let ghost iv = inst_view(i);
        self.insts.push(i);
        assert(parse_view(*self).insts =~= before.insts.push(iv));
    }

    pub fn push_warn(&mut self, w: Vec<char>)
        ensures
            parse_view(*final(self)) == (SParse {
                warns: parse_view(*old(self)).warns.push(w@),
                ..parse_view(*old(self))
            }),
    {
        let ghost before = parse_view(*self);
        let ghost wv = w@;
        self.warns.push(w);
        assert(parse_view(*self).warns =~= before.warns.push(wv));
    }
}

// ------------------------------------------------------------ labels

/// Position of the first `:` outside double quotes, unless a space or a
/// tab outside quotes comes first.
pub open spec fn colon_scan(t: Seq<char>, i: int, in_str: bool) -> Option<int>
    decreases t.len() - i,
{
    if i < 0 || i >= t.len() {
        None
    } else {
        let c = t[i];
        if c == '"' {
            colon_scan(t, i + 1, !in_str)
        } else if c == ':' && !in_str {
            Some(i)
        } else if (c == ' ' || c == '\t') && !in_str {
            None
        } else {
            colon_scan(t, i + 1, in_str)
        }
    }
}

/// A leading `name:` label (with no blank inside it) and the rest of the line.
pub open spec fn split_label(line: Seq<char>) -> (Option<Seq<char>>, Seq<char>) {
    let t = trim(line);
    match colon_scan(t, 0, false) {
        Some(ci) => {
            let prefix = trim(t.take(ci));
            if prefix.len() > 0 && find_char(prefix, ' ') is None && find_char(prefix, '\t') is None {
                (Some(prefix), trim(t.skip(ci + 1)))
            } else {
                (None, t)
            }
        },
        None => (None, t),
    }
}

fn colon_scan_exec(t: &[char]) -> (r: Option<usize>)
    ensures
        match colon_scan(t@, 0, false) {
            Some(i) => r == Some(i as usize) && 0 <= i < t@.len(),
            None => r is None,
        },
{
    let mut i: usize = 0;
    let mut in_str = false;
    while i < t.len()
        invariant
            i <= t@.len(),
            colon_scan(t@, i as int, in_str) == colon_scan(t@, 0, false),
        decreases t.len() - i,
    {
        let c = t[i];
        if c == '"' {
            in_str = !in_str;
        } else if c == ':' && !in_str {
            return Some(i);
        } else if (c == ' ' || c == '\t') && !in_str {
            return None;
        }
        i = i + 1;
    }
    None
}

pub fn split_label_exec(line: &[char]) -> (r: (Option<Vec<char>>, Vec<char>))
    ensures
        opt_view(r.0) == split_label(line@).0,
        r.1@ == split_label(line@).1,
{
    let t = trim_chars(line);
    match colon_scan_exec(t.as_slice()) {
        Some(ci) => {
            assert(ci < t.len());
            let head = slice_chars(t.as_slice(), 0, ci);
            let prefix = trim_chars(head.as_slice());
            proof {
                assert(head@ =~= t@.take(ci as int));
            }
            if prefix.len() > 0 && !contains_char(prefix.as_slice(), ' ') && !contains_char(
                prefix.as_slice(),
                '\t',
            ) {
                let tail = slice_chars(t.as_slice(), ci + 1, t.len());
                proof {
                    assert(tail@ =~= t@.skip(ci + 1));
                }
                let rest = trim_chars(tail.as_slice());
                (Some(prefix), rest)
            } else {
                (None, t)
            }
        },
        None => (None, t),
    }
}

} // verus!

verus! {

// ------------------------------------------------------------ numeric lists

pub open spec fn hex_prefixed(tok: Seq<char>) -> bool {
    starts_with(lower_text(tok), seq!['0', 'x'])
}

fn hex_prefixed_exec(tok: &[char]) -> (r: bool)
    ensures
        r == hex_prefixed(tok@),
{
    let l = lower_chars(tok);
    let p = vec!['0', 'x'];
    starts_with_chars(l.as_slice(), p.as_slice())
}

/// One element of a `DB` (`kind` 1), `DW` (2), `DD` (4), `DF` (5) or
/// `DDBL` (6) list, as bytes.
pub open spec fn num_tok(kind: u8, raw: Seq<char>, env: SEnv) -> Result<Seq<u8>, SNeed> {
    let tok = trim(raw);
    if kind == 5 || kind == 6 {
        match assoc_get(env.floats, tok) {
            None => Err(SNeed::Float(tok)),
            Some(p) => Ok(
                if kind == 5 {
                    match p.0 {
                        Some(b) => le_bytes(b as nat, 4),
                        None => seq![],
                    }
                } else {
                    match p.1 {
                        Some(b) => le_bytes(b as nat, 8),
                        None => seq![],
                    }
                },
            ),
        }
    } else if kind == 1 && string_literal(tok) is Some {
        Ok(string_literal(tok).unwrap())
    } else if hex_prefixed(tok) {
        let max: int = if kind == 1 {
            0xFF
        } else if kind == 2 {
            0xFFFF
        } else {
            0xFFFF_FFFF
        };
        match spec_parse_u64(skip_bytes(tok, 2), 16) {
            Some(v) => if v <= max {
                Ok(le_bytes(v as nat, kind as nat))
            } else {
                Ok(seq![])
            },
            None => Ok(seq![]),
        }
    } else {
        match spec_parse_i64(tok) {
            Some(v) => Ok(
                if kind == 1 {
                    seq![v as u8]
                } else if kind == 2 {
                    le_bytes((v as u16) as nat, 2)
                } else {
                    le_bytes((v as u32) as nat, 4)
                },
            ),
            None => Ok(seq![]),
        }
    }
}

proof fn lemma_decimal_token_shape(tok: Seq<char>)
    requires
        spec_parse_i64(tok) is Some,
    ensures
        !hex_prefixed(tok),
        string_literal(tok) is None,
{
    assert(tok.len() > 0);
    let body = if tok[0] == '-' || tok[0] == '+' { tok.drop_first() } else { tok };
    assert(all_digits(body, 10));
    assert(tok[0] != '"') by {
        if tok[0] == '"' {
            assert(body[0] == tok[0]);
            assert(digit_of(body[0], 10) is Some);
        }
    }
    if hex_prefixed(tok) {
        if all_ascii(tok) {
            let l = lower_text(tok);
            assert(l[0] == '0' && l[1] == 'x');
            assert(l[0] == ascii_lower(tok[0]));
            assert(l[1] == ascii_lower(tok[1]));
            assert(tok[0] == '0');
            assert(body == tok);
            assert(digit_of(tok[1], 10) is Some);
            assert(tok[1] == 'x' || tok[1] == 'X');
        } else {
            assert forall|i: int| 0 <= i < tok.len() implies (#[trigger] tok[i] as u32) < 128 by {
                if i > 0 || !(tok[0] == '-' || tok[0] == '+') {
                    let j = if tok[0] == '-' || tok[0] == '+' { i - 1 } else { i };
                    assert(body[j] == tok[i]);
                    assert(digit_of(body[j], 10) is Some);
                }
            }
        }
    }
}

/// A decimal element of a `DB`, `DW` or `DD` list whose value fits the
/// element's width is stored as exactly that many bytes, least
/// significant first, which read back as the value; a `DW` element is its
/// low byte, then its high byte.
pub proof fn lemma_decimal_element_bytes(kind: u8, raw: Seq<char>, env: SEnv)
    requires
        kind == 1 || kind == 2 || kind == 4,
        spec_parse_i64(trim(raw)) matches Some(v) && 0 <= v < crate::le::pow256(kind as nat),
    ensures
        ({
            let v = spec_parse_i64(trim(raw))->Some_0;
            num_tok(kind, raw, env) matches Ok(b) && b.len() == kind && crate::le::le_value(b) == v && (kind == 2
                ==> b[0] == v % 256 && b[1] == v / 256)
        }),
{
    let tok = trim(raw);
    let v = spec_parse_i64(tok)->Some_0;
    lemma_decimal_token_shape(tok);
    crate::le::lemma_pow256_values();
    reveal_with_fuel(crate::le::pow256, 2);
    if kind == 1 {
        assert((v as u8) as int == v);
        let b = seq![v as u8];
        assert(b.drop_first() =~= Seq::<u8>::empty());
        assert(crate::le::le_value(b) == b[0] + 256 * crate::le::le_value(b.drop_first()));
    } else if kind == 2 {
        assert((v as u16) as int == v);
        crate::le::lemma_le_roundtrip((v as u16) as nat, 2);
        crate::le::lemma_le_bytes_len((v as u16) as nat, 2);
        let b = le_bytes((v as u16) as nat, 2);
        assert(b[0] == v % 256);
        assert(b.drop_first() == le_bytes(((v as u16) as nat) / 256, 1));
        assert(b[1] == (v / 256) % 256);
    } else {
        assert((v as u32) as int == v);
        crate::le::lemma_le_roundtrip((v as u32) as nat, 4);
        crate::le::lemma_le_bytes_len((v as u32) as nat, 4);
    }
}

/// A hexadecimal element (`0x` or `0X` and hex digits) of a `DB`, `DW` or
/// `DD` list whose value fits the element's width is stored as exactly
/// that many bytes, least significant first, which read back as the value.
pub proof fn lemma_hex_element_bytes(kind: u8, raw: Seq<char>, env: SEnv)
    requires
        kind == 1 || kind == 2 || kind == 4,
        trim(raw).len() >= 2,
        trim(raw)[0] == '0',
        trim(raw)[1] == 'x' || trim(raw)[1] == 'X',
        spec_parse_u64(trim(raw).skip(2), 16) matches Some(v) && v < crate::le::pow256(kind as nat),
    ensures
        ({
            let v = spec_parse_u64(trim(raw).skip(2), 16)->Some_0;
            num_tok(kind, raw, env) matches Ok(b) && b.len() == kind && crate::le::le_value(b) == v
        }),
{
    let tok = trim(raw);
    let h = tok.skip(2);
    let v = spec_parse_u64(h, 16)->Some_0;
    crate::le::lemma_pow256_values();
    reveal_with_fuel(crate::le::pow256, 2);
    let body = if h.len() > 0 && h[0] == '+' { h.drop_first() } else { h };
    assert(all_digits(body, 16));
    assert forall|i: int| 0 <= i < tok.len() implies (#[trigger] tok[i] as u32) < 128 by {
        if i >= 2 {
            assert(h[i - 2] == tok[i]);
            if !(i == 2 && h[0] == '+') {
                let j = if h[0] == '+' { i - 3 } else { i - 2 };
                assert(body[j] == tok[i]);
                assert(digit_of(body[j], 16) is Some);
            }
        }
    }
    let l = lower_text(tok);
    assert(l[0] == ascii_lower(tok[0]) && l[1] == ascii_lower(tok[1]));
    assert(l.take(2) =~= seq!['0', 'x']);
    assert(hex_prefixed(tok));
    assert(string_literal(tok) is None);
    assert(skip_bytes(tok, 2) == h) by {
        assert(tok.drop_first().drop_first() =~= h);
        assert(skip_bytes(tok.drop_first(), 1) == skip_bytes(tok.drop_first().drop_first(), 0));
    }
    crate::le::lemma_le_roundtrip(v as nat, kind as nat);
    crate::le::lemma_le_bytes_len(v as nat, kind as nat);
}

pub open spec fn num_toks(kind: u8, parts: Seq<Seq<char>>, env: SEnv) -> Result<Seq<u8>, SNeed>
    decreases parts.len(),
{
    if parts.len() == 0 {
        Ok(seq![])
    } else {
        match num_toks(kind, parts.drop_last(), env) {
            Err(n) => Err(n),
            Ok(b) => match num_tok(kind, parts.last(), env) {
                Err(n) => Err(n),
                Ok(c) => Ok(b + c),
            },
        }
    }
}

fn num_tok_exec(kind: u8, raw: &[char], env: &AsmEnv, out: &mut Vec<u8>) -> (r: Result<(), Need>)
    requires
        kind == 1 || kind == 2 || kind == 4 || kind == 5 || kind == 6,
    ensures
        match num_tok(kind, raw@, env_view(*env)) {
            Ok(b) => r is Ok && final(out)@ == old(out)@ + b,
            Err(n) => r matches Err(x) && need_view(x) == n,
        },
{
    let tok = trim_chars(raw);
    let ghost before = out@;
    if kind == 5 || kind == 6 {
        match env_float(env, tok.as_slice()) {
            None => {
                return Err(Need::Float(tok));
            },
            Some(p) => {
                if kind == 5 {
                    if let Some(b) = p.0 {
                        crate::le::write_u32_le(b, out);
                    } else {
                        assert(out@ =~= before + Seq::<u8>::empty());
                    }
                } else {
                    if let Some(b) = p.1 {
                        crate::le::write_u64_le(b, out);
                    } else {
                        assert(out@ =~= before + Seq::<u8>::empty());
                    }
                }
                return Ok(());
            },
        }
    }
    if kind == 1 {
        if let Some(b) = parse_string_literal(tok.as_slice()) {
            crate::masi::append_bytes(out, b.as_slice());
            return Ok(());
        }
    }
    if hex_prefixed_exec(tok.as_slice()) {
        let digits = skip_bytes_chars(tok.as_slice(), 2);
        let max: u64 = if kind == 1 {
            0xFF
        } else if kind == 2 {
            0xFFFF
        } else {
            0xFFFF_FFFF
        };
        match parse_u64_radix(digits.as_slice(), 16) {
            Some(v) => {
                if v <= max {
                    if kind == 1 {
                        out.push(v as u8);
                        proof {
                            crate::le::lemma_le_bytes_len(v as nat, 1);
                            assert(le_bytes(v as nat, 1) =~= seq![(v % 256) as u8]);
                            assert(out@ =~= before + le_bytes(v as nat, kind as nat));
                        }
                    } else if kind == 2 {
                        crate::le::write_u16_le(v as u16, out);
                    } else {
                        crate::le::write_u32_le(v as u32, out);
                    }
                } else {
                    assert(out@ =~= before + Seq::<u8>::empty());
                }
            },
            None => {
                assert(out@ =~= before + Seq::<u8>::empty());
            },
        }
        return Ok(());
    }
    match parse_i64_dec(tok.as_slice()) {
        Some(v) => {
            if kind == 1 {
                out.push(v as u8);
                assert(out@ =~= before + seq![v as u8]);
            } else if kind == 2 {
                crate::le::write_u16_le(v as u16, out);
            } else {
                crate::le::write_u32_le(v as u32, out);
            }
        },
        None => {
            assert(out@ =~= before + Seq::<u8>::empty());
        },
    }
    Ok(())
}

fn num_toks_exec(kind: u8, parts: &Vec<Vec<char>>, env: &AsmEnv) -> (r: Result<Vec<u8>, Need>)
    requires
        kind == 1 || kind == 2 || kind == 4 || kind == 5 || kind == 6,
    ensures
        match num_toks(kind, views(parts@), env_view(*env)) {
            Ok(b) => r matches Ok(v) && v@ == b,
            Err(n) => r matches Err(x) && need_view(x) == n,
        },
{
    let mut out: Vec<u8> = Vec::new();
    let mut i: usize = 0;
    proof {
        assert(views(parts@).take(0) =~= Seq::<Seq<char>>::empty());
    }
    while i < parts.len()
        invariant
            kind == 1 || kind == 2 || kind == 4 || kind == 5 || kind == 6,
            i <= parts@.len(),
            num_toks(kind, views(parts@).take(i as int), env_view(*env)) == Ok::<Seq<u8>, SNeed>(out@),
        decreases parts.len() - i,
    {
        proof {
            assert(views(parts@).take(i + 1).drop_last() =~= views(parts@).take(i as int));
            assert(views(parts@).take(i + 1).last() == parts@[i as int]@);
        }
        match num_tok_exec(kind, parts[i].as_slice(), env, &mut out) {
            Err(n) => {
                proof {
                    lemma_num_toks_err(kind, views(parts@), env_view(*env), i + 1);
                }
                return Err(n);
            },
            Ok(()) => {},
        }
        i = i + 1;
    }
    proof {
        assert(views(parts@).take(i as int) =~= views(parts@));
    }
    Ok(out)
}

proof fn lemma_num_toks_err(kind: u8, parts: Seq<Seq<char>>, env: SEnv, k: int)
    requires
        0 < k <= parts.len(),
        num_toks(kind, parts.take(k), env) is Err,
    ensures
        num_toks(kind, parts, env) == num_toks(kind, parts.take(k), env),
    decreases parts.len() - k,
{
    if k < parts.len() {
        assert(parts.take(k + 1).drop_last() =~= parts.take(k));
        lemma_num_toks_err(kind, parts, env, k + 1);
    } else {
        assert(parts.take(k) =~= parts);
    }
}

/// One element of a `DQ` list.
pub open spec fn dq_tok(raw: Seq<char>) -> Option<SVal> {
    let tok = trim(raw);
    if tok.len() > 0 && tok[0] == '#' {
        None
    } else if hex_prefixed(tok) {
        match spec_parse_u64(skip_bytes(tok, 2), 16) {
            Some(v) => Some(SVal::Imm(v)),
            None => None,
        }
    } else {
        match spec_parse_u64(tok, 10) {
            Some(v) => Some(SVal::Imm(v)),
            None => Some(SVal::Sym(tok)),
        }
    }
}

pub open spec fn dq_toks(parts: Seq<Seq<char>>) -> Seq<SVal>
    decreases parts.len(),
{
    if parts.len() == 0 {
        seq![]
    } else {
        match dq_tok(parts.last()) {
            Some(v) => dq_toks(parts.drop_last()).push(v),
            None => dq_toks(parts.drop_last()),
        }
    }
}

fn dq_toks_exec(parts: &Vec<Vec<char>>) -> (r: Vec<Val>)
    ensures
        r@.map_values(|x: Val| val_view(x)) == dq_toks(views(parts@)),
{
    let mut out: Vec<Val> = Vec::new();
    let mut i: usize = 0;
    proof {
        assert(views(parts@).take(0) =~= Seq::<Seq<char>>::empty());
        assert(out@.map_values(|x: Val| val_view(x)) =~= Seq::<SVal>::empty());
    }
    while i < parts.len()
        invariant
            i <= parts@.len(),
            out@.map_values(|x: Val| val_view(x)) == dq_toks(views(parts@).take(i as int)),
        decreases parts.len() - i,
    {
        proof {
            assert(views(parts@).take(i + 1).drop_last() =~= views(parts@).take(i as int));
            assert(views(parts@).take(i + 1).last() == parts@[i as int]@);
        }
        let tok = trim_chars(parts[i].as_slice());
        let ghost before = out@.map_values(|x: Val| val_view(x));
        if tok.len() > 0 && tok[0] == '#' {
        } else if hex_prefixed_exec(tok.as_slice()) {
            let digits = skip_bytes_chars(tok.as_slice(), 2);
            if let Some(v) = parse_u64_radix(digits.as_slice(), 16) {
                out.push(Val::Imm(v));
                assert(out@.map_values(|x: Val| val_view(x)) =~= before.push(SVal::Imm(v)));
            }
        } else {
            match parse_u64_radix(tok.as_slice(), 10) {
                Some(v) => {
                    out.push(Val::Imm(v));
                    assert(out@.map_values(|x: Val| val_view(x)) =~= before.push(SVal::Imm(v)));
                },
                None => {
                    let ghost tv = tok@;
                    out.push(Val::Sym(tok));
                    assert(out@.map_values(|x: Val| val_view(x)) =~= before.push(SVal::Sym(tv)));
                },
            }
        }
        i = i + 1;
    }
    proof {
        assert(views(parts@).take(i as int) =~= views(parts@));
    }
    out
}

} // verus!

verus! {

// ------------------------------------------------------------ directives

pub open spec fn with_dir(st: SParse, d: SDir) -> SParse {
    SParse { dirs: st.dirs.push(d), ..st }
}

/// `#import [code|data] name`.
pub open spec fn import_update(st: SParse, parts: Seq<Seq<char>>) -> SParse {
    if parts.len() == 0 {
        st
    } else {
        let a = parts[0];
        let second = if parts.len() > 1 {
            parts[1]
        } else {
            seq![]
        };
        let kn: (u8, Seq<char>) = if eq_ignore_case(a, "code"@) {
            (0u8, second)
        } else if eq_ignore_case(a, "data"@) {
            (1u8, second)
        } else {
            (0u8, a)
        };
        if kn.1.len() > 0 {
            SParse { imports: st.imports.push((kn.1, kn.0)), ..st }
        } else {
            st
        }
    }
}

/// Hexadecimal rendering of each byte with two lower-case digits.
pub open spec fn hex_bytes(b: Seq<u8>) -> Seq<char>
    decreases b.len(),
{
    if b.len() == 0 {
        seq![]
    } else {
        hex_bytes(b.drop_last()) + zero_pad(hex_lower(b.last() as nat), 2)
    }
}

/// The label of a `STATE ... <STRING>` literal.
pub open spec fn string_label(b: Seq<u8>) -> Seq<char> {
    "__str_"@ + spec_short_hash(hex_bytes(b))
}

/// `STATE name <TYPE> value` once the type and value are split off.
pub open spec fn state_typed(name: Seq<char>, ty: Seq<char>, vs: Seq<char>, st: SParse, env: SEnv) -> Result<Option<SParse>, SNeed> {
    if eq_ignore_case(ty, "BYTE"@) {
        match spec_parse_i64(vs) {
            Some(v) => Ok(Some(with_dir(st, SDir::Bytes(Some(name), seq![v as u8])))),
            None => Ok(None),
        }
    } else if eq_ignore_case(ty, "WORD"@) {
        match spec_parse_i64(vs) {
            Some(v) => Ok(Some(with_dir(st, SDir::Bytes(Some(name), le_bytes((v as u16) as nat, 2))))),
            None => Ok(None),
        }
    } else if eq_ignore_case(ty, "DWORD"@) {
        match spec_parse_i64(vs) {
            Some(v) => Ok(Some(with_dir(st, SDir::Bytes(Some(name), le_bytes((v as u32) as nat, 4))))),
            None => Ok(None),
        }
    } else if eq_ignore_case(ty, "QWORD"@) {
        match spec_parse_i128(vs) {
            Some(v) => Ok(Some(with_dir(st, SDir::Quads(Some(name), seq![SVal::Imm(v as u64)])))),
            None => Ok(None),
        }
    } else if eq_ignore_case(ty, "STRING"@) {
        match string_literal(vs) {
            Some(b) => {
                let g = string_label(b);
                Ok(Some(with_dir(with_dir(st, SDir::Bytes(Some(g), b.push(0u8))), SDir::Quads(Some(name), seq![SVal::Sym(g)]))))
            },
            None => Ok(None),
        }
    } else if eq_ignore_case(ty, "PTR"@) {
        if vs.len() == 0 {
            Ok(Some(with_dir(st, SDir::Quads(Some(name), seq![SVal::Imm(0u64)]))))
        } else {
            match spec_parse_i128(vs) {
                Some(v) => Ok(Some(with_dir(st, SDir::Quads(Some(name), seq![SVal::Imm(v as u64)])))),
                None => Ok(None),
            }
        }
    } else if eq_ignore_case(ty, "FLOAT"@) || eq_ignore_case(ty, "DOUBLE"@) {
        match assoc_get(env.floats, vs) {
            None => Err(SNeed::Float(vs)),
            Some(p) => if eq_ignore_case(ty, "FLOAT"@) {
                match p.0 {
                    Some(b) => Ok(Some(with_dir(st, SDir::Bytes(Some(name), le_bytes(b as nat, 4))))),
                    None => Ok(None),
                }
            } else {
                match p.1 {
                    Some(b) => Ok(Some(with_dir(st, SDir::Bytes(Some(name), le_bytes(b as nat, 8))))),
                    None => Ok(None),
                }
            },
        }
    } else {
        Ok(None)
    }
}

/// `STATE name <TYPE> value`.
pub open spec fn state_dir(rest: Seq<char>, st: SParse, env: SEnv) -> Result<Option<SParse>, SNeed> {
    let r2 = trim(skip_bytes(rest, 6));
    let parts = split_ws(r2);
    if parts.len() == 0 {
        Ok(None)
    } else {
        let name = parts[0];
        let after = trim(r2.skip(name.len() as int));
        match find_char(after, '<') {
            None => Ok(None),
            Some(s) => {
                let inner = after.skip(s + 1);
                match find_char(inner, '>') {
                    None => Ok(None),
                    Some(e) => state_typed(name, inner.take(e), trim(inner.skip(e + 1)), st, env),
                }
            },
        }
    }
}

/// Address of a `DB $addr "text"` line.
pub open spec fn direct_addr(a: Seq<char>) -> nat {
    if hex_prefixed(a) {
        match spec_parse_u64(skip_bytes(a, 2), 16) {
            Some(v) => (v as usize) as nat,
            None => 0,
        }
    } else {
        match spec_parse_u64(a, 10) {
            Some(v) => if v <= usize::MAX {
                v as nat
            } else {
                0
            },
            None => 0,
        }
    }
}

/// `DB ...`, either `DB $addr "text"` or a list of values.
pub open spec fn db_dir(label: Option<Seq<char>>, rest: Seq<char>, st: SParse, env: SEnv) -> Result<Option<SParse>, SNeed> {
    let rhs = trim(skip_bytes(rest, 3));
    let so = split_once(rhs, ' ');
    if rhs.len() > 0 && rhs[0] == '$' && so.1 is Some && string_literal(so.1.unwrap()) is Some {
        Ok(Some(with_dir(st, SDir::Direct(direct_addr(so.0.drop_first()), string_literal(so.1.unwrap()).unwrap()))))
    } else {
        match num_toks(1, split_on(rhs, ','), env) {
            Err(n) => Err(n),
            Ok(b) => Ok(Some(with_dir(st, SDir::Bytes(label, b)))),
        }
    }
}

pub open spec fn res_factor(kind: Seq<char>) -> nat {
    if kind == "resb"@ {
        1
    } else if kind == "resw"@ {
        2
    } else if kind == "resd"@ {
        4
    } else if kind == "resq"@ {
        8
    } else if kind == "resf"@ {
        4
    } else if kind == "resdbl"@ {
        8
    } else {
        1
    }
}

/// `RESB`/`RESW`/`RESD`/`RESQ`/`RESF`/`RESDBL count`.
pub open spec fn res_dir(label: Option<Seq<char>>, rest: Seq<char>, st: SParse) -> SParse {
    let so = split_once(rest, ' ');
    let count: nat = match so.1 {
        Some(c) => match spec_parse_u64(c, 10) {
            Some(v) => if v <= usize::MAX {
                v as nat
            } else {
                0
            },
            None => 0,
        },
        None => 0,
    };
    let size = count * res_factor(lower_text(so.0));
    with_dir(st, SDir::Res(label, if size <= usize::MAX { Some(size) } else { None }))
}

pub open spec fn is_res(lower: Seq<char>) -> bool {
    starts_with(lower, "resb "@) || starts_with(lower, "resw "@) || starts_with(lower, "resd "@)
        || starts_with(lower, "resq "@) || starts_with(lower, "resf "@) || starts_with(lower, "resdbl "@)
}

/// A data or directive line: `Ok(None)` when the line is not one.
pub open spec fn data_line(line: Seq<char>, st: SParse, env: SEnv) -> Result<Option<SParse>, SNeed> {
    let label = split_label(line).0;
    let rest = split_label(line).1;
    let lower = lower_text(rest);
    if starts_with(lower, "#export "@) {
        let name = trim(skip_bytes(rest, 8));
        Ok(Some(if name.len() > 0 { SParse { exports: st.exports.push(name), ..st } } else { st }))
    } else if starts_with(lower, "#import "@) {
        Ok(Some(import_update(st, split_ws(trim(skip_bytes(rest, 8))))))
    } else if starts_with(lower, "state "@) {
        state_dir(rest, st, env)
    } else if starts_with(lower, "db "@) {
        db_dir(label, rest, st, env)
    } else if starts_with(lower, "dw "@) || starts_with(lower, "dd "@) || starts_with(lower, "df "@) {
        let kind: u8 = if starts_with(lower, "dw "@) {
            2
        } else if starts_with(lower, "dd "@) {
            4
        } else {
            5
        };
        match num_toks(kind, split_on(skip_bytes(rest, 3), ','), env) {
            Err(n) => Err(n),
            Ok(b) => Ok(Some(with_dir(st, SDir::Bytes(label, b)))),
        }
    } else if starts_with(lower, "dq "@) {
        Ok(Some(with_dir(st, SDir::Quads(label, dq_toks(split_on(skip_bytes(rest, 3), ','))))))
    } else if starts_with(lower, "ddbl "@) {
        match num_toks(6, split_on(skip_bytes(rest, 5), ','), env) {
            Err(n) => Err(n),
            Ok(b) => Ok(Some(with_dir(st, SDir::Bytes(label, b)))),
        }
    } else if is_res(lower) {
        Ok(Some(res_dir(label, rest, st)))
    } else {
        Ok(None)
    }
}

} // verus!

verus! {

pub open spec fn line_result(r: Result<bool, Need>, spec: Result<Option<SParse>, SNeed>, before: SParse, after: SParse) -> bool {
    match spec {
        Ok(None) => r matches Ok(b) && !b && after == before,
        Ok(Some(s2)) => r matches Ok(b) && b && after == s2,
        Err(n) => r matches Err(x) && need_view(x) == n,
    }
}

fn import_update_exec(st: &mut Parse, parts: &Vec<Vec<char>>)
    ensures
        parse_view(*final(st)) == import_update(parse_view(*old(st)), views(parts@)),
{
    if parts.len() == 0 {
        return;
    }
    let a = &parts[0];
    let second: Vec<char> = if parts.len() > 1 {
        slice_chars(parts[1].as_slice(), 0, parts[1].len())
    } else {
        Vec::new()
    };
    proof {
        if parts@.len() > 1 {
            assert(second@ =~= views(parts@)[1]);
        } else {
            assert(second@ =~= Seq::<char>::empty());
        }
    }
    let (kind, name): (u8, Vec<char>) = if eq_ignore_case_str(a.as_slice(), "code") {
        (0u8, second)
    } else if eq_ignore_case_str(a.as_slice(), "data") {
        (1u8, second)
    } else {
        (0u8, slice_chars(a.as_slice(), 0, a.len()))
    };
    proof {
        assert(views(parts@)[0] == a@);
        assert(a@.subrange(0, a@.len() as int) =~= a@);
    }
    if name.len() > 0 {
        let ghost before = parse_view(*st);
        let ghost nv = name@;
        st.imports.push((name, kind));
        proof {
            assert(parse_view(*st).imports =~= before.imports.push((nv, kind)));
        }
    }
}

fn hex_bytes_exec(b: &[u8]) -> (r: Vec<char>)
    ensures
        r@ == hex_bytes(b@),
{
    let mut out: Vec<char> = Vec::new();
    let mut i: usize = 0;
    proof {
        assert(b@.take(0) =~= Seq::<u8>::empty());
    }
    while i < b.len()
        invariant
            i <= b@.len(),
            out@ == hex_bytes(b@.take(i as int)),
        decreases b.len() - i,
    {
        let h = hex_lower_chars(b[i] as u64);
        let p = zero_pad_chars(h, 2);
        append_chars(&mut out, p.as_slice());
        proof {
            assert(b@.take(i + 1).drop_last() =~= b@.take(i as int));
        }
        i = i + 1;
    }
    proof {
        assert(b@.take(i as int) =~= b@);
    }
    out
}

fn some_chars(v: &Vec<char>) -> (r: Option<Vec<char>>)
    ensures
        opt_view(r) == Some(v@),
{
    let c = slice_chars(v.as_slice(), 0, v.len());
    assert(c@ =~= v@);
    Some(c)
}

fn state_typed_exec(name: &Vec<char>, ty: &[char], vs: &[char], st: &mut Parse, env: &AsmEnv) -> (r: Result<bool, Need>)
    ensures
        line_result(r, state_typed(name@, ty@, vs@, parse_view(*old(st)), env_view(*env)), parse_view(*old(st)), parse_view(*final(st))),
{
    if eq_ignore_case_str(ty, "BYTE") {
        match parse_i64_dec(vs) {
            Some(v) => {
                let mut b: Vec<u8> = Vec::new();
                b.push(v as u8);
                assert(b@ =~= seq![v as u8]);
                st.push_dir(Dir::Bytes(some_chars(name), b));
                Ok(true)
            },
            None => Ok(false),
        }
    } else if eq_ignore_case_str(ty, "WORD") {
        match parse_i64_dec(vs) {
            Some(v) => {
                let mut b: Vec<u8> = Vec::new();
                crate::le::write_u16_le(v as u16, &mut b);
                assert(b@ =~= le_bytes((v as u16) as nat, 2));
                st.push_dir(Dir::Bytes(some_chars(name), b));
                Ok(true)
            },
            None => Ok(false),
        }
    } else if eq_ignore_case_str(ty, "DWORD") {
        match parse_i64_dec(vs) {
            Some(v) => {
                let mut b: Vec<u8> = Vec::new();
                crate::le::write_u32_le(v as u32, &mut b);
                assert(b@ =~= le_bytes((v as u32) as nat, 4));
                st.push_dir(Dir::Bytes(some_chars(name), b));
                Ok(true)
            },
            None => Ok(false),
        }
    } else if eq_ignore_case_str(ty, "QWORD") {
        match parse_i128_dec(vs) {
            Some(v) => {
                let mut q: Vec<Val> = Vec::new();
                q.push(Val::Imm(v as u64));
                assert(q@.map_values(|x: Val| val_view(x)) =~= seq![SVal::Imm(v as u64)]);
                st.push_dir(Dir::Quads(some_chars(name), q));
                Ok(true)
            },
            None => Ok(false),
        }
    } else if eq_ignore_case_str(ty, "STRING") {
        match parse_string_literal(vs) {
            Some(b) => {
                let hb = hex_bytes_exec(b.as_slice());
                let h = short_hash_chars(hb.as_slice());
                let mut g = str_chars("__str_");
                append_chars(&mut g, h.as_slice());
                let mut b2 = b;
                b2.push(0u8);
                st.push_dir(Dir::Bytes(some_chars(&g), b2));
                let mut q: Vec<Val> = Vec::new();
                let ghost gv = g@;
                q.push(Val::Sym(g));
                assert(q@.map_values(|x: Val| val_view(x)) =~= seq![SVal::Sym(gv)]);
                st.push_dir(Dir::Quads(some_chars(name), q));
                Ok(true)
            },
            None => Ok(false),
        }
    } else if eq_ignore_case_str(ty, "PTR") {
        if vs.len() == 0 {
            let mut q: Vec<Val> = Vec::new();
            q.push(Val::Imm(0u64));
            assert(q@.map_values(|x: Val| val_view(x)) =~= seq![SVal::Imm(0u64)]);
            st.push_dir(Dir::Quads(some_chars(name), q));
            Ok(true)
        } else {
            match parse_i128_dec(vs) {
                Some(v) => {
                    let mut q: Vec<Val> = Vec::new();
                    q.push(Val::Imm(v as u64));
                    assert(q@.map_values(|x: Val| val_view(x)) =~= seq![SVal::Imm(v as u64)]);
                    st.push_dir(Dir::Quads(some_chars(name), q));
                    Ok(true)
                },
                None => Ok(false),
            }
        }
    } else if eq_ignore_case_str(ty, "FLOAT") || eq_ignore_case_str(ty, "DOUBLE") {
        match env_float(env, vs) {
            None => Err(Need::Float(copy_chars(vs))),
            Some(p) => {
                if eq_ignore_case_str(ty, "FLOAT") {
                    match p.0 {
                        Some(bits) => {
                            let mut b: Vec<u8> = Vec::new();
                            crate::le::write_u32_le(bits, &mut b);
                            assert(b@ =~= le_bytes(bits as nat, 4));
                            st.push_dir(Dir::Bytes(some_chars(name), b));
                            Ok(true)
                        },
                        None => Ok(false),
                    }
                } else {
                    match p.1 {
                        Some(bits) => {
                            let mut b: Vec<u8> = Vec::new();
                            crate::le::write_u64_le(bits, &mut b);
                            assert(b@ =~= le_bytes(bits as nat, 8));
                            st.push_dir(Dir::Bytes(some_chars(name), b));
                            Ok(true)
                        },
                        None => Ok(false),
                    }
                }
            },
        }
    } else {
        Ok(false)
    }
}

fn state_dir_exec(rest: &[char], st: &mut Parse, env: &AsmEnv) -> (r: Result<bool, Need>)
    ensures
        line_result(r, state_dir(rest@, parse_view(*old(st)), env_view(*env)), parse_view(*old(st)), parse_view(*final(st))),
{
    let s6 = skip_bytes_chars(rest, 6);
    let r2 = trim_chars(s6.as_slice());
    let parts = split_ws_chars(r2.as_slice());
    if parts.len() == 0 {
        return Ok(false);
    }
    let name = &parts[0];
    proof {
        assert(views(parts@)[0] == name@);
        lemma_split_ws_first_len(r2@);
    }
    let tail = slice_chars(r2.as_slice(), name.len(), r2.len());
    assert(tail@ =~= r2@.skip(name@.len() as int));
    let after = trim_chars(tail.as_slice());
    proof {
        assert(after@.skip(0) =~= after@);
        lemma_find_char_facts(after@, '<');
    }
    let f = find_char_from(after.as_slice(), 0, '<');
    assert(find_char(after@.skip(0), '<') == find_char(after@, '<'));
    match f {
        None => Ok(false),
        Some(s) => {
            let inner = slice_chars(after.as_slice(), s + 1, after.len());
            assert(inner@ =~= after@.skip(s + 1));
            proof {
                assert(inner@.skip(0) =~= inner@);
                lemma_find_char_facts(inner@, '>');
            }
            let g = find_char_from(inner.as_slice(), 0, '>');
            assert(find_char(inner@.skip(0), '>') == find_char(inner@, '>'));
            match g {
                None => Ok(false),
                Some(e) => {
                    let ty = slice_chars(inner.as_slice(), 0, e);
                    let vtail = slice_chars(inner.as_slice(), e + 1, inner.len());
                    assert(ty@ =~= inner@.take(e as int));
                    assert(vtail@ =~= inner@.skip(e + 1));
                    let vs = trim_chars(vtail.as_slice());
                    state_typed_exec(name, ty.as_slice(), vs.as_slice(), st, env)
                },
            }
        },
    }
}

proof fn lemma_split_ws_first_len(s: Seq<char>)
    ensures
        split_ws(s).len() > 0 ==> split_ws(s)[0].len() <= s.len(),
    decreases s.len(),
{
    if s.len() > 0 {
        if is_ws(s[0]) {
            lemma_split_ws_first_len(s.drop_first());
        }
    }
}

} // verus!

verus! {

fn direct_addr_exec(a: &[char]) -> (r: usize)
    ensures
        r as nat == direct_addr(a@),
{
    if hex_prefixed_exec(a) {
        let d = skip_bytes_chars(a, 2);
        match parse_u64_radix(d.as_slice(), 16) {
            Some(v) => v as usize,
            None => 0,
        }
    } else {
        match parse_u64_radix(a, 10) {
            Some(v) => {
                if v <= usize::MAX as u64 {
                    v as usize
                } else {
                    0
                }
            },
            None => 0,
        }
    }
}

fn db_dir_exec(label: Option<Vec<char>>, rest: &[char], st: &mut Parse, env: &AsmEnv) -> (r: Result<bool, Need>)
    ensures
        line_result(r, db_dir(opt_view(label), rest@, parse_view(*old(st)), env_view(*env)), parse_view(*old(st)), parse_view(*final(st))),
{
    let s3 = skip_bytes_chars(rest, 3);
    let rhs = trim_chars(s3.as_slice());
    let so = crate::text::split_once_chars(rhs.as_slice(), ' ');
    if rhs.len() > 0 && rhs[0] == '$' {
        if let Some(b) = &so.1 {
            if let Some(bytes) = parse_string_literal(b.as_slice()) {
                proof {
                    lemma_split_once_first(rhs@, ' ');
                }
                let a = slice_chars(so.0.as_slice(), 1, so.0.len());
                assert(a@ =~= so.0@.drop_first());
                let addr = direct_addr_exec(a.as_slice());
                st.push_dir(Dir::Direct(addr, bytes));
                return Ok(true);
            }
        }
    }
    let parts = crate::text::split_on_chars(rhs.as_slice(), ',');
    match num_toks_exec(1, &parts, env) {
        Err(n) => Err(n),
        Ok(b) => {
            st.push_dir(Dir::Bytes(label, b));
            Ok(true)
        },
    }
}

proof fn lemma_split_once_first(s: Seq<char>, c: char)
    requires
        s.len() > 0,
        s[0] != c,
    ensures
        split_once(s, c).0.len() > 0,
        split_once(s, c).0[0] == s[0],
{
    lemma_find_char_facts(s, c);
}

fn res_dir_exec(label: Option<Vec<char>>, rest: &[char], st: &mut Parse)
    ensures
        parse_view(*final(st)) == res_dir(opt_view(label), rest@, parse_view(*old(st))),
{
    let so = crate::text::split_once_chars(rest, ' ');
    let count: usize = match &so.1 {
        Some(c) => match parse_u64_radix(c.as_slice(), 10) {
            Some(v) => {
                if v <= usize::MAX as u64 {
                    v as usize
                } else {
                    0
                }
            },
            None => 0,
        },
        None => 0,
    };
    let kind = lower_chars(so.0.as_slice());
    let factor: usize = if crate::text::eq_str(kind.as_slice(), "resb") {
        1
    } else if crate::text::eq_str(kind.as_slice(), "resw") {
        2
    } else if crate::text::eq_str(kind.as_slice(), "resd") {
        4
    } else if crate::text::eq_str(kind.as_slice(), "resq") {
        8
    } else if crate::text::eq_str(kind.as_slice(), "resf") {
        4
    } else if crate::text::eq_str(kind.as_slice(), "resdbl") {
        8
    } else {
        1
    };
    let size = count.checked_mul(factor);
    proof {
        assert(factor as nat == res_factor(lower_text(so.0@)));
    }
    st.push_dir(Dir::Res(label, size));
}

fn lower_starts(lower: &[char], p: &str) -> (r: bool)
    ensures
        r == starts_with(lower@, p@),
{
    crate::text::starts_with_str(lower, p)
}

/// Handles a data or directive line; `Ok(false)` when the line is neither.
pub fn data_line_exec(line: &[char], st: &mut Parse, env: &AsmEnv) -> (r: Result<bool, Need>)
    ensures
        line_result(r, data_line(line@, parse_view(*old(st)), env_view(*env)), parse_view(*old(st)), parse_view(*final(st))),
{
    let (label, rest) = split_label_exec(line);
    let lower = lower_chars(rest.as_slice());
    let l = lower.as_slice();
    if lower_starts(l, "#export ") {
        let s8 = skip_bytes_chars(rest.as_slice(), 8);
        let name = trim_chars(s8.as_slice());
        if name.len() > 0 {
            let ghost before = parse_view(*st);
            let ghost nv = name@;
            st.exports.push(name);
            assert(parse_view(*st).exports =~= before.exports.push(nv));
        }
        Ok(true)
    } else if lower_starts(l, "#import ") {
        let s8 = skip_bytes_chars(rest.as_slice(), 8);
        let args = trim_chars(s8.as_slice());
        let parts = split_ws_chars(args.as_slice());
        import_update_exec(st, &parts);
        Ok(true)
    } else if lower_starts(l, "state ") {
        state_dir_exec(rest.as_slice(), st, env)
    } else if lower_starts(l, "db ") {
        db_dir_exec(label, rest.as_slice(), st, env)
    } else if lower_starts(l, "dw ") || lower_starts(l, "dd ") || lower_starts(l, "df ") {
        let kind: u8 = if lower_starts(l, "dw ") {
            2
        } else if lower_starts(l, "dd ") {
            4
        } else {
            5
        };
        let s3 = skip_bytes_chars(rest.as_slice(), 3);
        let parts = crate::text::split_on_chars(s3.as_slice(), ',');
        match num_toks_exec(kind, &parts, env) {
            Err(n) => Err(n),
            Ok(b) => {
                st.push_dir(Dir::Bytes(label, b));
                Ok(true)
            },
        }
    } else if lower_starts(l, "dq ") {
        let s3 = skip_bytes_chars(rest.as_slice(), 3);
        let parts = crate::text::split_on_chars(s3.as_slice(), ',');
        let vals = dq_toks_exec(&parts);
        st.push_dir(Dir::Quads(label, vals));
        Ok(true)
    } else if lower_starts(l, "ddbl ") {
        let s5 = skip_bytes_chars(rest.as_slice(), 5);
        let parts = crate::text::split_on_chars(s5.as_slice(), ',');
        match num_toks_exec(6, &parts, env) {
            Err(n) => Err(n),
            Ok(b) => {
                st.push_dir(Dir::Bytes(label, b));
                Ok(true)
            },
        }
    } else if lower_starts(l, "resb ") || lower_starts(l, "resw ") || lower_starts(l, "resd ")
        || lower_starts(l, "resq ") || lower_starts(l, "resf ") || lower_starts(l, "resdbl ") {
        res_dir_exec(label, rest.as_slice(), st);
        Ok(true)
    } else {
        Ok(false)
    }
}

} // verus!
