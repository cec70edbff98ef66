//! The macro expander: `MACRO name params...` ... `ENDMACRO` blocks are
//! collected, and each invocation with the right number of arguments is
//! replaced by the body, with parameters substituted and `@@` local labels
//! made unique per invocation.
use vstd::prelude::*;
use crate::text::{
    trim, trim_chars, strip_comment, strip_comment_chars, lines_of, lines_chars, split_ws,
    split_ws_chars, views, starts_with, skip_bytes, skip_bytes_chars, lower_text,
    lower_chars, eq_ignore_case, eq_ignore_case_str, trim_set, trim_set_chars,
    replace_all, replace_chars, find_char, contains_char, eq_chars, slice_chars, copy_chars,
};
use crate::fmt::{dec, dec_chars, append_chars, append_str};

verus! {

/// A macro definition.
pub struct Macro {
    pub name: Vec<char>,
    pub params: Vec<Vec<char>>,
    pub body: Vec<Vec<char>>,
}

pub struct SMacro {
    pub name: Seq<char>,
    pub params: Seq<Seq<char>>,
    pub body: Seq<Seq<char>>,
}

pub open spec fn macro_view(m: Macro) -> SMacro {
    SMacro { name: m.name@, params: views(m.params@), body: views(m.body@) }
}

/// A line without its comment and surrounding white space.
pub open spec fn clean(l: Seq<char>) -> Seq<char> {
    trim(strip_comment(l))
}

/// Index of the first line from `j` on that reads `ENDMACRO` once its
/// comment is removed (or the number of lines).
pub open spec fn body_end(lines: Seq<Seq<char>>, j: int) -> int
    decreases lines.len() - j,
{
    if j >= lines.len() {
        lines.len() as int
    } else if eq_ignore_case(clean(lines[j]), "endmacro"@) {
        j
    } else {
        body_end(lines, j + 1)
    }
}

/// Index of the first line from `j` on that reads `ENDMACRO` as it stands
/// (or the number of lines).
pub open spec fn skip_end(lines: Seq<Seq<char>>, j: int) -> int
    decreases lines.len() - j,
{
    if j >= lines.len() {
        lines.len() as int
    } else if eq_ignore_case(trim(lines[j]), "endmacro"@) {
        j
    } else {
        skip_end(lines, j + 1)
    }
}

/// The parameter names of a header: the words after the name, with commas
/// trimmed off, empty ones dropped.
pub open spec fn param_names(words: Seq<Seq<char>>) -> Seq<Seq<char>>
    decreases words.len(),
{
    if words.len() == 0 {
        seq![]
    } else {
        let p = trim_set(words[0], seq![',']);
        let rest = param_names(words.drop_first());
        if p.len() > 0 {
            seq![p] + rest
        } else {
            rest
        }
    }
}

/// The name (lower-cased) and parameters of a `MACRO` header line.
pub open spec fn macro_header(t: Seq<char>) -> (Seq<char>, Seq<Seq<char>>) {
    let words = split_ws(trim(skip_bytes(t, 6)));
    let name = lower_text(if words.len() > 0 { words[0] } else { seq![] });
    (name, if words.len() > 0 { param_names(words.drop_first()) } else { seq![] })
}

pub open spec fn is_macro_start(l: Seq<char>) -> bool {
    starts_with(lower_text(clean(l)), "macro "@)
}

/// First pass from line `i`: the definitions collected and the other lines.
pub open spec fn collect(lines: Seq<Seq<char>>, i: int, defs: Seq<SMacro>, out: Seq<Seq<char>>) -> (Seq<SMacro>, Seq<Seq<char>>)
    decreases lines.len() - i,
{
    if i >= lines.len() || i < 0 {
        (defs, out)
    } else if is_macro_start(lines[i]) {
        let e = body_end(lines, i + 1);
        let s = skip_end(lines, e);
        let next = if s < lines.len() { s + 1 } else { s };
        let h = macro_header(clean(lines[i]));
        let m = SMacro { name: h.0, params: h.1, body: lines.subrange(i + 1, e) };
        if i < next <= lines.len() {
            collect(lines, next, defs.push(m), out)
        } else {
            (defs, out)
        }
    } else {
        collect(lines, i + 1, defs, out.push(lines[i]))
    }
}

/// The latest definition of a macro name.
pub open spec fn find_macro(defs: Seq<SMacro>, name: Seq<char>) -> Option<SMacro>
    decreases defs.len(),
{
    if defs.len() == 0 {
        None
    } else if defs.last().name == name {
        Some(defs.last())
    } else {
        find_macro(defs.drop_last(), name)
    }
}

/// Each parameter replaced by its argument, one after the other.
pub open spec fn subst(l: Seq<char>, params: Seq<Seq<char>>, args: Seq<Seq<char>>, k: int) -> Seq<char>
    decreases k,
{
    if k <= 0 {
        l
    } else {
        replace_all(subst(l, params, args, k - 1), params[k - 1], args[k - 1])
    }
}

/// One body line of an invocation.
pub open spec fn body_line(bl: Seq<char>, params: Seq<Seq<char>>, args: Seq<Seq<char>>, uniq: Seq<char>) -> Seq<char> {
    let tmp = replace_all(subst(bl, params, args, params.len() as int), "@@"@, uniq);
    let t = trim(tmp);
    if t.len() > 0 && t.last() == ':' && !(find_char(t, ' ') is Some) {
        "LBL "@ + t.drop_last()
    } else {
        tmp
    }
}

/// The prefix that makes the local labels of the `n`-th invocation unique.
pub open spec fn uniq_prefix(name: Seq<char>, n: nat) -> Seq<char> {
    "..@"@ + name + "@"@ + dec(n) + "@"@
}

pub open spec fn body_lines(m: SMacro, args: Seq<Seq<char>>, uniq: Seq<char>) -> Seq<Seq<char>> {
    Seq::new(m.body.len(), |k: int| body_line(m.body[k], m.params, args, uniq))
}

/// Second pass on one line: what it becomes, and the invocation count after it.
pub open spec fn expand_line(raw: Seq<char>, defs: Seq<SMacro>, counter: nat) -> (Seq<Seq<char>>, nat) {
    let t = clean(raw);
    if t.len() == 0 {
        (seq![raw], counter)
    } else {
        let words = split_ws(t);
        let head = if words.len() > 0 { words[0] } else { seq![] };
        match find_macro(defs, lower_text(head)) {
            None => (seq![raw], counter),
            Some(m) => {
                let args = if words.len() > 0 {
                    words.drop_first().map_values(|w: Seq<char>| trim_set(w, seq![',']))
                } else {
                    seq![]
                };
                if args.len() != m.params.len() {
                    (seq![raw], counter)
                } else {
                    (body_lines(m, args, uniq_prefix(m.name, counter + 1)), counter + 1)
                }
            },
        }
    }
}

pub open spec fn expand_from(ls: Seq<Seq<char>>, i: int, defs: Seq<SMacro>, counter: nat) -> Seq<Seq<char>>
    decreases ls.len() - i,
{
    if i >= ls.len() || i < 0 {
        seq![]
    } else {
        let (out, c2) = expand_line(ls[i], defs, counter);
        out + expand_from(ls, i + 1, defs, c2)
    }
}

/// Lines joined with `\n`.
pub open spec fn join_lines(ls: Seq<Seq<char>>) -> Seq<char>
    decreases ls.len(),
{
    if ls.len() == 0 {
        seq![]
    } else if ls.len() == 1 {
        ls[0]
    } else {
        join_lines(ls.drop_last()) + seq!['\n'] + ls.last()
    }
}

/// The source with every macro definition removed and every invocation expanded.
pub open spec fn macro_expand(src: Seq<char>) -> Seq<char> {
    let c = collect(lines_of(src), 0, seq![], seq![]);
    join_lines(expand_from(c.1, 0, c.0, 0))
}

proof fn lemma_collect_plain(lines: Seq<Seq<char>>, i: int, out: Seq<Seq<char>>)
    requires
        0 <= i <= lines.len(),
        forall|k: int| i <= k < lines.len() ==> !is_macro_start(#[trigger] lines[k]),
    ensures
        collect(lines, i, seq![], out) == (Seq::<SMacro>::empty(), out + lines.subrange(i, lines.len() as int)),
    decreases lines.len() - i,
{
    if i < lines.len() {
        lemma_collect_plain(lines, i + 1, out.push(lines[i]));
        assert(out.push(lines[i]) + lines.subrange(i + 1, lines.len() as int) =~= out + lines.subrange(
            i,
            lines.len() as int,
        ));
    } else {
        assert(out + lines.subrange(i, lines.len() as int) =~= out);
    }
}

proof fn lemma_expand_plain(ls: Seq<Seq<char>>, i: int, counter: nat)
    requires
        0 <= i <= ls.len(),
    ensures
        expand_from(ls, i, seq![], counter) == ls.subrange(i, ls.len() as int),
    decreases ls.len() - i,
{
    if i < ls.len() {
        lemma_expand_plain(ls, i + 1, counter);
        assert(expand_line(ls[i], seq![], counter) == (seq![ls[i]], counter));
        assert(seq![ls[i]] + ls.subrange(i + 1, ls.len() as int) =~= ls.subrange(i, ls.len() as int));
    } else {
        assert(ls.subrange(i, ls.len() as int) =~= Seq::<Seq<char>>::empty());
    }
}

/// Source in which no line opens a macro definition comes out of the
/// expansion line for line as it went in.
pub proof fn lemma_expand_without_macros(src: Seq<char>)
    requires
        forall|k: int| 0 <= k < lines_of(src).len() ==> !is_macro_start(#[trigger] lines_of(src)[k]),
    ensures
        macro_expand(src) == join_lines(lines_of(src)),
{
    let lines = lines_of(src);
    lemma_collect_plain(lines, 0, seq![]);
    assert(Seq::<Seq<char>>::empty() + lines.subrange(0, lines.len() as int) =~= lines);
    lemma_expand_plain(lines, 0, 0);
    assert(lines.subrange(0, lines.len() as int) =~= lines);
}

fn clean_chars(l: &[char]) -> (r: Vec<char>)
    ensures
        r@ == clean(l@),
{
    let s = strip_comment_chars(l);
    trim_chars(s.as_slice())
}

fn body_end_exec(lines: &Vec<Vec<char>>, j: usize) -> (r: usize)
    requires
        j <= lines@.len(),
    ensures
        r as int == body_end(views(lines@), j as int),
        j <= r <= lines@.len(),
{
    let ghost ls = views(lines@);
    let mut k = j;
    while k < lines.len()
        invariant
            j <= k <= lines@.len(),
            body_end(ls, k as int) == body_end(ls, j as int),
            ls == views(lines@),
        decreases lines.len() - k,
    {
        let c = clean_chars(lines[k].as_slice());
        if eq_ignore_case_str(c.as_slice(), "endmacro") {
            return k;
        }
        k = k + 1;
    }
    k
}

fn skip_end_exec(lines: &Vec<Vec<char>>, j: usize) -> (r: usize)
    requires
        j <= lines@.len(),
    ensures
        r as int == skip_end(views(lines@), j as int),
        j <= r <= lines@.len(),
{
    let ghost ls = views(lines@);
    let mut k = j;
    while k < lines.len()
        invariant
            j <= k <= lines@.len(),
            skip_end(ls, k as int) == skip_end(ls, j as int),
            ls == views(lines@),
        decreases lines.len() - k,
    {
        let c = trim_chars(lines[k].as_slice());
        if eq_ignore_case_str(c.as_slice(), "endmacro") {
            return k;
        }
        k = k + 1;
    }
    k
}

fn param_names_exec(words: &Vec<Vec<char>>, from: usize) -> (r: Vec<Vec<char>>)
    requires
        from <= words@.len(),
    ensures
        views(r@) == param_names(views(words@).skip(from as int)),
{
    let ghost ws = views(words@);
    let mut out: Vec<Vec<char>> = Vec::new();
    let mut i = from;
    proof {
        assert(views(out@) =~= Seq::<Seq<char>>::empty());
        assert(seq![','] =~= [',']@);
    }
    while i < words.len()
        invariant
            from <= i <= words@.len(),
            ws == views(words@),
            seq![','] == [',']@,
            views(out@) + param_names(ws.skip(i as int)) == param_names(ws.skip(from as int)),
        decreases words.len() - i,
    {
        let p = trim_set_chars(words[i].as_slice(), &[',']);
        proof {
            assert(ws.skip(i as int).drop_first() =~= ws.skip(i + 1));
            assert(ws.skip(i as int)[0] == words@[i as int]@);
        }
        let ghost before = views(out@);
        if p.len() > 0 {
            let ghost pv = p@;
            out.push(p);
            proof {
                assert(views(out@) =~= before.push(pv));
                assert(before.push(pv) + param_names(ws.skip(i + 1)) =~= before + (seq![pv] + param_names(ws.skip(i + 1))));
            }
        }
        i = i + 1;
    }
    proof {
        assert(ws.skip(i as int) =~= Seq::<Seq<char>>::empty());
        assert(views(out@) + param_names(ws.skip(i as int)) =~= views(out@));
    }
    out
}

fn macro_header_exec(t: &[char]) -> (r: (Vec<char>, Vec<Vec<char>>))
    ensures
        r.0@ == macro_header(t@).0,
        views(r.1@) == macro_header(t@).1,
{
    let s6 = skip_bytes_chars(t, 6);
    let head = trim_chars(s6.as_slice());
    let words = split_ws_chars(head.as_slice());
    if words.len() > 0 {
        let name = lower_chars(words[0].as_slice());
        let params = param_names_exec(&words, 1);
        proof {
            assert(views(words@).skip(1) =~= views(words@).drop_first());
        }
        (name, params)
    } else {
        let empty: Vec<char> = Vec::new();
        let name = lower_chars(empty.as_slice());
        proof {
            assert(empty@ =~= Seq::<char>::empty());
        }
        (name, Vec::new())
    }
}

pub open spec fn macros_view(d: Seq<Macro>) -> Seq<SMacro> {
    d.map_values(|m: Macro| macro_view(m))
}

fn copy_lines(lines: &Vec<Vec<char>>, from: usize, to: usize) -> (r: Vec<Vec<char>>)
    requires
        from <= to <= lines@.len(),
    ensures
        views(r@) == views(lines@).subrange(from as int, to as int),
{
    let mut out: Vec<Vec<char>> = Vec::new();
    let mut i = from;
    while i < to
        invariant
            from <= i <= to <= lines@.len(),
            views(out@) == views(lines@).subrange(from as int, i as int),
        decreases to - i,
    {
        let ghost before = views(out@);
        let w = copy_chars(lines[i].as_slice());
        out.push(w);
        proof {
            assert(views(out@) =~= before.push(lines@[i as int]@));
            assert(before.push(lines@[i as int]@) =~= views(lines@).subrange(from as int, i + 1));
        }
        i = i + 1;
    }
    out
}

/// First pass: the macro definitions and the remaining lines.
fn collect_exec(lines: &Vec<Vec<char>>) -> (r: (Vec<Macro>, Vec<Vec<char>>))
    ensures
        (macros_view(r.0@), views(r.1@)) == collect(views(lines@), 0, seq![], seq![]),
{
    let ghost ls = views(lines@);
    let mut defs: Vec<Macro> = Vec::new();
    let mut out: Vec<Vec<char>> = Vec::new();
    let mut i: usize = 0;
    proof {
        assert(macros_view(defs@) =~= Seq::<SMacro>::empty());
        assert(views(out@) =~= Seq::<Seq<char>>::empty());
    }
    while i < lines.len()
        invariant
            i <= lines@.len(),
            ls == views(lines@),
            collect(ls, i as int, macros_view(defs@), views(out@)) == collect(ls, 0, seq![], seq![]),
        decreases lines.len() - i,
    {
        let c = clean_chars(lines[i].as_slice());
        let lower = lower_chars(c.as_slice());
        if crate::text::starts_with_str(lower.as_slice(), "macro ") {
            let e = body_end_exec(lines, i + 1);
            let s = skip_end_exec(lines, e);
            let next = if s < lines.len() { s + 1 } else { s };
            let (name, params) = macro_header_exec(c.as_slice());
            let body = copy_lines(lines, i + 1, e);
            let m = Macro { name, params, body };
            let ghost before = macros_view(defs@);
            let ghost mv = macro_view(m);
            defs.push(m);
            proof {
                assert(macros_view(defs@) =~= before.push(mv));
            }
            i = next;
        } else {
            let ghost before = views(out@);
            out.push(copy_chars(lines[i].as_slice()));
            proof {
                assert(views(out@) =~= before.push(ls[i as int]));
            }
            i = i + 1;
        }
    }
    (defs, out)
}

fn find_macro_exec(defs: &Vec<Macro>, name: &[char]) -> (r: Option<usize>)
    ensures
        match find_macro(macros_view(defs@), name@) {
            None => r is None,
            Some(m) => r matches Some(k) && k < defs@.len() && macro_view(defs@[k as int]) == m,
        },
{
    let mut i = defs.len();
    proof {
        assert(macros_view(defs@).take(i as int) =~= macros_view(defs@));
    }
    while i > 0
        invariant
            i <= defs@.len(),
            find_macro(macros_view(defs@).take(i as int), name@) == find_macro(macros_view(defs@), name@),
        decreases i,
    {
        proof {
            assert(macros_view(defs@).take(i as int).drop_last() =~= macros_view(defs@).take(i - 1));
        }
        if eq_chars(defs[i - 1].name.as_slice(), name) {
            return Some(i - 1);
        }
        i = i - 1;
    }
    None
}

fn subst_exec(l: &[char], params: &Vec<Vec<char>>, args: &Vec<Vec<char>>) -> (r: Vec<char>)
    requires
        params@.len() == args@.len(),
    ensures
        r@ == subst(l@, views(params@), views(args@), params@.len() as int),
{
    let mut cur = copy_chars(l);
    let mut k: usize = 0;
    while k < params.len()
        invariant
            k <= params@.len() == args@.len(),
            cur@ == subst(l@, views(params@), views(args@), k as int),
        decreases params.len() - k,
    {
        cur = replace_chars(cur.as_slice(), params[k].as_slice(), args[k].as_slice());
        k = k + 1;
    }
    cur
}

fn body_line_exec(bl: &[char], params: &Vec<Vec<char>>, args: &Vec<Vec<char>>, uniq: &[char]) -> (r: Vec<char>)
    requires
        params@.len() == args@.len(),
    ensures
        r@ == body_line(bl@, views(params@), views(args@), uniq@),
{
    let l1 = subst_exec(bl, params, args);
    let tmp = replace_chars(l1.as_slice(), &['@', '@'], uniq);
    proof {
        assert(['@', '@']@ =~= "@@"@) by {
            reveal_strlit("@@");
        }
    }
    let t = trim_chars(tmp.as_slice());
    if t.len() > 0 && t[t.len() - 1] == ':' && !contains_char(t.as_slice(), ' ') {
        let mut out: Vec<char> = Vec::new();
        append_str(&mut out, "LBL ");
        let name = slice_chars(t.as_slice(), 0, t.len() - 1);
        append_chars(&mut out, name.as_slice());
        proof {
            assert(name@ =~= t@.drop_last());
            assert(out@ =~= "LBL "@ + t@.drop_last());
        }
        out
    } else {
        tmp
    }
}

fn arg_words(words: &Vec<Vec<char>>) -> (r: Vec<Vec<char>>)
    requires
        words@.len() > 0,
    ensures
        views(r@) == views(words@).drop_first().map_values(|w: Seq<char>| trim_set(w, seq![','])),
{
    let mut out: Vec<Vec<char>> = Vec::new();
    let mut i: usize = 1;
    let ghost target = views(words@).drop_first().map_values(|w: Seq<char>| trim_set(w, seq![',']));
    proof {
        assert(seq![','] =~= [',']@);
    }
    while i < words.len()
        invariant
            1 <= i <= words@.len(),
            target == views(words@).drop_first().map_values(|w: Seq<char>| trim_set(w, seq![','])),
            views(out@) == target.take(i - 1),
            seq![','] == [',']@,
        decreases words.len() - i,
    {
        let w = trim_set_chars(words[i].as_slice(), &[',']);
        let ghost before = views(out@);
        let ghost wv = w@;
        out.push(w);
        proof {
            assert(views(out@) =~= before.push(wv));
            assert(target[i - 1] == trim_set(views(words@)[i as int], seq![',']));
            assert(before.push(wv) =~= target.take(i as int));
        }
        i = i + 1;
    }
    proof {
        assert(target.take(i - 1) =~= target);
    }
    out
}

/// Second pass on one line.
fn expand_line_exec(raw: &[char], defs: &Vec<Macro>, counter: u64, out: &mut Vec<Vec<char>>) -> (c2: u64)
    requires
        counter < u64::MAX,
    ensures
        views(final(out)@) == views(old(out)@) + expand_line(raw@, macros_view(defs@), counter as nat).0,
        c2 as nat == expand_line(raw@, macros_view(defs@), counter as nat).1,
        c2 <= counter + 1,
{
    let ghost before = views(out@);
    let t = clean_chars(raw);
    if t.len() == 0 {
        out.push(copy_chars(raw));
        proof {
            assert(views(out@) =~= before + seq![raw@]);
        }
        return counter;
    }
    let words = split_ws_chars(t.as_slice());
    let head: Vec<char> = if words.len() > 0 { copy_chars(words[0].as_slice()) } else { Vec::new() };
    proof {
        assert(head@ == (if views(words@).len() > 0 { views(words@)[0] } else { seq![] }));
    }
    let name = lower_chars(head.as_slice());
    match find_macro_exec(defs, name.as_slice()) {
        None => {
            out.push(copy_chars(raw));
            proof {
                assert(views(out@) =~= before + seq![raw@]);
            }
            counter
        },
        Some(k) => {
            let m = &defs[k];
            let args: Vec<Vec<char>> = if words.len() > 0 { arg_words(&words) } else { Vec::new() };
            proof {
                if views(words@).len() == 0 {
                    assert(views(args@) =~= Seq::<Seq<char>>::empty());
                }
            }
            if args.len() != m.params.len() {
                out.push(copy_chars(raw));
                proof {
                    assert(views(out@) =~= before + seq![raw@]);
                }
                return counter;
            }
            let c2 = counter + 1;
            let mut uniq: Vec<char> = Vec::new();
            append_str(&mut uniq, "..@");
            append_chars(&mut uniq, m.name.as_slice());
            append_str(&mut uniq, "@");
            let d = dec_chars(c2);
            append_chars(&mut uniq, d.as_slice());
            append_str(&mut uniq, "@");
            let ghost mv = macro_view(*m);
            proof {
                assert(uniq@ =~= uniq_prefix(mv.name, c2 as nat));
            }
            let ghost target = body_lines(mv, views(args@), uniq@);
            let mut j: usize = 0;
            while j < m.body.len()
                invariant
                    j <= m.body@.len(),
                    mv == macro_view(*m),
                    m.params@.len() == args@.len(),
                    target == body_lines(mv, views(args@), uniq@),
                    views(out@) == before + target.take(j as int),
                decreases m.body.len() - j,
            {
                let line = body_line_exec(m.body[j].as_slice(), &m.params, &args, uniq.as_slice());
                let ghost b2 = views(out@);
                let ghost lv = line@;
                out.push(line);
                proof {
                    assert(target[j as int] == body_line(m.body@[j as int]@, views(m.params@), views(args@), uniq@));
                    assert(views(out@) =~= b2.push(lv));
                    assert(b2.push(lv) =~= before + target.take(j + 1));
                }
                j = j + 1;
            }
            proof {
                assert(target.take(j as int) =~= target);
            }
            c2
        },
    }
}

pub fn join_exec(ls: &Vec<Vec<char>>) -> (r: Vec<char>)
    ensures
        r@ == join_lines(views(ls@)),
{
    let mut out: Vec<char> = Vec::new();
    let mut i: usize = 0;
    while i < ls.len()
        invariant
            i <= ls@.len(),
            out@ == join_lines(views(ls@).take(i as int)),
        decreases ls.len() - i,
    {
        let ghost t = views(ls@).take(i + 1);
        proof {
            assert(t.drop_last() =~= views(ls@).take(i as int));
        }
        if i > 0 {
            out.push('\n');
        } else {
            proof {
                assert(views(ls@).take(0) =~= Seq::<Seq<char>>::empty());
            }
        }
        append_chars(&mut out, ls[i].as_slice());
        proof {
            if i > 0 {
                assert(out@ =~= join_lines(t.drop_last()) + seq!['\n'] + t.last());
            } else {
                assert(out@ =~= t[0]);
            }
        }
        i = i + 1;
    }
    proof {
        assert(views(ls@).take(i as int) =~= views(ls@));
    }
    out
}

/// Expands the macros of a source text.
pub fn expand_macros(src: &[char]) -> (r: Vec<char>)
    ensures
        r@ == macro_expand(src@),
{
    let lines = lines_chars(src);
    proof {
        assert(views(lines@) =~= lines_of(src@));
    }
    let (defs, rest) = collect_exec(&lines);
    let ghost c = collect(lines_of(src@), 0, seq![], seq![]);
    let mut expanded: Vec<Vec<char>> = Vec::new();
    let mut counter: u64 = 0;
    let mut i: usize = 0;
    proof {
        assert(views(expanded@) =~= Seq::<Seq<char>>::empty());
    }
    while i < rest.len()
        invariant
            i <= rest@.len(),
            counter <= i,
            views(rest@) == c.1,
            macros_view(defs@) == c.0,
            views(expanded@) + expand_from(c.1, i as int, c.0, counter as nat) == expand_from(c.1, 0, c.0, 0),
        decreases rest.len() - i,
    {
        let ghost before = views(expanded@);
        let c2 = expand_line_exec(rest[i].as_slice(), &defs, counter, &mut expanded);
        proof {
            assert(views(rest@)[i as int] == rest@[i as int]@);
        }
        counter = c2;
        i = i + 1;
    }
    join_exec(&expanded)
}

} // verus!
