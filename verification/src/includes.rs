//! Source include expansion: `#include "path"` lines are replaced by the
//! (recursively expanded) text of the file they name, whose own includes
//! are resolved against that file's directory.
use vstd::prelude::*;
use crate::asm_lines::{AsmEnv, SEnv, Need, SNeed, env_view, texts_view, text_view, need_view, opt_view};
use crate::assoc::assoc_get;
use crate::text::{trim, trim_chars, strip_comment, strip_comment_chars, starts_with, starts_with_str, lower_text,
    lower_chars, skip_bytes, skip_bytes_chars, trim_set, trim_set_chars, lines_of, lines_chars, eq_chars,
    copy_chars, slice_chars};
use crate::parse::{join_path, join_path_exec};
use crate::fmt::{dec, dec_chars, append_chars, append_str};

verus! {

/// What `std::path::Path::parent` returns for a path.
pub uninterp spec fn spec_path_parent(p: Seq<char>) -> Option<Seq<char>>;

/// Calls `std::path::Path::parent`; its result is named `spec_path_parent`.
#[verifier::external_body]
fn path_parent(p: &[char]) -> (r: Option<Vec<char>>)
    ensures
        match spec_path_parent(p@) {
            Some(q) => r matches Some(x) && x@ == q,
            None => r is None,
        },
{
    let s: String = p.iter().collect();
    std::path::Path::new(&s).parent().map(|q| q.to_string_lossy().chars().collect())
}

/// The path named by an `#include "path"` line (comments and case aside).
pub open spec fn include_target(raw: Seq<char>) -> Option<Seq<char>> {
    let t = trim(strip_comment(raw));
    if starts_with(lower_text(t), "#include "@) {
        Some(trim_set(trim(skip_bytes(t, 9)), seq!['"', '<', '>', ' ']))
    } else {
        None
    }
}

/// The error for includes nested too deeply.
pub open spec fn depth_error(depth: nat) -> Seq<char> {
    "error[EASM004]: include depth exceeds limit (depth="@ + dec(depth) + ")"@
}

/// `e` put before the text of an expansion that succeeded.
pub open spec fn prepend(e: Seq<char>, r: Result<Result<Seq<char>, Seq<char>>, SNeed>) -> Result<
    Result<Seq<char>, Seq<char>>,
    SNeed,
> {
    match r {
        Ok(Ok(t)) => Ok(Ok(e + t)),
        _ => r,
    }
}

/// The expansion of the lines `ls` at include depth `depth`: each line
/// followed by a newline, an include line replaced by the expansion of the
/// file it names (looked up in `env` by its path joined to `base`, and
/// expanded against that path's parent). `Err` names a file not yet
/// given; `Ok(Err(..))` is the error that ends the assembly: a file that
/// could not be read, or includes nested more than 32 deep.
pub open spec fn expand_lines(ls: Seq<Seq<char>>, env: SEnv, base: Option<Seq<char>>, depth: nat) -> Result<
    Result<Seq<char>, Seq<char>>,
    SNeed,
>
    decreases (if depth <= 33 { 33 - depth } else { 0 }), ls.len(),
{
    if depth > 32 {
        Ok(Err(depth_error(depth)))
    } else if ls.len() == 0 {
        Ok(Ok(seq![]))
    } else {
        let raw = ls[0];
        match include_target(raw) {
            None => prepend(raw + "\n"@, expand_lines(ls.drop_first(), env, base, depth)),
            Some(p) => {
                let abs = join_path(base, p);
                match assoc_get(env.texts, abs) {
                    None => Err(SNeed::Text(abs)),
                    Some(Err(m)) => Ok(Err(m)),
                    Some(Ok(content)) => match expand_lines(lines_of(content), env, spec_path_parent(abs), depth + 1) {
                        Ok(Ok(e)) => prepend(e + "\n"@, expand_lines(ls.drop_first(), env, base, depth)),
                        other => other,
                    },
                }
            },
        }
    }
}

/// Each line followed by a newline.
pub open spec fn newline_each(ls: Seq<Seq<char>>) -> Seq<char>
    decreases ls.len(),
{
    if ls.len() == 0 {
        seq![]
    } else {
        ls[0] + "\n"@ + newline_each(ls.drop_first())
    }
}

/// Lines with no `#include` line expand to themselves, each followed by a
/// newline, whatever the base directory.
pub proof fn lemma_expand_lines_plain(ls: Seq<Seq<char>>, env: SEnv, base: Option<Seq<char>>, depth: nat)
    requires
        depth <= 32,
        forall|k: int| 0 <= k < ls.len() ==> include_target(#[trigger] ls[k]) is None,
    ensures
        expand_lines(ls, env, base, depth) == Ok::<Result<Seq<char>, Seq<char>>, SNeed>(Ok(newline_each(ls))),
    decreases ls.len(),
{
    if ls.len() > 0 {
        let rest = ls.drop_first();
        assert forall|k: int| 0 <= k < rest.len() implies include_target(#[trigger] rest[k]) is None by {
            assert(rest[k] == ls[k + 1]);
        }
        lemma_expand_lines_plain(rest, env, base, depth);
        assert(include_target(ls[0]) is None);
        assert(ls[0] + "\n"@ + newline_each(rest) == newline_each(ls));
    }
}

/// The source with its includes expanded.
pub open spec fn expand_includes(src: Seq<char>, env: SEnv, base: Option<Seq<char>>) -> Result<
    Result<Seq<char>, Seq<char>>,
    SNeed,
> {
    expand_lines(lines_of(src), env, base, 0)
}

proof fn lemma_prepend_assoc(a: Seq<char>, b: Seq<char>, r: Result<Result<Seq<char>, Seq<char>>, SNeed>)
    ensures
        prepend(a + b, r) == prepend(a, prepend(b, r)),
{
    match r {
        Ok(Ok(t)) => {
            assert(a + b + t =~= a + (b + t));
        },
        _ => {},
    }
}

fn include_target_exec(raw: &[char]) -> (r: Option<Vec<char>>)
    ensures
        match include_target(raw@) {
            Some(p) => r matches Some(x) && x@ == p,
            None => r is None,
        },
{
    let c = strip_comment_chars(raw);
    let t = trim_chars(c.as_slice());
    let lower = lower_chars(t.as_slice());
    if starts_with_str(lower.as_slice(), "#include ") {
        let rest = skip_bytes_chars(t.as_slice(), 9);
        let rt = trim_chars(rest.as_slice());
        let set: Vec<char> = vec!['"', '<', '>', ' '];
        assert(set@ =~= seq!['"', '<', '>', ' ']);
        Some(trim_set_chars(rt.as_slice(), set.as_slice()))
    } else {
        None
    }
}

fn env_text(env: &AsmEnv, path: &[char]) -> (r: Option<Result<Vec<char>, Vec<char>>>)
    ensures
        match assoc_get(texts_view(*env), path@) {
            Some(f) => r matches Some(x) && text_view(x) == f,
            None => r is None,
        },
{
    let mut i = env.texts.len();
    proof {
        assert(texts_view(*env).take(i as int) =~= texts_view(*env));
    }
    while i > 0
        invariant
            i <= env.texts@.len(),
            assoc_get(texts_view(*env).take(i as int), path@) == assoc_get(texts_view(*env), path@),
        decreases i,
    {
        let ghost pv = texts_view(*env).take(i as int);
        proof {
            assert(texts_view(*env).take(i - 1) =~= pv.drop_last());
        }
        if eq_chars(env.texts[i - 1].0.as_slice(), path) {
            let r = match &env.texts[i - 1].1 {
                Ok(t) => Ok(copy_chars(t.as_slice())),
                Err(m) => Err(copy_chars(m.as_slice())),
            };
            proof {
                match &r {
                    Ok(t) => {
                        assert(t@ =~= env.texts@[i - 1].1->Ok_0@);
                    },
                    Err(m) => {
                        assert(m@ =~= env.texts@[i - 1].1->Err_0@);
                    },
                }
            }
            return Some(r);
        }
        i = i - 1;
    }
    proof {
        assert(texts_view(*env).take(0) =~= Seq::<(Seq<char>, Result<Seq<char>, Seq<char>>)>::empty());
    }
    None
}

pub open spec fn exp_view(r: Result<Result<Vec<char>, Vec<char>>, Need>) -> Result<Result<Seq<char>, Seq<char>>, SNeed> {
    match r {
        Ok(Ok(t)) => Ok(Ok(t@)),
        Ok(Err(m)) => Ok(Err(m@)),
        Err(n) => Err(need_view(n)),
    }
}

fn depth_error_exec(depth: usize) -> (r: Vec<char>)
    ensures
        r@ == depth_error(depth as nat),
{
    let mut m: Vec<char> = Vec::new();
    append_str(&mut m, "error[EASM004]: include depth exceeds limit (depth=");
    let d = dec_chars(depth as u64);
    append_chars(&mut m, d.as_slice());
    append_str(&mut m, ")");
    m
}

fn expand_exec(ls: &Vec<Vec<char>>, env: &AsmEnv, base: &Option<Vec<char>>, depth: usize) -> (r: Result<
    Result<Vec<char>, Vec<char>>,
    Need,
>)
    requires
        depth <= 33,
    ensures
        exp_view(r) == expand_lines(ls@.map_values(|v: Vec<char>| v@), env_view(*env), opt_view(*base), depth as nat),
    decreases 33 - depth,
{
    let ghost lv = ls@.map_values(|v: Vec<char>| v@);
    let ghost e = env_view(*env);
    let ghost b = opt_view(*base);
    if depth > 32 {
        return Ok(Err(depth_error_exec(depth)));
    }
    let mut out: Vec<char> = Vec::new();
    let mut i: usize = 0;
    proof {
        assert(lv.skip(0) =~= lv);
        assert(prepend(out@, expand_lines(lv.skip(0), e, b, depth as nat)) =~= expand_lines(lv, e, b, depth as nat));
    }
    while i < ls.len()
        invariant
            i <= ls@.len(),
            depth <= 32,
            lv == ls@.map_values(|v: Vec<char>| v@),
            e == env_view(*env),
            b == opt_view(*base),
            prepend(out@, expand_lines(lv.skip(i as int), e, b, depth as nat)) == expand_lines(lv, e, b, depth as nat),
        decreases ls.len() - i,
    {
        let ghost t = lv.skip(i as int);
        proof {
            assert(t[0] == ls@[i as int]@);
            assert(t.drop_first() =~= lv.skip(i + 1));
        }
        let raw = ls[i].as_slice();
        match include_target_exec(raw) {
            None => {
                let ghost o0 = out@;
                append_chars(&mut out, raw);
                out.push('\n');
                proof {
                    assert(out@ =~= o0 + (raw@ + "\n"@)) by {
                        reveal_strlit("\n");
                    }
                    lemma_prepend_assoc(o0, raw@ + "\n"@, expand_lines(lv.skip(i + 1), e, b, depth as nat));
                }
            },
            Some(p) => {
                let abs = join_path_exec(base, p);
                match env_text(env, abs.as_slice()) {
                    None => {
                        return Err(Need::Text(abs));
                    },
                    Some(Err(m)) => {
                        return Ok(Err(m));
                    },
                    Some(Ok(content)) => {
                        let sub = lines_chars(content.as_slice());
                        let nb = path_parent(abs.as_slice());
                        let inner = expand_exec(&sub, env, &nb, depth + 1);
                        proof {
                            assert(opt_view(nb) == spec_path_parent(abs@));
                        }
                        match inner {
                            Ok(Ok(x)) => {
                                let ghost o0 = out@;
                                append_chars(&mut out, x.as_slice());
                                out.push('\n');
                                proof {
                                    assert(out@ =~= o0 + (x@ + "\n"@)) by {
                                        reveal_strlit("\n");
                                    }
                                    lemma_prepend_assoc(o0, x@ + "\n"@, expand_lines(lv.skip(i + 1), e, b, depth as nat));
                                }
                            },
                            Ok(Err(m)) => {
                                return Ok(Err(m));
                            },
                            Err(n) => {
                                return Err(n);
                            },
                        }
                    },
                }
            },
        }
        i = i + 1;
    }
    proof {
        assert(lv.skip(i as int) =~= Seq::<Seq<char>>::empty());
    }
    Ok(Ok(out))
}

/// Expands the `#include "path"` lines of a source text, relative paths
/// against `base` (as written when there is none). The files are looked
/// up in `env`; `Err` names one not given yet.
pub fn expand_includes_exec(src: &[char], env: &AsmEnv, base: &Option<Vec<char>>) -> (r: Result<
    Result<Vec<char>, Vec<char>>,
    Need,
>)
    ensures
        exp_view(r) == expand_includes(src@, env_view(*env), opt_view(*base)),
{
    let ls = lines_chars(src);
    expand_exec(&ls, env, base, 0)
}

} // verus!
