//! Character-sequence utilities used by the assembler and the
//! disassembler: whitespace handling, line splitting, tokenising and
//! literal comparison, each specified over `Seq<char>`.
use vstd::prelude::*;

verus! {

/// The Unicode `White_Space` property, as used by `char::is_whitespace`.
pub open spec fn is_ws(c: char) -> bool {
    let u = c as u32;
    (0x09 <= u && u <= 0x0D) || u == 0x20 || u == 0x85 || u == 0xA0 || u == 0x1680
        || (0x2000 <= u && u <= 0x200A) || u == 0x2028 || u == 0x2029 || u == 0x202F
        || u == 0x205F || u == 0x3000
}

pub fn is_ws_char(c: char) -> (r: bool)
    ensures
        r == is_ws(c),
{
    let u = c as u32;
    (0x09 <= u && u <= 0x0D) || u == 0x20 || u == 0x85 || u == 0xA0 || u == 0x1680
        || (0x2000 <= u && u <= 0x200A) || u == 0x2028 || u == 0x2029 || u == 0x202F
        || u == 0x205F || u == 0x3000
}

pub open spec fn trim_start(s: Seq<char>) -> Seq<char>
    decreases s.len(),
{
    if s.len() > 0 && is_ws(s[0]) {
        trim_start(s.drop_first())
    } else {
        s
    }
}

pub open spec fn trim_end(s: Seq<char>) -> Seq<char>
    decreases s.len(),
{
    if s.len() > 0 && is_ws(s.last()) {
        trim_end(s.drop_last())
    } else {
        s
    }
}

/// `str::trim`: leading and trailing whitespace removed.
pub open spec fn trim(s: Seq<char>) -> Seq<char> {
    trim_end(trim_start(s))
}

proof fn lemma_trim_start_skip(s: Seq<char>, i: int)
    requires
        0 <= i <= s.len(),
        forall|k: int| 0 <= k < i ==> is_ws(#[trigger] s[k]),
        i < s.len() ==> !is_ws(s[i]),
    ensures
        trim_start(s) == s.skip(i),
    decreases i,
{
    if i == 0 {
        assert(s.skip(0) =~= s);
    } else {
        assert(is_ws(s[0]));
        let t = s.drop_first();
        assert forall|k: int| 0 <= k < i - 1 implies is_ws(#[trigger] t[k]) by {
            assert(t[k] == s[k + 1]);
        }
        lemma_trim_start_skip(t, i - 1);
        assert(t.skip(i - 1) =~= s.skip(i));
    }
}

proof fn lemma_trim_end_take(s: Seq<char>, j: int)
    requires
        0 <= j <= s.len(),
        forall|k: int| j <= k < s.len() ==> is_ws(#[trigger] s[k]),
        j > 0 ==> !is_ws(s[j - 1]),
    ensures
        trim_end(s) == s.take(j),
    decreases s.len() - j,
{
    if j == s.len() {
        assert(s.take(j) =~= s);
    } else {
        assert(is_ws(s.last()));
        let t = s.drop_last();
        assert forall|k: int| j <= k < t.len() implies is_ws(#[trigger] t[k]) by {
            assert(t[k] == s[k]);
        }
        lemma_trim_end_take(t, j);
        assert(t.take(j) =~= s.take(j));
    }
}

/// Copy of `s[from..to]`.
pub fn slice_chars(s: &[char], from: usize, to: usize) -> (r: Vec<char>)
    requires
        from <= to <= s@.len(),
    ensures
        r@ == s@.subrange(from as int, to as int),
{
    let mut r: Vec<char> = Vec::new();
    let mut i = from;
    while i < to
        invariant
            from <= i <= to <= s@.len(),
            r@ == s@.subrange(from as int, i as int),
        decreases to - i,
    {
        r.push(s[i]);
        i = i + 1;
        assert(r@ =~= s@.subrange(from as int, i as int));
    }
    r
}

pub fn trim_chars(s: &[char]) -> (r: Vec<char>)
    ensures
        r@ == trim(s@),
{
    let mut i: usize = 0;
    while i < s.len() && is_ws_char(s[i])
        invariant
            i <= s@.len(),
            forall|k: int| 0 <= k < i ==> is_ws(#[trigger] s@[k]),
        decreases s.len() - i,
    {
        i = i + 1;
    }
    proof {
        lemma_trim_start_skip(s@, i as int);
    }
    let mut j: usize = s.len();
    while j > i && is_ws_char(s[j - 1])
        invariant
            i <= j <= s@.len(),
            forall|k: int| j <= k < s@.len() ==> is_ws(#[trigger] s@[k]),
        decreases j,
    {
        j = j - 1;
    }
    let ghost t = s@.skip(i as int);
    proof {
        assert forall|k: int| j - i <= k < t.len() implies is_ws(#[trigger] t[k]) by {
            assert(t[k] == s@[k + i]);
        }
        if j > i {
            assert(t[j - i - 1] == s@[j - 1]);
        }
        lemma_trim_end_take(t, j - i);
        assert(t.take(j - i) =~= s@.subrange(i as int, j as int));
    }
    slice_chars(s, i, j)
}

pub open spec fn find_char(s: Seq<char>, c: char) -> Option<int>
    decreases s.len(),
{
    if s.len() == 0 {
        None
    } else if s[0] == c {
        Some(0)
    } else {
        match find_char(s.drop_first(), c) {
            Some(i) => Some(i + 1),
            None => None,
        }
    }
}

proof fn lemma_find_char(s: Seq<char>, c: char, i: int)
    requires
        0 <= i <= s.len(),
        forall|k: int| 0 <= k < i ==> #[trigger] s[k] != c,
    ensures
        i < s.len() && s[i] == c ==> find_char(s, c) == Some(i),
        i == s.len() ==> find_char(s, c) is None,
    decreases i,
{
    if i > 0 {
        let t = s.drop_first();
        assert forall|k: int| 0 <= k < i - 1 implies #[trigger] t[k] != c by {
            assert(t[k] == s[k + 1]);
        }
        lemma_find_char(t, c, i - 1);
        if i < s.len() {
            assert(t[i - 1] == s[i]);
        }
    }
}

pub proof fn lemma_find_char_facts(s: Seq<char>, c: char)
    ensures
        find_char(s, c) matches Some(i) ==> 0 <= i < s.len() && s[i] == c && forall|k: int|
            0 <= k < i ==> #[trigger] s[k] != c,
        find_char(s, c) is None ==> forall|k: int| 0 <= k < s.len() ==> #[trigger] s[k] != c,
    decreases s.len(),
{
    if s.len() > 0 {
        let t = s.drop_first();
        lemma_find_char_facts(t, c);
        if s[0] != c {
            assert forall|k: int| 0 <= k < s.len() && find_char(t, c) is None implies #[trigger] s[k]
                != c by {
                if k > 0 {
                    assert(s[k] == t[k - 1]);
                }
            }
            if let Some(i) = find_char(t, c) {
                assert forall|k: int| 0 <= k < i + 1 implies #[trigger] s[k] != c by {
                    if k > 0 {
                        assert(s[k] == t[k - 1]);
                    }
                }
            }
        }
    }
}

/// Position of the first `c` in `s[start..]`, counted from the start of `s`.
pub fn find_char_from(s: &[char], start: usize, c: char) -> (r: Option<usize>)
    requires
        start <= s@.len(),
    ensures
        r is None <==> find_char(s@.skip(start as int), c) is None,
        r matches Some(i) ==> start <= i < s@.len() && find_char(s@.skip(start as int), c) == Some(
            i - start,
        ),
{
    let mut i = start;
    while i < s.len()
        invariant
            start <= i <= s@.len(),
            forall|k: int| start <= k < i ==> #[trigger] s@[k] != c,
        decreases s.len() - i,
    {
        if s[i] == c {
            proof {
                let t = s@.skip(start as int);
                assert forall|k: int| 0 <= k < i - start implies #[trigger] t[k] != c by {
                    assert(t[k] == s@[k + start]);
                }
                lemma_find_char(t, c, i - start);
            }
            return Some(i);
        }
        i = i + 1;
    }
    proof {
        let t = s@.skip(start as int);
        assert forall|k: int| 0 <= k < t.len() implies #[trigger] t[k] != c by {
            assert(t[k] == s@[k + start]);
        }
        lemma_find_char(t, c, t.len() as int);
    }
    None
}

/// A line with its trailing carriage return removed.
pub open spec fn strip_cr(l: Seq<char>) -> Seq<char> {
    if l.len() > 0 && l.last() == '\r' {
        l.drop_last()
    } else {
        l
    }
}

/// `str::lines`: lines end at `\n` (a `\r` just before it is dropped);
/// the final line ending is optional.
pub open spec fn lines_of(s: Seq<char>) -> Seq<Seq<char>>
    decreases s.len(),
{
    if s.len() == 0 {
        seq![]
    } else {
        match find_char(s, '\n') {
            Some(i) => {
                if 0 <= i < s.len() {
                    seq![strip_cr(s.take(i))] + lines_of(s.skip(i + 1))
                } else {
                    seq![]
                }
            },
            None => seq![s],
        }
    }
}

pub fn strip_cr_chars(l: Vec<char>) -> (r: Vec<char>)
    ensures
        r@ == strip_cr(l@),
{
    let ghost l0 = l@;
    let mut l = l;
    if l.len() > 0 && l[l.len() - 1] == '\r' {
        l.pop();
        assert(l@ =~= strip_cr(l0));
    }
    l
}

pub fn lines_chars(s: &[char]) -> (r: Vec<Vec<char>>)
    ensures
        r@.map_values(|v: Vec<char>| v@) == lines_of(s@),
{
    let mut out: Vec<Vec<char>> = Vec::new();
    let mut pos: usize = 0;
    proof {
        assert(s@.skip(0) =~= s@);
        assert(out@.map_values(|v: Vec<char>| v@) + lines_of(s@) =~= lines_of(s@));
    }
    while pos < s.len()
        invariant
            pos <= s@.len(),
            out@.map_values(|v: Vec<char>| v@) + lines_of(s@.skip(pos as int)) == lines_of(s@),
        decreases s.len() - pos,
    {
        let ghost t = s@.skip(pos as int);
        match find_char_from(s, pos, '\n') {
            Some(i) => {
                proof {
                    lemma_find_char_facts(t, '\n');
                }
                let line = slice_chars(s, pos, i);
                let line = strip_cr_chars(line);
                proof {
                    assert(line@ == strip_cr(t.take(i - pos)));
                    assert(t.skip(i - pos + 1) =~= s@.skip(i + 1));
                }
                let ghost before = out@.map_values(|v: Vec<char>| v@);
                out.push(line);
                pos = i + 1;
                proof {
                    assert(out@.map_values(|v: Vec<char>| v@) =~= before.push(line@));
                }
            },
            None => {
                let line = slice_chars(s, pos, s.len());
                proof {
                    assert(line@ =~= t);
                }
                let ghost before = out@.map_values(|v: Vec<char>| v@);
                out.push(line);
                pos = s.len();
                proof {
                    assert(s@.skip(pos as int) =~= Seq::<char>::empty());
                    assert(out@.map_values(|v: Vec<char>| v@) =~= before.push(line@));
                }
            },
        }
    }
    proof {
        assert(s@.skip(pos as int) =~= Seq::<char>::empty());
        assert(out@.map_values(|v: Vec<char>| v@) + lines_of(s@.skip(pos as int)) =~= out@.map_values(|v: Vec<char>| v@));
    }
    out
}

/// Index of the first whitespace character (or the length when there is none).
pub open spec fn ws_index(s: Seq<char>) -> nat
    decreases s.len(),
{
    if s.len() == 0 || is_ws(s[0]) {
        0
    } else {
        1 + ws_index(s.drop_first())
    }
}

proof fn lemma_ws_index(s: Seq<char>, i: int)
    requires
        0 <= i <= s.len(),
        forall|k: int| 0 <= k < i ==> !is_ws(#[trigger] s[k]),
        i < s.len() ==> is_ws(s[i]),
    ensures
        ws_index(s) == i,
    decreases i,
{
    if i > 0 {
        let t = s.drop_first();
        assert forall|k: int| 0 <= k < i - 1 implies !is_ws(#[trigger] t[k]) by {
            assert(t[k] == s[k + 1]);
        }
        if i < s.len() {
            assert(t[i - 1] == s[i]);
        }
        lemma_ws_index(t, i - 1);
    }
}

/// `str::split_whitespace`.
pub open spec fn split_ws(s: Seq<char>) -> Seq<Seq<char>>
    decreases s.len(),
{
    if s.len() == 0 {
        seq![]
    } else if is_ws(s[0]) {
        split_ws(s.drop_first())
    } else {
        let k = ws_index(s) as int;
        if 1 <= k <= s.len() {
            seq![s.take(k)] + split_ws(s.skip(k))
        } else {
            seq![]
        }
    }
}

pub open spec fn views(v: Seq<Vec<char>>) -> Seq<Seq<char>> {
    v.map_values(|x: Vec<char>| x@)
}

pub fn split_ws_chars(s: &[char]) -> (r: Vec<Vec<char>>)
    ensures
        views(r@) == split_ws(s@),
{
    let mut out: Vec<Vec<char>> = Vec::new();
    let mut pos: usize = 0;
    proof {
        assert(s@.skip(0) =~= s@);
        assert(views(out@) + split_ws(s@) =~= split_ws(s@));
    }
    while pos < s.len()
        invariant
            pos <= s@.len(),
            views(out@) + split_ws(s@.skip(pos as int)) == split_ws(s@),
        decreases s.len() - pos,
    {
        let ghost t = s@.skip(pos as int);
        if is_ws_char(s[pos]) {
            proof {
                assert(t.drop_first() =~= s@.skip(pos + 1));
            }
            pos = pos + 1;
        } else {
            let mut j = pos + 1;
            while j < s.len() && !is_ws_char(s[j])
                invariant
                    pos < j <= s@.len(),
                    forall|k: int| pos <= k < j ==> !is_ws(#[trigger] s@[k]),
                decreases s.len() - j,
            {
                j = j + 1;
            }
            proof {
                assert forall|k: int| 0 <= k < j - pos implies !is_ws(#[trigger] t[k]) by {
                    assert(t[k] == s@[k + pos]);
                }
                if j < s.len() {
                    assert(t[j - pos] == s@[j as int]);
                }
                lemma_ws_index(t, j - pos);
                assert(t.skip(j - pos) =~= s@.skip(j as int));
            }
            let tok = slice_chars(s, pos, j);
            let ghost before = views(out@);
            out.push(tok);
            proof {
                assert(tok@ =~= t.take(j - pos));
                assert(views(out@) =~= before.push(tok@));
            }
            pos = j;
        }
    }
    proof {
        assert(s@.skip(pos as int) =~= Seq::<char>::empty());
        assert(views(out@) + split_ws(s@.skip(pos as int)) =~= views(out@));
    }
    out
}

/// `str::split(c)`.
pub open spec fn split_on(s: Seq<char>, c: char) -> Seq<Seq<char>>
    decreases s.len(),
{
    match find_char(s, c) {
        Some(i) => {
            if 0 <= i < s.len() {
                seq![s.take(i)] + split_on(s.skip(i + 1), c)
            } else {
                seq![]
            }
        },
        None => seq![s],
    }
}

pub fn split_on_chars(s: &[char], c: char) -> (r: Vec<Vec<char>>)
    ensures
        views(r@) == split_on(s@, c),
{
    let mut out: Vec<Vec<char>> = Vec::new();
    let mut pos: usize = 0;
    let mut done = false;
    proof {
        assert(s@.skip(0) =~= s@);
        assert(views(out@) + split_on(s@, c) =~= split_on(s@, c));
    }
    while !done
        invariant
            pos <= s@.len(),
            !done ==> views(out@) + split_on(s@.skip(pos as int), c) == split_on(s@, c),
            done ==> views(out@) == split_on(s@, c),
        decreases s.len() - pos + (if done { 0int } else { 1int }),
    {
        let ghost t = s@.skip(pos as int);
        proof {
            lemma_find_char_facts(t, c);
        }
        let ghost before = views(out@);
        match find_char_from(s, pos, c) {
            Some(i) => {
                let tok = slice_chars(s, pos, i);
                out.push(tok);
                proof {
                    assert(tok@ =~= t.take(i - pos));
                    assert(t.skip(i - pos + 1) =~= s@.skip(i + 1));
                    assert(views(out@) =~= before.push(tok@));
                }
                pos = i + 1;
            },
            None => {
                let tok = slice_chars(s, pos, s.len());
                out.push(tok);
                proof {
                    assert(tok@ =~= t);
                    assert(views(out@) =~= before.push(tok@));
                }
                done = true;
            },
        }
    }
    out
}

pub open spec fn starts_with(s: Seq<char>, p: Seq<char>) -> bool {
    p.len() <= s.len() && s.take(p.len() as int) == p
}

pub fn starts_with_chars(s: &[char], p: &[char]) -> (r: bool)
    ensures
        r == starts_with(s@, p@),
{
    if p.len() > s.len() {
        return false;
    }
    let mut i: usize = 0;
    while i < p.len()
        invariant
            p@.len() <= s@.len(),
            i <= p@.len(),
            forall|k: int| 0 <= k < i ==> s@[k] == p@[k],
        decreases p.len() - i,
    {
        if s[i] != p[i] {
            proof {
                assert(s@.take(p@.len() as int)[i as int] != p@[i as int]);
            }
            return false;
        }
        i = i + 1;
    }
    assert(s@.take(p@.len() as int) =~= p@);
    true
}

pub fn eq_chars(a: &[char], b: &[char]) -> (r: bool)
    ensures
        r == (a@ == b@),
{
    if a.len() != b.len() {
        return false;
    }
    let r = starts_with_chars(a, b);
    assert(a@ =~= a@.take(b@.len() as int));
    r
}

/// Converts a string slice to its characters.
pub fn str_chars(s: &str) -> (r: Vec<char>)
    ensures
        r@ == s@,
{
    broadcast use vstd::string::axiom_spec_iter;
    let mut v: Vec<char> = Vec::new();
    for c in it: s.chars()
        invariant
            v@ == it.seq().take(it.index() as int),
            it.seq() == s@,
    {
        v.push(c);
    }
    v
}

/// Collects characters into a `String`.
pub fn chars_to_string(v: &[char]) -> (r: String)
    ensures
        r@ == v@,
{
    let b = utf8_bytes(v);
    proof {
        vstd::utf8::encode_utf8_valid_utf8(v@);
        vstd::utf8::encode_utf8_decode_utf8(v@);
    }
    match crate::masi::utf8_string(b.as_slice()) {
        Some(st) => st,
        None => String::new(),
    }
}

pub fn starts_with_str(s: &[char], p: &str) -> (r: bool)
    ensures
        r == starts_with(s@, p@),
{
    let pc = str_chars(p);
    starts_with_chars(s, pc.as_slice())
}

pub fn eq_str(s: &[char], p: &str) -> (r: bool)
    ensures
        r == (s@ == p@),
{
    let pc = str_chars(p);
    eq_chars(s, pc.as_slice())
}

pub fn contains_char(s: &[char], c: char) -> (r: bool)
    ensures
        r == (find_char(s@, c) is Some),
{
    assert(s@.skip(0) =~= s@);
    find_char_from(s, 0, c).is_some()
}

pub open spec fn strip_comment(l: Seq<char>) -> Seq<char> {
    match find_char(l, ';') {
        Some(i) => l.take(i),
        None => l,
    }
}

pub fn strip_comment_chars(l: &[char]) -> (r: Vec<char>)
    ensures
        r@ == strip_comment(l@),
{
    assert(l@.skip(0) =~= l@);
    proof {
        lemma_find_char_facts(l@, ';');
    }
    let f = find_char_from(l, 0, ';');
    assert(find_char(l@.skip(0), ';') == find_char(l@, ';'));
    match f {
        Some(i) => {
            assert(find_char(l@, ';') == Some(i as int));
            let r = slice_chars(l, 0, i);
            assert(r@ =~= l@.take(i as int));
            r
        },
        None => {
            let r = slice_chars(l, 0, l.len());
            assert(r@ =~= l@);
            r
        },
    }
}

/// `str::splitn(2, c)`: the part before the first `c` and, when there is
/// one, the part after it.
pub open spec fn split_once(s: Seq<char>, c: char) -> (Seq<char>, Option<Seq<char>>) {
    match find_char(s, c) {
        Some(i) => (s.take(i), Some(s.skip(i + 1))),
        None => (s, None),
    }
}

pub fn split_once_chars(s: &[char], c: char) -> (r: (Vec<char>, Option<Vec<char>>))
    ensures
        r.0@ == split_once(s@, c).0,
        match split_once(s@, c).1 {
            Some(t) => r.1 matches Some(v) && v@ == t,
            None => r.1 is None,
        },
{
    assert(s@.skip(0) =~= s@);
    proof {
        lemma_find_char_facts(s@, c);
    }
    let f = find_char_from(s, 0, c);
    assert(find_char(s@.skip(0), c) == find_char(s@, c));
    match f {
        Some(i) => {
            assert(find_char(s@, c) == Some(i as int));
            let n = s.len();
            assert(i < n);
            let a = slice_chars(s, 0, i);
            let b = slice_chars(s, i + 1, s.len());
            assert(a@ =~= s@.take(i as int));
            assert(b@ =~= s@.skip(i + 1));
            (a, Some(b))
        },
        None => {
            let a = slice_chars(s, 0, s.len());
            assert(a@ =~= s@);
            (a, None)
        },
    }
}

/// Lower-case code of an ASCII letter; other characters keep their code.
pub open spec fn ascii_lower_code(c: char) -> int {
    if 'A' <= c && c <= 'Z' {
        (c as u32) + 32
    } else {
        c as u32 as int
    }
}

/// `eq_ignore_ascii_case`.
pub open spec fn eq_ignore_case(a: Seq<char>, b: Seq<char>) -> bool {
    a.len() == b.len() && forall|i: int|
        0 <= i < a.len() ==> ascii_lower_code(#[trigger] a[i]) == ascii_lower_code(b[i])
}

pub fn eq_ignore_case_str(a: &[char], b: &str) -> (r: bool)
    ensures
        r == eq_ignore_case(a@, b@),
{
    let bc = str_chars(b);
    if a.len() != bc.len() {
        return false;
    }
    let mut i: usize = 0;
    while i < a.len()
        invariant
            a@.len() == bc@.len(),
            bc@ == b@,
            i <= a@.len(),
            forall|k: int| 0 <= k < i ==> ascii_lower_code(#[trigger] a@[k]) == ascii_lower_code(bc@[k]),
        decreases a.len() - i,
    {
        let x = a[i];
        let y = bc[i];
        let lx: u32 = if 'A' <= x && x <= 'Z' { (x as u32) + 32 } else { x as u32 };
        let ly: u32 = if 'A' <= y && y <= 'Z' { (y as u32) + 32 } else { y as u32 };
        if lx != ly {
            return false;
        }
        i = i + 1;
    }
    true
}

pub open spec fn all_ascii(s: Seq<char>) -> bool {
    forall|i: int| 0 <= i < s.len() ==> (#[trigger] s[i] as u32) < 128
}

/// What `str::to_lowercase` returns (full Unicode case mapping).
pub uninterp spec fn spec_lowercase(s: Seq<char>) -> Seq<char>;

/// What `str::to_uppercase` returns (full Unicode case mapping).
pub uninterp spec fn spec_uppercase(s: Seq<char>) -> Seq<char>;

/// Calls `str::to_lowercase`. Its result is named `spec_lowercase`; on
/// ASCII input it is the ASCII lower-casing of each character.
#[verifier::external_body]
pub(crate) fn to_lowercase_chars(s: &[char]) -> (r: Vec<char>)
    ensures
        r@ == spec_lowercase(s@),
        all_ascii(s@) ==> r@.len() == s@.len() && forall|i: int|
            0 <= i < s@.len() ==> #[trigger] (r@[i] as u32) == ascii_lower_code(s@[i]),
{
    let st: String = s.iter().collect();
    st.to_lowercase().chars().collect()
}

/// Calls `str::to_uppercase`. Its result is named `spec_uppercase`; on
/// ASCII input only the letters `a`..`z` change, each to its capital.
#[verifier::external_body]
pub(crate) fn to_uppercase_chars(s: &[char]) -> (r: Vec<char>)
    ensures
        r@ == spec_uppercase(s@),
        all_ascii(s@) ==> r@.len() == s@.len() && forall|i: int|
            0 <= i < s@.len() ==> #[trigger] (r@[i] as u32) == (if 'a' <= s@[i] && s@[i] <= 'z' {
                (s@[i] as u32) - 32
            } else {
                s@[i] as u32 as int
            }),
{
    let st: String = s.iter().collect();
    st.to_uppercase().chars().collect()
}

/// The ASCII lower case of a character: `A`..`Z` become `a`..`z`.
pub open spec fn ascii_lower(c: char) -> char {
    if 'A' <= c && c <= 'Z' {
        ((c as u32) + 32) as char
    } else {
        c
    }
}

/// The ASCII upper case of a character: `a`..`z` become `A`..`Z`.
pub open spec fn ascii_upper(c: char) -> char {
    if 'a' <= c && c <= 'z' {
        ((c as u32) - 32) as char
    } else {
        c
    }
}

/// What `str::to_lowercase` gives for a text: on ASCII text each letter
/// lowered, on other text the full Unicode mapping.
pub open spec fn lower_text(s: Seq<char>) -> Seq<char> {
    if all_ascii(s) {
        s.map_values(|c: char| ascii_lower(c))
    } else {
        spec_lowercase(s)
    }
}

/// What `str::to_uppercase` gives for a text: on ASCII text each letter
/// capitalised, on other text the full Unicode mapping.
pub open spec fn upper_text(s: Seq<char>) -> Seq<char> {
    if all_ascii(s) {
        s.map_values(|c: char| ascii_upper(c))
    } else {
        spec_uppercase(s)
    }
}

/// `str::to_lowercase` of a text.
pub fn lower_chars(s: &[char]) -> (r: Vec<char>)
    ensures
        r@ == lower_text(s@),
{
    let r = to_lowercase_chars(s);
    proof {
        if all_ascii(s@) {
            assert forall|i: int| 0 <= i < s@.len() implies r@[i] == ascii_lower(s@[i]) by {
                assert((r@[i] as u32) == ascii_lower_code(s@[i]));
                vstd::utf8::char_u32_cast(r@[i], r@[i] as u32);
                vstd::utf8::char_u32_cast(s@[i], s@[i] as u32);
            }
            assert(r@ =~= s@.map_values(|c: char| ascii_lower(c)));
        }
    }
    r
}

/// `str::to_uppercase` of a text.
pub fn upper_chars(s: &[char]) -> (r: Vec<char>)
    ensures
        r@ == upper_text(s@),
{
    let r = to_uppercase_chars(s);
    proof {
        if all_ascii(s@) {
            assert forall|i: int| 0 <= i < s@.len() implies r@[i] == ascii_upper(s@[i]) by {
                vstd::utf8::char_u32_cast(r@[i], r@[i] as u32);
                vstd::utf8::char_u32_cast(s@[i], s@[i] as u32);
                assert((r@[i] as u32) == (if 'a' <= s@[i] && s@[i] <= 'z' {
                    (s@[i] as u32) - 32
                } else {
                    s@[i] as u32 as int
                }));
            }
            assert(r@ =~= s@.map_values(|c: char| ascii_upper(c)));
        }
    }
    r
}

/// Number of bytes of a character in UTF-8.
pub open spec fn utf8_len(c: char) -> int {
    if (c as u32) < 0x80 {
        1
    } else if (c as u32) < 0x800 {
        2
    } else if (c as u32) < 0x10000 {
        3
    } else {
        4
    }
}

/// The characters that follow the first `n` bytes of the UTF-8 form of `s`.
pub open spec fn skip_bytes(s: Seq<char>, n: int) -> Seq<char>
    decreases s.len(),
{
    if n <= 0 || s.len() == 0 {
        s
    } else {
        skip_bytes(s.drop_first(), n - utf8_len(s[0]))
    }
}

pub fn skip_bytes_chars(s: &[char], n: usize) -> (r: Vec<char>)
    ensures
        r@ == skip_bytes(s@, n as int),
{
    let mut i: usize = 0;
    let mut left: usize = n;
    proof {
        assert(s@.skip(0) =~= s@);
    }
    while left > 0 && i < s.len()
        invariant
            i <= s@.len(),
            skip_bytes(s@.skip(i as int), left as int) == skip_bytes(s@, n as int),
        decreases s.len() - i,
    {
        let c = s[i];
        let u = c as u32;
        let w: usize = if u < 0x80 { 1 } else if u < 0x800 { 2 } else if u < 0x10000 { 3 } else { 4 };
        proof {
            let t = s@.skip(i as int);
            assert(t.drop_first() =~= s@.skip(i + 1));
            assert(t[0] == c);
            assert(w == utf8_len(c));
            assert(skip_bytes(t, left as int) == skip_bytes(t.drop_first(), left - w));
        }
        if w >= left {
            left = 0;
        } else {
            left = left - w;
        }
        i = i + 1;
    }
    slice_chars(s, i, s.len())
}

/// `str::replace(p, a)` for a non-empty pattern `p`.
pub open spec fn replace_all(s: Seq<char>, p: Seq<char>, a: Seq<char>) -> Seq<char>
    decreases s.len(),
{
    if s.len() == 0 || p.len() == 0 {
        s
    } else if starts_with(s, p) {
        a + replace_all(s.skip(p.len() as int), p, a)
    } else {
        seq![s[0]] + replace_all(s.drop_first(), p, a)
    }
}

pub fn replace_chars(s: &[char], p: &[char], a: &[char]) -> (r: Vec<char>)
    ensures
        r@ == replace_all(s@, p@, a@),
{
    if p.len() == 0 {
        return slice_chars(s, 0, s.len());
    }
    let mut out: Vec<char> = Vec::new();
    let mut i: usize = 0;
    proof {
        assert(s@.skip(0) =~= s@);
    }
    while i < s.len()
        invariant
            p@.len() > 0,
            i <= s@.len(),
            out@ + replace_all(s@.skip(i as int), p@, a@) == replace_all(s@, p@, a@),
        decreases s.len() - i,
    {
        let ghost t = s@.skip(i as int);
        let rest = slice_chars(s, i, s.len());
        if starts_with_chars(rest.as_slice(), p) {
            let ghost before = out@;
            let mut k: usize = 0;
            while k < a.len()
                invariant
                    k <= a@.len(),
                    out@ == before + a@.take(k as int),
                decreases a.len() - k,
            {
                out.push(a[k]);
                k = k + 1;
                assert(out@ =~= before + a@.take(k as int));
            }
            proof {
                assert(a@.take(a@.len() as int) =~= a@);
                assert(t.skip(p@.len() as int) =~= s@.skip(i + p@.len()));
                assert(before + (a@ + replace_all(t.skip(p@.len() as int), p@, a@)) =~= out@
                    + replace_all(s@.skip(i + p@.len()), p@, a@));
            }
            i = i + p.len();
        } else {
            let ghost before = out@;
            out.push(s[i]);
            proof {
                assert(t.drop_first() =~= s@.skip(i + 1));
                assert(before + (seq![t[0]] + replace_all(t.drop_first(), p@, a@)) =~= out@
                    + replace_all(s@.skip(i + 1), p@, a@));
            }
            i = i + 1;
        }
    }
    proof {
        assert(s@.skip(i as int) =~= Seq::<char>::empty());
        assert(out@ + replace_all(s@.skip(i as int), p@, a@) =~= out@);
    }
    out
}

/// `str::trim_matches` with a set of characters.
pub open spec fn trim_set_start(s: Seq<char>, set: Seq<char>) -> Seq<char>
    decreases s.len(),
{
    if s.len() > 0 && set.contains(s[0]) {
        trim_set_start(s.drop_first(), set)
    } else {
        s
    }
}

pub open spec fn trim_set_end(s: Seq<char>, set: Seq<char>) -> Seq<char>
    decreases s.len(),
{
    if s.len() > 0 && set.contains(s.last()) {
        trim_set_end(s.drop_last(), set)
    } else {
        s
    }
}

pub open spec fn trim_set(s: Seq<char>, set: Seq<char>) -> Seq<char> {
    trim_set_end(trim_set_start(s, set), set)
}

fn in_set(c: char, set: &[char]) -> (r: bool)
    ensures
        r == set@.contains(c),
{
    let mut i: usize = 0;
    while i < set.len()
        invariant
            i <= set@.len(),
            forall|k: int| 0 <= k < i ==> set@[k] != c,
        decreases set.len() - i,
    {
        if set[i] == c {
            return true;
        }
        i = i + 1;
    }
    false
}

pub fn trim_set_chars(s: &[char], set: &[char]) -> (r: Vec<char>)
    ensures
        r@ == trim_set(s@, set@),
{
    let mut i: usize = 0;
    proof {
        assert(s@.skip(0) =~= s@);
    }
    while i < s.len() && in_set(s[i], set)
        invariant
            i <= s@.len(),
            trim_set_start(s@.skip(i as int), set@) == trim_set_start(s@, set@),
        decreases s.len() - i,
    {
        proof {
            assert(s@.skip(i as int).drop_first() =~= s@.skip(i + 1));
        }
        i = i + 1;
    }
    let ghost t = s@.skip(i as int);
    let mut j: usize = s.len();
    proof {
        assert(t.take(t.len() as int) =~= t);
    }
    while j > i && in_set(s[j - 1], set)
        invariant
            i <= j <= s@.len(),
            t == s@.skip(i as int),
            trim_set_end(t.take(j - i), set@) == trim_set_end(t, set@),
        decreases j,
    {
        proof {
            assert(t.take(j - i).drop_last() =~= t.take(j - 1 - i));
        }
        j = j - 1;
    }
    proof {
        assert(t.take(j - i) =~= s@.subrange(i as int, j as int));
    }
    slice_chars(s, i, j)
}

} // verus!

verus! {

/// A copy of `s`.
pub fn copy_chars(s: &[char]) -> (r: Vec<char>)
    ensures
        r@ == s@,
{
    let r = slice_chars(s, 0, s.len());
    assert(r@ =~= s@);
    r
}

} // verus!

verus! {

pub proof fn lemma_encode_utf8_push(s: Seq<char>, c: char)
    ensures
        vstd::utf8::encode_utf8(s.push(c)) == vstd::utf8::encode_utf8(s) + vstd::utf8::encode_scalar(c as u32),
    decreases s.len(),
{
    if s.len() == 0 {
        assert(s.push(c).drop_first() =~= Seq::<char>::empty());
        assert(vstd::utf8::encode_utf8(Seq::<char>::empty()) =~= Seq::<u8>::empty());
        assert(s.push(c)[0] == c);
        assert(vstd::utf8::encode_utf8(s.push(c)) =~= vstd::utf8::encode_scalar(c as u32) + vstd::utf8::encode_utf8(s.push(c).drop_first()));
        assert(vstd::utf8::encode_utf8(s.push(c)) =~= vstd::utf8::encode_scalar(c as u32));
    } else {
        lemma_encode_utf8_push(s.drop_first(), c);
        assert(s.push(c).drop_first() =~= s.drop_first().push(c));
        assert(s.push(c)[0] == s[0]);
        assert(vstd::utf8::encode_utf8(s.push(c)) =~= vstd::utf8::encode_utf8(s) + vstd::utf8::encode_scalar(c as u32));
    }
}

fn push_scalar(u: u32, out: &mut Vec<u8>)
    requires
        vstd::utf8::is_scalar(u),
    ensures
        final(out)@ == old(out)@ + vstd::utf8::encode_scalar(u),
{
    let ghost before = out@;
    if u <= 0x7F {
        out.push((u & 0x7F) as u8);
        assert(out@ =~= before + vstd::utf8::encode_scalar(u));
    } else if u <= 0x7FF {
        out.push(0xC0 | ((u >> 6) & 0x1F) as u8);
        out.push(0x80 | (u & 0x3F) as u8);
        assert(out@ =~= before + vstd::utf8::encode_scalar(u));
    } else if u <= 0xFFFF {
        out.push(0xE0 | ((u >> 12) & 0x0F) as u8);
        out.push(0x80 | ((u >> 6) & 0x3F) as u8);
        out.push(0x80 | (u & 0x3F) as u8);
        assert(out@ =~= before + vstd::utf8::encode_scalar(u));
    } else {
        out.push(0xF0 | ((u >> 18) & 0x7) as u8);
        out.push(0x80 | ((u >> 12) & 0x3F) as u8);
        out.push(0x80 | ((u >> 6) & 0x3F) as u8);
        out.push(0x80 | (u & 0x3F) as u8);
        assert(out@ =~= before + vstd::utf8::encode_scalar(u));
    }
}

/// The UTF-8 bytes of `s`, as `str::as_bytes` gives them.
pub fn utf8_bytes(s: &[char]) -> (r: Vec<u8>)
    ensures
        r@ == vstd::utf8::encode_utf8(s@),
{
    let mut out: Vec<u8> = Vec::new();
    let mut i: usize = 0;
    proof {
        assert(s@.take(0) =~= Seq::<char>::empty());
    }
    while i < s.len()
        invariant
            i <= s@.len(),
            out@ == vstd::utf8::encode_utf8(s@.take(i as int)),
        decreases s.len() - i,
    {
        let c = s[i];
        proof {
            vstd::utf8::char_is_scalar(c);
            lemma_encode_utf8_push(s@.take(i as int), c);
            assert(s@.take(i as int).push(c) =~= s@.take(i + 1));
        }
        push_scalar(c as u32, &mut out);
        i = i + 1;
    }
    proof {
        assert(s@.take(i as int) =~= s@);
    }
    out
}

} // verus!
