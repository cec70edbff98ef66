//! Decimal and hexadecimal rendering of integers (`{}`, `{:X}`, `{:x}`,
//! with optional zero padding), specified over `Seq<char>`.
use vstd::prelude::*;

verus! {

pub open spec fn digit_char(d: nat, upper: bool) -> char {
    if d < 10 {
        (48 + d) as char
    } else if upper {
        (55 + d) as char
    } else {
        (87 + d) as char
    }
}

/// Digits of `n` in `base`, most significant first, without leading zeros.
pub open spec fn digits(n: nat, base: nat, upper: bool) -> Seq<char>
    decreases n,
{
    if base < 2 || n < base {
        seq![digit_char(n, upper)]
    } else {
        proof {
            assert(n / base < n) by (nonlinear_arith)
                requires
                    base >= 2,
                    n >= base,
            ;
        }
        digits(n / base, base, upper).push(digit_char(n % base, upper))
    }
}

/// `format!("{}", n)`.
pub open spec fn dec(n: nat) -> Seq<char> {
    digits(n, 10, true)
}

/// `format!("{:X}", n)`.
pub open spec fn hex_upper(n: nat) -> Seq<char> {
    digits(n, 16, true)
}

/// `format!("{:x}", n)`.
pub open spec fn hex_lower(n: nat) -> Seq<char> {
    digits(n, 16, false)
}

/// A character among `0`-`9` and `a`-`f`.
pub open spec fn is_lower_hex_digit(c: char) -> bool {
    ('0' <= c && c <= '9') || ('a' <= c && c <= 'f')
}

/// `16` to the power `k`.
pub open spec fn pow16(k: nat) -> nat
    decreases k,
{
    if k == 0 {
        1
    } else {
        16 * pow16((k - 1) as nat)
    }
}

/// A number below `16^k` has at most `k` lower-case hex digits, each of
/// them `0`-`9` or `a`-`f`.
pub proof fn lemma_hex_lower_digits(n: nat, k: nat)
    requires
        k >= 1,
        n < pow16(k),
    ensures
        1 <= hex_lower(n).len() <= k,
        forall|i: int| 0 <= i < hex_lower(n).len() ==> is_lower_hex_digit(#[trigger] hex_lower(n)[i]),
    decreases n,
{
    if n < 16 {
    } else {
        let p = pow16((k - 1) as nat);
        assert(k >= 2) by {
            if k == 1 {
                assert(pow16(0) == 1);
            }
        }
        assert(n / 16 < p && n / 16 < n) by (nonlinear_arith)
            requires
                n < 16 * p,
                n >= 16,
        ;
        lemma_hex_lower_digits(n / 16, (k - 1) as nat);
        let d = n % 16;
        assert(hex_lower(n) == hex_lower(n / 16).push(digit_char(d, false)));
        assert(is_lower_hex_digit(digit_char(d, false)));
    }
}

/// A `u64` has between one and sixteen lower-case hex digits.
pub proof fn lemma_hex_lower_u64(n: u64)
    ensures
        1 <= hex_lower(n as nat).len() <= 16,
        forall|i: int|
            0 <= i < hex_lower(n as nat).len() ==> is_lower_hex_digit(#[trigger] hex_lower(n as nat)[i]),
{
    reveal_with_fuel(pow16, 17);
    assert(pow16(16) == 0x1_0000_0000_0000_0000);
    lemma_hex_lower_digits(n as nat, 16);
}

/// Left padding with `'0'` up to `width` characters.
pub open spec fn zero_pad(s: Seq<char>, width: nat) -> Seq<char> {
    if s.len() >= width {
        s
    } else {
        Seq::new((width - s.len()) as nat, |i: int| '0') + s
    }
}

fn digit_exec(d: u64, upper: bool) -> (c: char)
    requires
        d < 16,
    ensures
        c == digit_char(d as nat, upper),
{
    if d < 10 {
        ((48 + d) as u8) as char
    } else if upper {
        ((55 + d) as u8) as char
    } else {
        ((87 + d) as u8) as char
    }
}

fn digits_exec(n: u64, base: u64, upper: bool) -> (r: Vec<char>)
    requires
        base == 10 || base == 16,
    ensures
        r@ == digits(n as nat, base as nat, upper),
    decreases n,
{
    if n < base {
        let mut v: Vec<char> = Vec::new();
        v.push(digit_exec(n, upper));
        assert(v@ =~= seq![digit_char(n as nat, upper)]);
        v
    } else {
        let mut v = digits_exec(n / base, base, upper);
        v.push(digit_exec(n % base, upper));
        v
    }
}

pub fn dec_chars(n: u64) -> (r: Vec<char>)
    ensures
        r@ == dec(n as nat),
{
    digits_exec(n, 10, true)
}

pub fn hex_upper_chars(n: u64) -> (r: Vec<char>)
    ensures
        r@ == hex_upper(n as nat),
{
    digits_exec(n, 16, true)
}

pub fn hex_lower_chars(n: u64) -> (r: Vec<char>)
    ensures
        r@ == hex_lower(n as nat),
{
    digits_exec(n, 16, false)
}

pub fn zero_pad_chars(s: Vec<char>, width: usize) -> (r: Vec<char>)
    ensures
        r@ == zero_pad(s@, width as nat),
{
    if s.len() >= width {
        return s;
    }
    let mut r: Vec<char> = Vec::new();
    let k = width - s.len();
    let mut i: usize = 0;
    while i < k
        invariant
            i <= k,
            r@ == Seq::new(i as nat, |j: int| '0'),
        decreases k - i,
    {
        r.push('0');
        i = i + 1;
        assert(r@ =~= Seq::new(i as nat, |j: int| '0'));
    }
    let ghost before = r@;
    let mut j: usize = 0;
    while j < s.len()
        invariant
            j <= s@.len(),
            r@ == before + s@.take(j as int),
        decreases s.len() - j,
    {
        r.push(s[j]);
        j = j + 1;
        assert(r@ =~= before + s@.take(j as int));
    }
    assert(s@.take(s@.len() as int) =~= s@);
    r
}

/// Appends `b` to `a`.
pub fn append_chars(a: &mut Vec<char>, b: &[char])
    ensures
        final(a)@ == old(a)@ + b@,
{
    let ghost before = a@;
    let mut j: usize = 0;
    while j < b.len()
        invariant
            j <= b@.len(),
            a@ == before + b@.take(j as int),
        decreases b.len() - j,
    {
        a.push(b[j]);
        j = j + 1;
        assert(a@ =~= before + b@.take(j as int));
    }
    assert(b@.take(b@.len() as int) =~= b@);
}

/// Appends the characters of a string literal.
pub fn append_str(a: &mut Vec<char>, b: &str)
    ensures
        final(a)@ == old(a)@ + b@,
{
    let bc = crate::text::str_chars(b);
    append_chars(a, bc.as_slice());
}

} // verus!
