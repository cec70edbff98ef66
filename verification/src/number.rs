//! Integer literal parsing with the rules of Rust's `from_str_radix`:
//! an optional sign, then one or more digits of the radix, no overflow.
use vstd::prelude::*;

verus! {

pub open spec fn digit_of(c: char, radix: nat) -> Option<nat> {
    let u = c as u32;
    let d: int = if 48 <= u && u <= 57 {
        u - 48
    } else if 97 <= u && u <= 122 {
        u - 87
    } else if 65 <= u && u <= 90 {
        u - 55
    } else {
        99
    };
    if d < radix {
        Some(d as nat)
    } else {
        None
    }
}

pub open spec fn all_digits(s: Seq<char>, radix: nat) -> bool {
    forall|i: int| 0 <= i < s.len() ==> (#[trigger] digit_of(s[i], radix)) is Some
}

pub open spec fn digits_value(s: Seq<char>, radix: nat) -> nat
    decreases s.len(),
{
    if s.len() == 0 {
        0
    } else {
        digits_value(s.drop_last(), radix) * radix + match digit_of(s.last(), radix) {
            Some(d) => d,
            None => 0,
        }
    }
}

/// A non-negative literal: optional `+`, then digits.
pub open spec fn parse_unsigned(s: Seq<char>, radix: nat) -> Option<nat> {
    let body = if s.len() > 0 && s[0] == '+' {
        s.drop_first()
    } else {
        s
    };
    if body.len() > 0 && all_digits(body, radix) {
        Some(digits_value(body, radix))
    } else {
        None
    }
}

/// A signed literal: optional `+` or `-`, then digits.
pub open spec fn parse_signed(s: Seq<char>, radix: nat) -> Option<int> {
    if s.len() > 0 && s[0] == '-' {
        let body = s.drop_first();
        if body.len() > 0 && all_digits(body, radix) {
            Some(-(digits_value(body, radix) as int))
        } else {
            None
        }
    } else {
        match parse_unsigned(s, radix) {
            Some(v) => Some(v as int),
            None => None,
        }
    }
}

/// A number written in decimal reads back as itself: its digits are
/// `0`-`9` and parse to the number.
pub proof fn lemma_dec_reads_back(n: nat)
    ensures
        crate::fmt::dec(n).len() > 0,
        forall|i: int|
            0 <= i < crate::fmt::dec(n).len() ==> '0' <= #[trigger] crate::fmt::dec(n)[i] && crate::fmt::dec(n)[i]
                <= '9',
        all_digits(crate::fmt::dec(n), 10),
        digits_value(crate::fmt::dec(n), 10) == n,
        parse_unsigned(crate::fmt::dec(n), 10) == Some(n),
    decreases n,
{
    let s = crate::fmt::dec(n);
    if n < 10 {
        assert(s == seq![crate::fmt::digit_char(n, true)]);
        assert(digit_of(s[0], 10) == Some(n));
        assert(s.drop_last() =~= Seq::<char>::empty());
        assert(digits_value(s.drop_last(), 10) == 0);
        assert(digits_value(s, 10) == digits_value(s.drop_last(), 10) * 10 + n);
    } else {
        lemma_dec_reads_back(n / 10);
        let p = crate::fmt::dec(n / 10);
        let c = crate::fmt::digit_char(n % 10, true);
        assert(s == p.push(c));
        assert(digit_of(c, 10) == Some(n % 10));
        assert(s.drop_last() =~= p);
        assert forall|i: int| 0 <= i < s.len() implies '0' <= #[trigger] s[i] && s[i] <= '9' by {
            if i < p.len() {
                assert(s[i] == p[i]);
            }
        }
        assert forall|i: int| 0 <= i < s.len() implies (#[trigger] digit_of(s[i], 10)) is Some by {
            if i < p.len() {
                assert(s[i] == p[i]);
            }
        }
        assert(digits_value(s, 10) == digits_value(p, 10) * 10 + n % 10);
        assert(n == (n / 10) * 10 + n % 10);
    }
    assert(s[0] != '+');
}

/// A number written in upper-case hexadecimal reads back as itself: its
/// digits are `0`-`9` and `A`-`F` and parse to the number.
pub proof fn lemma_hex_reads_back(n: nat)
    ensures
        crate::fmt::hex_upper(n).len() > 0,
        forall|i: int|
            0 <= i < crate::fmt::hex_upper(n).len() ==> ('0' <= #[trigger] crate::fmt::hex_upper(n)[i]
                && crate::fmt::hex_upper(n)[i] <= '9') || ('A' <= crate::fmt::hex_upper(n)[i]
                && crate::fmt::hex_upper(n)[i] <= 'F'),
        all_digits(crate::fmt::hex_upper(n), 16),
        digits_value(crate::fmt::hex_upper(n), 16) == n,
        parse_unsigned(crate::fmt::hex_upper(n), 16) == Some(n),
    decreases n,
{
    let s = crate::fmt::hex_upper(n);
    if n < 16 {
        assert(s == seq![crate::fmt::digit_char(n, true)]);
        assert(digit_of(s[0], 16) == Some(n));
        assert(s.drop_last() =~= Seq::<char>::empty());
        assert(digits_value(s.drop_last(), 16) == 0);
        assert(digits_value(s, 16) == digits_value(s.drop_last(), 16) * 16 + n);
    } else {
        lemma_hex_reads_back(n / 16);
        let p = crate::fmt::hex_upper(n / 16);
        let c = crate::fmt::digit_char(n % 16, true);
        assert(s == p.push(c));
        assert(digit_of(c, 16) == Some(n % 16));
        assert(s.drop_last() =~= p);
        assert forall|i: int| 0 <= i < s.len() implies ('0' <= #[trigger] s[i] && s[i] <= '9') || ('A' <= s[i]
            && s[i] <= 'F') by {
            if i < p.len() {
                assert(s[i] == p[i]);
            }
        }
        assert forall|i: int| 0 <= i < s.len() implies (#[trigger] digit_of(s[i], 16)) is Some by {
            if i < p.len() {
                assert(s[i] == p[i]);
            }
        }
        assert(digits_value(s, 16) == digits_value(p, 16) * 16 + n % 16);
        assert(n == (n / 16) * 16 + n % 16);
    }
    assert(s[0] != '+');
}

/// `u64::from_str_radix(s, radix).ok()`.
pub open spec fn spec_parse_u64(s: Seq<char>, radix: nat) -> Option<u64> {
    match parse_unsigned(s, radix) {
        Some(v) => if v <= u64::MAX {
            Some(v as u64)
        } else {
            None
        },
        None => None,
    }
}

/// `i64::from_str(s).ok()`.
pub open spec fn spec_parse_i64(s: Seq<char>) -> Option<i64> {
    match parse_signed(s, 10) {
        Some(v) => if i64::MIN <= v <= i64::MAX {
            Some(v as i64)
        } else {
            None
        },
        None => None,
    }
}

/// `i128::from_str(s).ok()`.
pub open spec fn spec_parse_i128(s: Seq<char>) -> Option<i128> {
    match parse_signed(s, 10) {
        Some(v) => if i128::MIN <= v <= i128::MAX {
            Some(v as i128)
        } else {
            None
        },
        None => None,
    }
}

proof fn lemma_digits_grow(s: Seq<char>, radix: nat, k: int)
    requires
        radix >= 1,
        0 <= k <= s.len(),
    ensures
        digits_value(s.take(k), radix) <= digits_value(s, radix),
    decreases s.len() - k,
{
    if k < s.len() {
        let t = s.drop_last();
        assert(t.take(k) =~= s.take(k));
        lemma_digits_grow(t, radix, k);
        let d = digits_value(t, radix);
        assert(d * radix >= d) by (nonlinear_arith)
            requires
                radix >= 1,
        ;
    } else {
        assert(s.take(k) =~= s);
    }
}

exec fn digit_exec(c: char, radix: u32) -> (r: Option<u32>)
    requires
        radix == 10 || radix == 16,
    ensures
        match digit_of(c, radix as nat) {
            Some(d) => r == Some(d as u32),
            None => r is None,
        },
{
    let u = c as u32;
    let d: u32 = if 48 <= u && u <= 57 {
        u - 48
    } else if 97 <= u && u <= 122 {
        u - 87
    } else if 65 <= u && u <= 90 {
        u - 55
    } else {
        99
    };
    if d < radix {
        Some(d)
    } else {
        None
    }
}

/// Value of the digits `s[start..]` (which must be non-empty and all
/// digits), or `None` when they are not, or when the value exceeds `u128::MAX`.
fn parse_digits_u128(s: &[char], start: usize, radix: u32) -> (r: Option<u128>)
    requires
        radix == 10 || radix == 16,
        start <= s@.len(),
    ensures
        ({
            let body = s@.skip(start as int);
            if body.len() > 0 && all_digits(body, radix as nat) && digits_value(body, radix as nat)
                <= u128::MAX {
                r == Some(digits_value(body, radix as nat) as u128)
            } else {
                r is None
            }
        }),
{
    let ghost body = s@.skip(start as int);
    if start >= s.len() {
        return None;
    }
    let mut acc: u128 = 0;
    let mut i: usize = start;
    proof {
        assert(body.take(0) =~= Seq::<char>::empty());
    }
    while i < s.len()
        invariant
            radix == 10 || radix == 16,
            start <= i <= s@.len(),
            body == s@.skip(start as int),
            all_digits(body.take(i - start), radix as nat),
            acc == digits_value(body.take(i - start), radix as nat),
        decreases s.len() - i,
    {
        let ghost k = i - start;
        assert(body[k] == s@[i as int]);
        match digit_exec(s[i], radix) {
            None => {
                assert(!all_digits(body, radix as nat));
                return None;
            },
            Some(d) => {
                let ghost next = body.take(k + 1);
                assert(next.drop_last() =~= body.take(k));
                assert(next.last() == s@[i as int]);
                assert forall|j: int| 0 <= j < k + 1 implies (#[trigger] digit_of(next[j], radix as nat)) is Some by {
                    if j < k {
                        assert(next[j] == body.take(k)[j]);
                    }
                }
                match acc.checked_mul(radix as u128) {
                    None => {
                        proof {
                            lemma_digits_grow(body, radix as nat, k + 1);
                            assert(acc * radix + d > u128::MAX) by (nonlinear_arith)
                                requires
                                    acc * radix > u128::MAX,
                                    d >= 0,
                            ;
                        }
                        return None;
                    },
                    Some(m) => {
                        match m.checked_add(d as u128) {
                            None => {
                                proof {
                                    lemma_digits_grow(body, radix as nat, k + 1);
                                }
                                return None;
                            },
                            Some(v) => {
                                acc = v;
                            },
                        }
                    },
                }
            },
        }
        i = i + 1;
    }
    proof {
        assert(body.take(i - start) =~= body);
    }
    Some(acc)
}

/// `u64::from_str_radix(s, radix).ok()` (radix 10 or 16).
pub fn parse_u64_radix(s: &[char], radix: u32) -> (r: Option<u64>)
    requires
        radix == 10 || radix == 16,
    ensures
        r == spec_parse_u64(s@, radix as nat),
{
    let start: usize = if s.len() > 0 && s[0] == '+' { 1 } else { 0 };
    proof {
        if start == 1 {
            assert(s@.skip(1) =~= s@.drop_first());
        } else {
            assert(s@.skip(0) =~= s@);
        }
    }
    match parse_digits_u128(s, start, radix) {
        Some(v) => {
            if v <= u64::MAX as u128 {
                Some(v as u64)
            } else {
                None
            }
        },
        None => None,
    }
}

/// `i128::from_str(s).ok()`.
pub fn parse_i128_dec(s: &[char]) -> (r: Option<i128>)
    ensures
        r == spec_parse_i128(s@),
{
    if s.len() > 0 && s[0] == '-' {
        proof {
            assert(s@.skip(1) =~= s@.drop_first());
        }
        match parse_digits_u128(s, 1, 10) {
            Some(m) => {
                if m <= 0x8000_0000_0000_0000_0000_0000_0000_0000u128 {
                    if m == 0x8000_0000_0000_0000_0000_0000_0000_0000u128 {
                        Some(i128::MIN)
                    } else {
                        Some(-(m as i128))
                    }
                } else {
                    None
                }
            },
            None => None,
        }
    } else {
        let start: usize = if s.len() > 0 && s[0] == '+' { 1 } else { 0 };
        proof {
            if start == 1 {
                assert(s@.skip(1) =~= s@.drop_first());
            } else {
                assert(s@.skip(0) =~= s@);
            }
        }
        match parse_digits_u128(s, start, 10) {
            Some(m) => {
                if m <= i128::MAX as u128 {
                    Some(m as i128)
                } else {
                    None
                }
            },
            None => None,
        }
    }
}

/// `i64::from_str(s).ok()`.
pub fn parse_i64_dec(s: &[char]) -> (r: Option<i64>)
    ensures
        r == spec_parse_i64(s@),
{
    match parse_i128_dec(s) {
        Some(v) => {
            if i64::MIN as i128 <= v && v <= i64::MAX as i128 {
                Some(v as i64)
            } else {
                None
            }
        },
        None => {
            proof {
                match parse_signed(s@, 10) {
                    Some(v) => {
                        assert(!(i128::MIN <= v <= i128::MAX));
                    },
                    None => {},
                }
            }
            None
        },
    }
}

} // verus!
