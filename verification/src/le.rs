//! Little-endian integer encoding, as used throughout the MASI format.
use vstd::prelude::*;

verus! {

pub open spec fn pow256(n: nat) -> nat
    decreases n,
{
    if n == 0 {
        1
    } else {
        256 * pow256((n - 1) as nat)
    }
}

/// The `n` low bytes of `v`, least significant first.
pub open spec fn le_bytes(v: nat, n: nat) -> Seq<u8>
    decreases n,
{
    if n == 0 {
        seq![]
    } else {
        seq![(v % 256) as u8] + le_bytes(v / 256, (n - 1) as nat)
    }
}

/// The number whose little-endian bytes are `s`.
pub open spec fn le_value(s: Seq<u8>) -> nat
    decreases s.len(),
{
    if s.len() == 0 {
        0
    } else {
        (s[0] + 256 * le_value(s.drop_first())) as nat
    }
}

pub proof fn lemma_le_bytes_len(v: nat, n: nat)
    ensures
        le_bytes(v, n).len() == n,
    decreases n,
{
    if n > 0 {
        lemma_le_bytes_len(v / 256, (n - 1) as nat);
    }
}

pub proof fn lemma_le_value_bound(s: Seq<u8>)
    ensures
        le_value(s) < pow256(s.len()),
    decreases s.len(),
{
    if s.len() > 0 {
        lemma_le_value_bound(s.drop_first());
        let r = le_value(s.drop_first());
        let p = pow256((s.len() - 1) as nat);
        assert(s[0] + 256 * r < 256 * p) by (nonlinear_arith)
            requires
                r < p,
                s[0] < 256,
        ;
    }
}

/// Reading back what was written: the value modulo `256^n`.
pub proof fn lemma_le_roundtrip(v: nat, n: nat)
    ensures
        le_value(le_bytes(v, n)) == v % pow256(n),
    decreases n,
{
    if n > 0 {
        lemma_le_roundtrip(v / 256, (n - 1) as nat);
        lemma_le_bytes_len(v / 256, (n - 1) as nat);
        let b = le_bytes(v, n);
        assert(b.drop_first() =~= le_bytes(v / 256, (n - 1) as nat));
        let p = pow256((n - 1) as nat);
        assert(p > 0) by {
            lemma_pow256_pos((n - 1) as nat);
        }
        vstd::arithmetic::div_mod::lemma_mod_breakdown(v as int, 256, p as int);
    }
}

pub proof fn lemma_pow256_pos(n: nat)
    ensures
        pow256(n) > 0,
    decreases n,
{
    if n > 0 {
        lemma_pow256_pos((n - 1) as nat);
    }
}

/// Writing back what was read: the bytes are reproduced exactly.
pub proof fn lemma_le_bytes_of_value(s: Seq<u8>)
    ensures
        le_bytes(le_value(s), s.len()) == s,
    decreases s.len(),
{
    if s.len() > 0 {
        let r = le_value(s.drop_first());
        lemma_le_bytes_of_value(s.drop_first());
        let v: nat = (s[0] + 256 * r) as nat;
        assert(v % 256 == s[0] && v / 256 == r) by (nonlinear_arith)
            requires
                v == s[0] + 256 * r,
                0 <= s[0] < 256,
        ;
        assert(le_bytes(v, s.len()) =~= s);
    }
}

pub proof fn lemma_pow256_values()
    ensures
        pow256(2) == 0x1_0000,
        pow256(4) == 0x1_0000_0000,
        pow256(8) == 0x1_0000_0000_0000_0000,
{
    reveal_with_fuel(pow256, 9);
}

/// Appends the `n` little-endian bytes of `v`.
pub fn push_le(v: u64, n: usize, out: &mut Vec<u8>)
    requires
        n <= 8,
    ensures
        final(out)@ == old(out)@ + le_bytes(v as nat, n as nat),
{
    let ghost start = out@;
    let mut w = v;
    let mut i: usize = 0;
    proof {
        assert(start + le_bytes(v as nat, n as nat) =~= out@ + le_bytes(w as nat, (n - i) as nat));
    }
    while i < n
        invariant
            i <= n,
            out@ + le_bytes(w as nat, (n - i) as nat) == start + le_bytes(v as nat, n as nat),
        decreases n - i,
    {
        let ghost rest = le_bytes(w as nat, (n - i) as nat);
        out.push((w % 256) as u8);
        proof {
            assert(rest == seq![(w % 256) as u8] + le_bytes((w / 256) as nat, (n - i - 1) as nat));
        }
        w = w / 256;
        i = i + 1;
        proof {
            assert(out@ + le_bytes(w as nat, (n - i) as nat) =~= start + le_bytes(v as nat, n as nat));
        }
    }
    proof {
        assert(le_bytes(w as nat, 0) =~= Seq::<u8>::empty());
        assert(out@ =~= out@ + le_bytes(w as nat, 0));
    }
}

pub fn write_u16_le(v: u16, out: &mut Vec<u8>)
    ensures
        final(out)@ == old(out)@ + le_bytes(v as nat, 2),
{
    push_le(v as u64, 2, out);
}

pub fn write_u32_le(v: u32, out: &mut Vec<u8>)
    ensures
        final(out)@ == old(out)@ + le_bytes(v as nat, 4),
{
    push_le(v as u64, 4, out);
}

pub fn write_u64_le(v: u64, out: &mut Vec<u8>)
    ensures
        final(out)@ == old(out)@ + le_bytes(v as nat, 8),
{
    push_le(v, 8, out);
}

/// Value of `n` little-endian bytes of `data` at `off`.
fn value_at(data: &[u8], off: usize, n: usize) -> (r: u64)
    requires
        n <= 8,
        off + n <= data@.len(),
    ensures
        r == le_value(data@.subrange(off as int, off + n)),
{
    let ghost s = data@.subrange(off as int, off + n);
    let len = data.len();
    let mut acc: u64 = 0;
    let mut k: usize = n;
    proof {
        assert(s.skip(n as int) =~= Seq::<u8>::empty());
        lemma_pow256_values();
    }
    while k > 0
        invariant
            k <= n <= 8,
            off + n <= data@.len(),
            len == data@.len(),
            s == data@.subrange(off as int, off + n),
            acc == le_value(s.skip(k as int)),
            pow256(8) == 0x1_0000_0000_0000_0000,
        decreases k,
    {
        let ghost t = s.skip(k - 1);
        proof {
            assert(t.drop_first() =~= s.skip(k as int));
            lemma_le_value_bound(s.skip(k as int));
            lemma_pow_mono((n - k) as nat, 7);
            assert(t[0] == data@[off + k - 1]);
        }
        let b = data[off + k - 1];
        assert(acc * 256 + b < 0x1_0000_0000_0000_0000) by (nonlinear_arith)
            requires
                acc < pow256((n - k) as nat),
                pow256((n - k) as nat) <= pow256(7),
                pow256(8) == 256 * pow256(7),
                pow256(8) == 0x1_0000_0000_0000_0000,
                b < 256,
        ;
        acc = (b as u64) + 256 * acc;
        k = k - 1;
    }
    proof {
        assert(s.skip(0) =~= s);
    }
    acc
}

proof fn lemma_pow_mono(a: nat, b: nat)
    requires
        a <= b,
    ensures
        pow256(a) <= pow256(b),
    decreases b,
{
    if a < b {
        lemma_pow_mono(a, (b - 1) as nat);
        lemma_pow256_pos((b - 1) as nat);
    }
}

pub fn read_u16_le(data: &[u8], off: &mut usize) -> (r: u16)
    requires
        *old(off) + 2 <= data@.len(),
    ensures
        r == le_value(data@.subrange(*old(off) as int, *old(off) + 2)),
        *final(off) == *old(off) + 2,
{
    let len = data.len();
    let v = value_at(data, *off, 2);
    proof {
        lemma_le_value_bound(data@.subrange(*off as int, *off + 2));
        lemma_pow256_values();
    }
    *off = *off + 2;
    v as u16
}

pub fn read_u32_le(data: &[u8], off: &mut usize) -> (r: u32)
    requires
        *old(off) + 4 <= data@.len(),
    ensures
        r == le_value(data@.subrange(*old(off) as int, *old(off) + 4)),
        *final(off) == *old(off) + 4,
{
    let len = data.len();
    let v = value_at(data, *off, 4);
    proof {
        lemma_le_value_bound(data@.subrange(*off as int, *off + 4));
        lemma_pow256_values();
    }
    *off = *off + 4;
    v as u32
}

pub fn read_u64_le(data: &[u8], off: &mut usize) -> (r: u64)
    requires
        *old(off) + 8 <= data@.len(),
    ensures
        r == le_value(data@.subrange(*old(off) as int, *old(off) + 8)),
        *final(off) == *old(off) + 8,
{
    let len = data.len();
    let v = value_at(data, *off, 8);
    *off = *off + 8;
    v
}

} // verus!

verus! {

/// Copy of `data[from..to]`.
pub fn copy_bytes(data: &[u8], from: usize, to: usize) -> (r: Vec<u8>)
    requires
        from <= to <= data@.len(),
    ensures
        r@ == data@.subrange(from as int, to as int),
{
    let mut r: Vec<u8> = Vec::new();
    let mut i = from;
    while i < to
        invariant
            from <= i <= to <= data@.len(),
            r@ == data@.subrange(from as int, i as int),
        decreases to - i,
    {
        r.push(data[i]);
        i = i + 1;
        assert(r@ =~= data@.subrange(from as int, i as int));
    }
    r
}

} // verus!
