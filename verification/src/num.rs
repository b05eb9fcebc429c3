use vstd::prelude::*;

verus! {

/// Value of a big-endian byte sequence.
pub open spec fn be_val(s: Seq<u8>) -> nat
    decreases s.len(),
{
    if s.len() == 0 {
        0
    } else {
        be_val(s.drop_last()) * 256 + (s.last() as nat)
    }
}

/// Value of a little-endian byte sequence.
pub open spec fn le_val(s: Seq<u8>) -> nat
    decreases s.len(),
{
    if s.len() == 0 {
        0
    } else {
        (s[0] as nat) + 256 * le_val(s.skip(1))
    }
}

/// 256 to the n-th power.
pub open spec fn pow256(n: nat) -> nat
    decreases n,
{
    if n == 0 {
        1
    } else {
        256 * pow256((n - 1) as nat)
    }
}

pub proof fn lemma_pow256_7()
    ensures
        pow256(7) == 0x100_0000_0000_0000,
{
    reveal_with_fuel(pow256, 8);
}

pub proof fn lemma_pow256_mono(i: nat, j: nat)
    requires
        i <= j,
    ensures
        pow256(i) <= pow256(j),
    decreases j,
{
    if i < j {
        lemma_pow256_mono(i, (j - 1) as nat);
        assert(pow256(j) == 256 * pow256((j - 1) as nat));
    }
}

pub proof fn lemma_be_val_bound(s: Seq<u8>)
    ensures
        be_val(s) < pow256(s.len()),
    decreases s.len(),
{
    if s.len() > 0 {
        lemma_be_val_bound(s.drop_last());
        assert(be_val(s.drop_last()) * 256 <= (pow256((s.len() - 1) as nat) - 1) * 256)
            by (nonlinear_arith)
            requires
                be_val(s.drop_last()) < pow256((s.len() - 1) as nat),
        ;
    }
}

pub proof fn lemma_le_val_bound(s: Seq<u8>)
    ensures
        le_val(s) < pow256(s.len()),
    decreases s.len(),
{
    if s.len() > 0 {
        lemma_le_val_bound(s.skip(1));
        assert(256 * le_val(s.skip(1)) <= 256 * (pow256((s.len() - 1) as nat) - 1))
            by (nonlinear_arith)
            requires
                le_val(s.skip(1)) < pow256((s.len() - 1) as nat),
        ;
    }
}

/// The `n`-byte big-endian spelling of `v`.
pub open spec fn be_bytes(v: nat, n: nat) -> Seq<u8>
    decreases n,
{
    if n == 0 {
        Seq::empty()
    } else {
        be_bytes(v / 256, (n - 1) as nat).push((v % 256) as u8)
    }
}

/// The `n`-byte little-endian spelling of `v`.
pub open spec fn le_bytes(v: nat, n: nat) -> Seq<u8>
    decreases n,
{
    if n == 0 {
        Seq::empty()
    } else {
        seq![(v % 256) as u8] + le_bytes(v / 256, (n - 1) as nat)
    }
}

/// Writing a value big-endian and reading it back is the identity, as long
/// as the value fits the width.
pub proof fn lemma_be_bytes_val(v: nat, n: nat)
    requires
        v < pow256(n),
    ensures
        be_bytes(v, n).len() == n,
        be_val(be_bytes(v, n)) == v,
    decreases n,
{
    if n > 0 {
        assert(v / 256 < pow256((n - 1) as nat)) by (nonlinear_arith)
            requires
                v < 256 * pow256((n - 1) as nat),
        ;
        lemma_be_bytes_val(v / 256, (n - 1) as nat);
        let s = be_bytes(v, n);
        assert(s.drop_last() =~= be_bytes(v / 256, (n - 1) as nat));
        assert(v / 256 * 256 + v % 256 == v);
    }
}

/// Writing a value little-endian and reading it back is the identity.
pub proof fn lemma_le_bytes_val(v: nat, n: nat)
    requires
        v < pow256(n),
    ensures
        le_bytes(v, n).len() == n,
        le_val(le_bytes(v, n)) == v,
    decreases n,
{
    if n > 0 {
        assert(v / 256 < pow256((n - 1) as nat)) by (nonlinear_arith)
            requires
                v < 256 * pow256((n - 1) as nat),
        ;
        lemma_le_bytes_val(v / 256, (n - 1) as nat);
        let s = le_bytes(v, n);
        assert(s.skip(1) =~= le_bytes(v / 256, (n - 1) as nat));
        assert(v / 256 * 256 + v % 256 == v);
    }
}

pub proof fn lemma_pow256_small()
    ensures
        pow256(1) == 0x100,
        pow256(2) == 0x1_0000,
        pow256(4) == 0x1_0000_0000,
        pow256(8) == 0x1_0000_0000_0000_0000,
{
    reveal_with_fuel(pow256, 9);
}

pub proof fn lemma_be_bytes_len(v: nat, n: nat)
    ensures
        be_bytes(v, n).len() == n,
    decreases n,
{
    if n > 0 {
        lemma_be_bytes_len(v / 256, (n - 1) as nat);
    }
}

pub proof fn lemma_le_bytes_len(v: nat, n: nat)
    ensures
        le_bytes(v, n).len() == n,
    decreases n,
{
    if n > 0 {
        lemma_le_bytes_len(v / 256, (n - 1) as nat);
    }
}

/// Append the `n`-byte big-endian spelling of `v` to `out`.
pub fn push_be_bytes(v: u64, n: usize, out: &mut Vec<u8>)
    ensures
        final(out)@ == old(out)@ + be_bytes(v as nat, n as nat),
    decreases n,
{
    if n == 0 {
        proof {
            assert(out@ =~= old(out)@ + be_bytes(v as nat, 0));
        }
    } else {
        push_be_bytes(v / 256, n - 1, out);
        out.push((v % 256) as u8);
        proof {
            assert(out@ =~= old(out)@ + be_bytes(v as nat, n as nat));
        }
    }
}

/// Append the `n`-byte little-endian spelling of `v` to `out`.
pub fn push_le_bytes(v: u64, n: usize, out: &mut Vec<u8>)
    ensures
        final(out)@ == old(out)@ + le_bytes(v as nat, n as nat),
    decreases n,
{
    if n == 0 {
        proof {
            assert(out@ =~= old(out)@ + le_bytes(v as nat, 0));
        }
    } else {
        out.push((v % 256) as u8);
        push_le_bytes(v / 256, n - 1, out);
        proof {
            assert(out@ =~= old(out)@ + le_bytes(v as nat, n as nat));
        }
    }
}

/// Two's-complement reading of an 8-bit value.
pub open spec fn sign8(b: u8) -> int {
    if b < 128 {
        b as int
    } else {
        b as int - 256
    }
}

/// Two's-complement reading of a 16-bit value.
pub open spec fn sign16(n: nat) -> int {
    if n < 0x8000 {
        n as int
    } else {
        n as int - 0x10000
    }
}

/// Two's-complement reading of a 32-bit value.
pub open spec fn sign32(n: nat) -> int {
    if n < 0x8000_0000 {
        n as int
    } else {
        n as int - 0x1_0000_0000
    }
}

/// Two's-complement reading of a 64-bit value.
pub open spec fn sign64(n: nat) -> int {
    if n < 0x8000_0000_0000_0000 {
        n as int
    } else {
        n as int - 0x1_0000_0000_0000_0000
    }
}

/// Decimal digits of `n`, most significant first.
pub open spec fn dec_digits(n: nat) -> Seq<u8>
    decreases n,
{
    if n < 10 {
        seq![(48 + n) as u8]
    } else {
        dec_digits(n / 10).push((48 + n % 10) as u8)
    }
}

/// The decimal text of an integer, with a leading minus sign if negative.
pub open spec fn dec_text(i: int) -> Seq<u8> {
    if i < 0 {
        seq![45u8] + dec_digits((-i) as nat)
    } else {
        dec_digits(i as nat)
    }
}

/// Read `n` big-endian bytes at `at` as an unsigned value.
pub fn read_be(v: &Vec<u8>, at: usize, n: usize) -> (r: u64)
    requires
        at + n <= v@.len(),
        n <= 8,
    ensures
        r == be_val(v@.subrange(at as int, at + n)),
{
    let mut acc: u64 = 0;
    let mut i: usize = 0;
    proof {
        assert(v.len() == v@.len());
        assert(v@.subrange(at as int, at as int) =~= Seq::<u8>::empty());
    }
    while i < n
        invariant
            i <= n,
            n <= 8,
            at + n <= v@.len(),
            v@.len() <= usize::MAX,
            acc == be_val(v@.subrange(at as int, at + i)),
            acc < pow256(i as nat),
        decreases n - i,
    {
        proof {
            lemma_pow256_mono(i as nat, 7);
            lemma_pow256_7();
        }
        let b = v[at + i];
        let next: u64 = acc * 256 + (b as u64);
        proof {
            let whole = v@.subrange(at as int, at + i + 1);
            assert(whole.drop_last() =~= v@.subrange(at as int, at + i));
            assert(whole.last() == v@[at + i]);
        }
        acc = next;
        i = i + 1;
    }
    acc
}

/// Read `n` little-endian bytes at `at` as an unsigned value.
pub fn read_le(v: &Vec<u8>, at: usize, n: usize) -> (r: u64)
    requires
        at + n <= v@.len(),
        n <= 8,
    ensures
        r == le_val(v@.subrange(at as int, at + n)),
{
    let mut acc: u64 = 0;
    let mut i: usize = n;
    proof {
        assert(v.len() == v@.len());
        assert(v@.subrange(at + n, at + n) =~= Seq::<u8>::empty());
    }
    while i > 0
        invariant
            i <= n,
            n <= 8,
            at + n <= v@.len(),
            v@.len() <= usize::MAX,
            acc == le_val(v@.subrange(at + i, at + n)),
            acc < pow256((n - i) as nat),
        decreases i,
    {
        proof {
            lemma_pow256_mono((n - i) as nat, 7);
            lemma_pow256_7();
        }
        let b = v[at + i - 1];
        let next: u64 = acc * 256 + (b as u64);
        proof {
            let whole = v@.subrange(at + i - 1, at + n);
            assert(whole.skip(1) =~= v@.subrange(at + i, at + n));
            assert(whole[0] == v@[at + i - 1]);
            assert(le_val(whole) == whole[0] + 256 * le_val(whole.skip(1)));
        }
        acc = next;
        i = i - 1;
    }
    acc
}

/// Append the decimal digits of `n` to `out`.
pub fn push_dec_digits(n: u64, out: &mut Vec<u8>)
    ensures
        final(out)@ == old(out)@ + dec_digits(n as nat),
    decreases n,
{
    if n < 10 {
        out.push(48 + n as u8);
        proof {
            assert(out@ =~= old(out)@ + dec_digits(n as nat));
        }
    } else {
        push_dec_digits(n / 10, out);
        out.push(48 + (n % 10) as u8);
        proof {
            assert(out@ =~= old(out)@ + dec_digits(n as nat));
        }
    }
}

/// The decimal text of a signed 64-bit integer.
pub fn dec_text_i64(i: i64) -> (r: Vec<u8>)
    ensures
        r@ == dec_text(i as int),
{
    let mut out: Vec<u8> = Vec::new();
    if i < 0 {
        out.push(45);
        let m: u64 = ((-(i + 1)) as u64) + 1;
        proof {
            assert(m == -(i as int));
        }
        push_dec_digits(m, &mut out);
        proof {
            assert(out@ =~= seq![45u8] + dec_digits(m as nat));
        }
    } else {
        push_dec_digits(i as u64, &mut out);
        proof {
            assert(out@ =~= Seq::<u8>::empty() + dec_digits(i as nat));
            assert(Seq::<u8>::empty() + dec_digits(i as nat) =~= dec_digits(i as nat));
        }
    }
    out
}

} // verus!
