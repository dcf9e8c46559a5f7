//! Bit-level layout of the packed chunk index stream.
//!
//! The stream is a sequence of fixed-width entries. Overall bit order is
//! least-significant-bit first: bit `t` of the stream lives in byte `t / 8`
//! at weight `2^(t % 8)`. Each individual entry, however, is stored
//! big-endian within its own `w`-bit slice: the first bit of the slice is
//! the entry's most significant bit.
//!
//! Everything here is phrased with division and remainder by powers of two,
//! so "bit `k` of `v`" is `(v / 2^k) % 2`.

use vstd::prelude::*;
use vstd::arithmetic::power2::*;
use vstd::arithmetic::div_mod::*;

verus! {

pub open spec fn bit01(b: bool) -> int {
    if b {
        1
    } else {
        0
    }
}

/// The value of a bit sequence read least-significant-bit first:
/// `bits[k]` has weight `2^k`.
pub open spec fn le_value(bits: Seq<bool>) -> nat
    decreases bits.len(),
{
    if bits.len() == 0 {
        0
    } else {
        (bit01(bits[0]) + 2 * le_value(bits.drop_first())) as nat
    }
}

/// The value of a bit sequence read big-endian: `bits[0]` is the most
/// significant bit.
pub open spec fn be_value(bits: Seq<bool>) -> nat
    decreases bits.len(),
{
    if bits.len() == 0 {
        0
    } else {
        (2 * be_value(bits.drop_last()) + bit01(bits.last())) as nat
    }
}

/// Bit `j` (counting from the most significant) of the `w`-bit value `e`.
pub open spec fn nth_be_bit(e: int, w: nat, j: int) -> bool {
    (e / pow2((w - 1 - j) as nat) as int) % 2 == 1
}

/// Bit `t` of a byte sequence in least-significant-bit-first order.
pub open spec fn bit_in_bytes(bytes: Seq<u8>, t: int) -> bool {
    (bytes[t / 8] as int / pow2((t % 8) as nat) as int) % 2 == 1
}

pub proof fn lemma_le_value_bound(bits: Seq<bool>)
    ensures
        le_value(bits) < pow2(bits.len()),
    decreases bits.len(),
{
    if bits.len() == 0 {
        lemma2_to64();
    } else {
        lemma_le_value_bound(bits.drop_first());
        lemma_pow2_unfold(bits.len());
    }
}

pub proof fn lemma_be_value_bound(bits: Seq<bool>)
    ensures
        be_value(bits) < pow2(bits.len()),
    decreases bits.len(),
{
    if bits.len() == 0 {
        lemma2_to64();
    } else {
        lemma_be_value_bound(bits.drop_last());
        lemma_pow2_unfold(bits.len());
    }
}

/// Appending a bit at the end of a little-endian sequence adds it at weight
/// `2^len`.
pub proof fn lemma_le_value_push(s: Seq<bool>, c: bool)
    ensures
        le_value(s.push(c)) == le_value(s) + bit01(c) * pow2(s.len()),
    decreases s.len(),
{
    if s.len() == 0 {
        lemma2_to64();
        assert(s.push(c).drop_first() =~= Seq::<bool>::empty());
        assert(s.push(c)[0] == c);
        assert(bit01(c) * pow2(0) == bit01(c));
    } else {
        assert(s.push(c).drop_first() =~= s.drop_first().push(c));
        lemma_le_value_push(s.drop_first(), c);
        lemma_pow2_unfold(s.len());
        if c {
            assert(bit01(c) * pow2(s.drop_first().len()) == pow2((s.len() - 1) as nat));
            assert(bit01(c) * pow2(s.len()) == pow2(s.len()));
        } else {
            assert(bit01(c) * pow2(s.drop_first().len()) == 0);
            assert(bit01(c) * pow2(s.len()) == 0);
        }
        assert(le_value(s.push(c)) == bit01(s.push(c)[0]) + 2 * le_value(s.push(c).drop_first()));
        assert(s.push(c)[0] == s[0]);
        assert(le_value(s.push(c).drop_first()) == le_value(s.drop_first().push(c)));
        assert(le_value(s) == bit01(s[0]) + 2 * le_value(s.drop_first()));
    }
}

/// Appending a bit at the end of a big-endian sequence doubles the value and
/// adds the bit.
pub proof fn lemma_be_value_push(s: Seq<bool>, c: bool)
    ensures
        be_value(s.push(c)) == 2 * be_value(s) + bit01(c),
{
    assert(s.push(c).drop_last() =~= s);
}

/// Reading bit `k` back out of a little-endian value.
pub proof fn lemma_le_value_bit(bits: Seq<bool>, k: int)
    requires
        0 <= k < bits.len(),
    ensures
        (le_value(bits) as int / pow2(k as nat) as int) % 2 == bit01(bits[k]),
    decreases k,
{
    let x = le_value(bits) as int;
    let rest = le_value(bits.drop_first()) as int;
    if k == 0 {
        lemma2_to64();
        lemma_div_basics(x);
        lemma_fundamental_div_mod_converse(x, 2, rest, bit01(bits[0]));
    } else {
        lemma_pow2_pos((k - 1) as nat);
        lemma_fundamental_div_mod_converse(x, 2, rest, bit01(bits[0]));
        assert(x / 2 == rest);
        lemma_pow2_adds(1, (k - 1) as nat);
        lemma_pow2_unfold(1nat);
        lemma2_to64();
        assert(pow2(k as nat) == 2 * pow2((k - 1) as nat));
        lemma_div_denominator(x, 2, pow2((k - 1) as nat) as int);
        assert(x / pow2(k as nat) as int == rest / pow2((k - 1) as nat) as int);
        lemma_le_value_bit(bits.drop_first(), k - 1);
    }
}

/// Reading bit `j` (from the most significant end) back out of a big-endian
/// value.
pub proof fn lemma_be_value_bit(bits: Seq<bool>, j: int)
    requires
        0 <= j < bits.len(),
    ensures
        nth_be_bit(be_value(bits) as int, bits.len(), j) == bits[j],
    decreases bits.len(),
{
    let n = bits.len() as int;
    let x = be_value(bits) as int;
    let front = be_value(bits.drop_last()) as int;
    lemma_fundamental_div_mod_converse(x, 2, front, bit01(bits.last()));
    if j == n - 1 {
        lemma2_to64();
        lemma_div_basics(x);
        assert(x / pow2(0) as int == x);
    } else {
        lemma_pow2_pos((n - 2 - j) as nat);
        lemma_pow2_adds(1, (n - 2 - j) as nat);
        lemma_pow2_unfold(1nat);
        lemma2_to64();
        assert(pow2((n - 1 - j) as nat) == 2 * pow2((n - 2 - j) as nat));
        lemma_div_denominator(x, 2, pow2((n - 2 - j) as nat) as int);
        assert(x / pow2((n - 1 - j) as nat) as int == front / pow2((n - 2 - j) as nat) as int);
        lemma_be_value_bit(bits.drop_last(), j);
    }
}

/// A `w`-bit value is recovered exactly from its big-endian bits.
pub proof fn lemma_be_reconstruct(w: nat, e: int)
    requires
        0 <= e < pow2(w),
    ensures
        be_value(Seq::new(w, |j: int| nth_be_bit(e, w, j))) == e,
    decreases w,
{
    let s = Seq::new(w, |j: int| nth_be_bit(e, w, j));
    if w == 0 {
        lemma2_to64();
    } else {
        lemma_pow2_pos((w - 1) as nat);
        lemma_pow2_unfold(w);
        lemma_fundamental_div_mod(e, 2);
        lemma_div_is_ordered(e, pow2(w) as int - 1, 2);
        assert(e / 2 < pow2((w - 1) as nat)) by {
            assert((pow2(w) as int - 1) / 2 == pow2((w - 1) as nat) as int - 1) by {
                lemma_fundamental_div_mod_converse(
                    pow2(w) as int - 1,
                    2,
                    pow2((w - 1) as nat) as int - 1,
                    1,
                );
            }
        }
        assert(s.drop_last() =~= Seq::new((w - 1) as nat, |j: int| nth_be_bit(e / 2, (w - 1) as nat, j)))
            by {
            assert forall|j: int| 0 <= j < w - 1 implies nth_be_bit(e, w, j) == nth_be_bit(
                e / 2,
                (w - 1) as nat,
                j,
            ) by {
                lemma_pow2_pos((w - 2 - j) as nat);
                lemma_pow2_adds(1, (w - 2 - j) as nat);
                lemma_pow2_unfold(1nat);
                lemma2_to64();
                assert(pow2((w - 1 - j) as nat) == 2 * pow2((w - 2 - j) as nat));
                lemma_div_denominator(e, 2, pow2((w - 2 - j) as nat) as int);
            }
        }
        lemma_be_reconstruct((w - 1) as nat, e / 2);
        assert(s.last() == nth_be_bit(e, w, w - 1));
        lemma2_to64();
        lemma_div_basics(e);
        assert(e / pow2(0) as int == e);
        assert(be_value(s) == 2 * be_value(s.drop_last()) + bit01(s.last()));
        assert(be_value(s) == 2 * (e / 2) + e % 2);
    }
}

/// Number of bits per palette index for a palette of `n` entries: the
/// base-2 logarithm of the next power of two of `n`, so `0` for a
/// single-entry palette.
pub open spec fn spec_bits_for(n: nat) -> nat
    decreases n,
{
    if n <= 1 {
        0
    } else {
        1 + spec_bits_for(((n + 1) / 2) as nat)
    }
}

/// Every index below `n` fits in `spec_bits_for(n)` bits.
pub proof fn lemma_bits_for_covers(n: nat)
    ensures
        n <= pow2(spec_bits_for(n)),
    decreases n,
{
    if n <= 1 {
        lemma2_to64();
    } else {
        let m = ((n + 1) / 2) as nat;
        lemma_bits_for_covers(m);
        lemma_fundamental_div_mod(n as int + 1, 2);
        lemma_mod_bound(n as int + 1, 2);
        lemma_pow2_unfold(spec_bits_for(n));
    }
}

pub proof fn lemma_bits_for_monotone(a: nat, b: nat)
    requires
        a <= b,
    ensures
        spec_bits_for(a) <= spec_bits_for(b),
    decreases b,
{
    if a <= 1 {
    } else {
        lemma_div_is_ordered(a as int + 1, b as int + 1, 2);
        lemma_bits_for_monotone(((a + 1) / 2) as nat, ((b + 1) / 2) as nat);
    }
}

/// Bits per entry for a palette of `n` entries.
pub fn bits_for(n: usize) -> (w: usize)
    requires
        n <= 4096,
    ensures
        w == spec_bits_for(n as nat),
        w <= 12,
    decreases n,
{
    if n <= 1 {
        0
    } else {
        let r = 1 + bits_for((n + 1) / 2);
        proof {
            lemma_bits_for_monotone(n as nat, 4096);
            assert(spec_bits_for(4096) == 12) by {
                reveal_with_fuel(spec_bits_for, 14);
            }
        }
        r
    }
}

/// `2^k` as a machine word.
pub fn pow2_u16(k: usize) -> (r: u16)
    requires
        k <= 15,
    ensures
        r == pow2(k as nat),
{
    let mut r: u16 = 1;
    let mut i: usize = 0;
    proof {
        lemma2_to64();
    }
    while i < k
        invariant
            i <= k <= 15,
            r == pow2(i as nat),
        decreases k - i,
    {
        proof {
            lemma_pow2_strictly_increases(i as nat, 15);
            lemma2_to64();
            lemma_pow2_unfold((i + 1) as nat);
        }
        r = r * 2;
        i = i + 1;
    }
    r
}

/// Packs fixed-width entries into a bit stream: entry `i` occupies bits
/// `i*w .. (i+1)*w`, most significant bit first.
pub fn pack_entries(entries: &Vec<u16>, w: usize) -> (bits: Vec<bool>)
    requires
        w <= 15,
        forall|i: int| 0 <= i < entries@.len() ==> (entries@[i] as nat) < pow2(w as nat),
    ensures
        bits@.len() == entries@.len() * w,
        forall|t: int|
            0 <= t < bits@.len() ==> bits@[t] == nth_be_bit(
                entries@[t / (w as int)] as int,
                w as nat,
                t % (w as int),
            ),
{
    let n = entries.len();
    let mut bits: Vec<bool> = Vec::new();
    let mut i: usize = 0;
    while i < n
        invariant
            i <= n,
            n == entries@.len(),
            w <= 15,
            forall|x: int| 0 <= x < entries@.len() ==> (entries@[x] as nat) < pow2(w as nat),
            bits@.len() == i * w,
            forall|t: int|
                0 <= t < bits@.len() ==> bits@[t] == nth_be_bit(
                    entries@[t / (w as int)] as int,
                    w as nat,
                    t % (w as int),
                ),
        decreases n - i,
    {
        let e = entries[i];
        let mut j: usize = 0;
        while j < w
            invariant
                j <= w,
                i < n,
                n == entries@.len(),
                w <= 15,
                e == entries@[i as int],
                forall|x: int| 0 <= x < entries@.len() ==> (entries@[x] as nat) < pow2(w as nat),
                bits@.len() == i * w + j,
                forall|t: int|
                    0 <= t < bits@.len() ==> bits@[t] == nth_be_bit(
                        entries@[t / (w as int)] as int,
                        w as nat,
                        t % (w as int),
                    ),
            decreases w - j,
        {
            let p = pow2_u16(w - 1 - j);
            proof {
                lemma_pow2_pos((w - 1 - j) as nat);
                lemma_fundamental_div_mod_converse(
                    (i * w + j) as int,
                    w as int,
                    i as int,
                    j as int,
                );
            }
            let b = (e / p) % 2 == 1;
            bits.push(b);
            j = j + 1;
        }
        proof {
            assert((i + 1) * w == i * w + w) by (nonlinear_arith);
        }
        i = i + 1;
    }
    bits
}

/// Packs a bit stream into bytes, least-significant-bit first within each
/// byte.
pub fn pack_bytes(bits: &Vec<bool>) -> (bytes: Vec<u8>)
    requires
        bits@.len() % 8 == 0,
    ensures
        bytes@.len() * 8 == bits@.len(),
        forall|x: int|
            0 <= x < bytes@.len() ==> bytes@[x] == le_value(
                bits@.subrange(8 * x, 8 * x + 8),
            ),
        forall|t: int| 0 <= t < bits@.len() ==> bit_in_bytes(bytes@, t) == bits@[t],
{
    let total = bits.len();
    let nbytes = total / 8;
    proof {
        lemma_fundamental_div_mod(total as int, 8);
    }
    let mut bytes: Vec<u8> = Vec::new();
    let mut b: usize = 0;
    while b < nbytes
        invariant
            b <= nbytes,
            total == bits@.len(),
            nbytes * 8 == total,
            bytes@.len() == b,
            forall|x: int|
                0 <= x < b ==> bytes@[x] == le_value(bits@.subrange(8 * x, 8 * x + 8)),
        decreases nbytes - b,
    {
        let mut acc: u8 = 0;
        let mut k: usize = 0;
        proof {
            lemma2_to64();
            assert(bits@.subrange(8 * b as int, 8 * b as int) =~= Seq::<bool>::empty());
        }
        while k < 8
            invariant
                k <= 8,
                b < nbytes,
                total == bits@.len(),
                nbytes * 8 == total,
                acc == le_value(bits@.subrange(8 * b as int, 8 * b as int + k as int)),
                acc < pow2(k as nat),
            decreases 8 - k,
        {
            let t: usize = 8 * b + k;
            proof {
                lemma_le_value_bound(bits@.subrange(8 * b as int, 8 * b as int + k as int));
                lemma_pow2_strictly_increases(k as nat, 8);
                lemma2_to64();
                lemma_pow2_unfold((k + 1) as nat);
                assert(bits@.subrange(8 * b as int, 8 * b as int + k as int + 1) =~= bits@
                    .subrange(8 * b as int, 8 * b as int + k as int).push(bits@[t as int]));
                lemma_le_value_push(
                    bits@.subrange(8 * b as int, 8 * b as int + k as int),
                    bits@[t as int],
                );
            }
            if bits[t] {
                let p = pow2_u16(k);
                acc = acc + (p as u8);
            }
            k = k + 1;
        }
        bytes.push(acc);
        b = b + 1;
    }
    proof {
        assert forall|t: int| 0 <= t < bits@.len() implies bit_in_bytes(bytes@, t) == bits@[t] by {
            let x = t / 8;
            let r = t % 8;
            lemma_fundamental_div_mod(t, 8);
            lemma_mod_bound(t, 8);
            lemma_div_is_ordered(t, bits@.len() as int - 1, 8);
            lemma_fundamental_div_mod_converse(
                bits@.len() as int - 1,
                8,
                bytes@.len() as int - 1,
                7,
            );
            lemma_le_value_bit(bits@.subrange(8 * x, 8 * x + 8), r);
        }
    }
    bytes
}

/// Reads a bit stream back out of bytes.
pub fn unpack_bytes(bytes: &Vec<u8>, nbits: usize) -> (bits: Vec<bool>)
    requires
        nbits == bytes@.len() * 8,
    ensures
        bits@.len() == nbits,
        forall|t: int| 0 <= t < nbits ==> bits@[t] == bit_in_bytes(bytes@, t),
{
    let mut bits: Vec<bool> = Vec::new();
    let mut t: usize = 0;
    while t < nbits
        invariant
            t <= nbits,
            nbits == bytes@.len() * 8,
            bits@.len() == t,
            forall|x: int| 0 <= x < t ==> bits@[x] == bit_in_bytes(bytes@, x),
        decreases nbits - t,
    {
        proof {
            lemma_div_is_ordered(t as int, nbits as int - 1, 8);
            lemma_fundamental_div_mod_converse(
                nbits as int - 1,
                8,
                bytes@.len() as int - 1,
                7,
            );
            lemma_mod_bound(t as int, 8);
            lemma_pow2_pos((t % 8) as nat);
            lemma_pow2_strictly_increases((t % 8) as nat, 8);
            lemma2_to64();
        }
        let byte = bytes[t / 8];
        let p = pow2_u16(t % 8);
        let bit = (byte / (p as u8)) % 2 == 1;
        bits.push(bit);
        t = t + 1;
    }
    bits
}

/// Reads fixed-width big-endian entries back out of a bit stream.
pub fn unpack_entries(bits: &Vec<bool>, w: usize, count: usize) -> (entries: Vec<u16>)
    requires
        1 <= w <= 15,
        bits@.len() == count * w,
    ensures
        entries@.len() == count,
        forall|i: int|
            0 <= i < count ==> entries@[i] == be_value(
                bits@.subrange(i * w, i * w + w),
            ),
        forall|i: int| 0 <= i < count ==> (entries@[i] as nat) < pow2(w as nat),
{
    let total = bits.len();
    let mut entries: Vec<u16> = Vec::new();
    let mut i: usize = 0;
    while i < count
        invariant
            i <= count,
            1 <= w <= 15,
            total == bits@.len(),
            bits@.len() == count * w,
            entries@.len() == i,
            forall|x: int|
                0 <= x < i ==> entries@[x] == be_value(bits@.subrange(x * w, x * w + w)),
            forall|x: int| 0 <= x < i ==> (entries@[x] as nat) < pow2(w as nat),
        decreases count - i,
    {
        proof {
            assert(i * w + w <= count * w) by (nonlinear_arith)
                requires
                    i < count,
                    0 <= w,
            ;
        }
        let base: usize = i * w;
        proof {
            assert(bits@.subrange(base as int, base as int) =~= Seq::<bool>::empty());
            lemma2_to64();
        }
        let mut acc: u16 = 0;
        let mut j: usize = 0;
        while j < w
            invariant
                j <= w,
                i < count,
                1 <= w <= 15,
                base == i * w,
                base + w <= count * w,
                total == bits@.len(),
                bits@.len() == count * w,
                acc == be_value(bits@.subrange(base as int, base as int + j as int)),
                acc < pow2(j as nat),
            decreases w - j,
        {
            proof {
                lemma_be_value_bound(bits@.subrange(base as int, base as int + j as int));
                lemma_pow2_strictly_increases(j as nat, 15);
                lemma2_to64();
                lemma_pow2_unfold((j + 1) as nat);
                assert(bits@.subrange(base as int, base as int + j as int + 1) =~= bits@
                    .subrange(base as int, base as int + j as int).push(
                    bits@[base as int + j as int],
                ));
                lemma_be_value_push(
                    bits@.subrange(base as int, base as int + j as int),
                    bits@[base as int + j as int],
                );
            }
            let bit: u16 = if bits[base + j] {
                1
            } else {
                0
            };
            acc = 2 * acc + bit;
            j = j + 1;
        }
        entries.push(acc);
        i = i + 1;
        proof {
            assert(i * w == (i - 1) * w + w) by (nonlinear_arith);
        }
    }
    entries
}

} // verus!
