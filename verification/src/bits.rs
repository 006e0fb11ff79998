//! Little-endian bit and byte sequences and the integers they denote.

use vstd::prelude::*;
use vstd::arithmetic::power2::*;
use vstd::arithmetic::div_mod::*;
use vstd::arithmetic::mul::*;
use vstd::bits::*;

verus! {

/// Bit `i` (counting from the least significant bit) of `v`.
pub open spec fn bit_of(v: nat, i: nat) -> bool {
    (v / pow2(i)) % 2 == 1
}

/// The `n` least significant bits of `v`, least significant first.
pub open spec fn nat_bits(v: nat, n: nat) -> Seq<bool> {
    Seq::new(n, |i: int| bit_of(v, i as nat))
}

/// The integer whose little-endian binary digits are `b` (`b[0]` is the least significant bit).
pub open spec fn bits_value(b: Seq<bool>) -> nat
    decreases b.len(),
{
    if b.len() == 0 {
        0
    } else {
        bits_value(b.drop_last()) + if b.last() {
            pow2((b.len() - 1) as nat)
        } else {
            0
        }
    }
}

/// The value of `b` is below `2^len`.
pub proof fn lemma_bits_value_bound(b: Seq<bool>)
    ensures
        bits_value(b) < pow2(b.len()),
    decreases b.len(),
{
    if b.len() > 0 {
        lemma_bits_value_bound(b.drop_last());
        lemma_pow2_unfold(b.len());
    } else {
        lemma2_to64();
    }
}

/// Adding a multiple of `2^k` to a number below `2^k` keeps its low `k` bits,
/// and the quotient by `2^k` is the multiplier.
pub proof fn lemma_bit_split(a: nat, d: nat, k: nat)
    requires
        a < pow2(k),
    ensures
        forall|j: nat| j < k ==> #[trigger] bit_of(a + d * pow2(k), j) == bit_of(a, j),
        (a + d * pow2(k)) / pow2(k) == d,
{
    lemma_pow2_pos(k);
    assert((a + d * pow2(k)) / pow2(k) == d) by {
        lemma_hoist_over_denominator(a as int, d as int, pow2(k));
        lemma_basic_div(a as int, pow2(k) as int);
    }
    assert forall|j: nat| j < k implies #[trigger] bit_of(a + d * pow2(k), j) == bit_of(a, j) by {
        let e = (k - j) as nat;
        lemma_pow2_adds(j, e);
        lemma_pow2_pos(j);
        lemma_pow2_unfold(e);
        let q = d * pow2((e - 1) as nat);
        assert(d * pow2(k) == (2 * q) * pow2(j)) by {
            lemma_mul_is_associative(d as int, pow2(e) as int, pow2(j) as int);
            lemma_mul_is_associative(d as int, 2, pow2((e - 1) as nat) as int);
            lemma_mul_is_commutative(d as int, 2);
            lemma_mul_is_associative(2, d as int, pow2((e - 1) as nat) as int);
            lemma_mul_is_commutative(pow2(j) as int, pow2(e) as int);
        }
        lemma_hoist_over_denominator(a as int, (2 * q) as int, pow2(j));
        lemma_mod_multiples_vanish(q as int, (a / pow2(j)) as int, 2);
    }
}

/// Bit `j` of the value of `s` is `s[j]`, and every bit above `s` is clear.
pub proof fn lemma_bits_value_bit(s: Seq<bool>, j: nat)
    ensures
        bit_of(bits_value(s), j) == (j < s.len() && s[j as int]),
    decreases s.len(),
{
    let v = bits_value(s);
    lemma_bits_value_bound(s);
    if j >= s.len() {
        lemma_pow2_pos(j);
        if j > s.len() {
            lemma_pow2_strictly_increases(s.len(), j);
        }
        lemma_basic_div(v as int, pow2(j) as int);
    } else {
        let t = s.drop_last();
        let k = t.len();
        let d: nat = if s.last() { 1 } else { 0 };
        lemma_bits_value_bound(t);
        assert(v == bits_value(t) + d * pow2(k));
        lemma_bit_split(bits_value(t), d, k);
        if j < k {
            lemma_bits_value_bit(t, j);
            assert(bit_of(v, j) == bit_of(bits_value(t), j));
        } else {
            assert(j == k);
        }
    }
}

/// The bits of the value of `s` are `s`.
pub proof fn lemma_nat_bits_of_value(s: Seq<bool>)
    ensures
        nat_bits(bits_value(s), s.len()) == s,
{
    assert forall|i: int| 0 <= i < s.len() implies #[trigger] nat_bits(bits_value(s), s.len())[i]
        == s[i] by {
        lemma_bits_value_bit(s, i as nat);
    }
    assert(nat_bits(bits_value(s), s.len()) =~= s);
}

/// The value of the `n` low bits of `v` is `v` modulo `2^n`.
pub proof fn lemma_value_of_nat_bits(v: nat, n: nat)
    ensures
        bits_value(nat_bits(v, n)) == v % pow2(n),
    decreases n,
{
    lemma_pow2_pos(n);
    if n == 0 {
        lemma2_to64();
    } else {
        let m = (n - 1) as nat;
        assert(nat_bits(v, n).drop_last() =~= nat_bits(v, m));
        lemma_value_of_nat_bits(v, m);
        lemma_pow2_pos(m);
        lemma_pow2_unfold(n);
        // v % 2^n == 2^m * ((v / 2^m) % 2) + v % 2^m
        lemma_mod_breakdown(v as int, pow2(m) as int, 2);
        lemma_mul_is_commutative(pow2(m) as int, 2);
        if bit_of(v, m) {
            assert((v / pow2(m)) % 2 == 1);
        } else {
            assert((v / pow2(m)) % 2 == 0);
        }
    }
}

/// The value of a concatenation: `p` in the low bits, `q` above it.
pub proof fn lemma_bits_value_concat(p: Seq<bool>, q: Seq<bool>)
    ensures
        bits_value(p + q) == bits_value(p) + pow2(p.len()) * bits_value(q),
    decreases q.len(),
{
    if q.len() == 0 {
        assert(p + q =~= p);
        assert(pow2(p.len()) * bits_value(q) == 0);
    } else {
        let q0 = q.drop_last();
        lemma_bits_value_concat(p, q0);
        assert((p + q).drop_last() =~= p + q0);
        assert((p + q).last() == q.last());
        lemma_pow2_adds(p.len(), q0.len());
        let l: nat = if q.last() { 1 } else { 0 };
        assert(bits_value(q) == bits_value(q0) + l * pow2(q0.len()));
        assert(bits_value(p + q) == bits_value(p + q0) + l * pow2(p.len() + q0.len()));
        assert(pow2(p.len()) * bits_value(q) == pow2(p.len()) * bits_value(q0) + l * pow2(p.len()
            + q0.len())) by (nonlinear_arith)
            requires
                bits_value(q) == bits_value(q0) + l * pow2(q0.len()),
                pow2(p.len() + q0.len()) == pow2(p.len()) * pow2(q0.len()),
        ;
    }
}

/// The integer whose little-endian base-256 digits are `b`.
pub open spec fn bytes_value(b: Seq<u8>) -> nat
    decreases b.len(),
{
    if b.len() == 0 {
        0
    } else {
        bytes_value(b.drop_last()) + (b.last() as nat) * pow2((8 * (b.len() - 1)) as nat)
    }
}

/// The little-endian bits of each byte of `b`, in byte order.
pub open spec fn bytes_to_bits(b: Seq<u8>) -> Seq<bool>
    decreases b.len(),
{
    if b.len() == 0 {
        Seq::empty()
    } else {
        bytes_to_bits(b.drop_last()) + nat_bits(b.last() as nat, 8)
    }
}

/// `bytes_to_bits(b)` has eight bits per byte, and bit `8k + i` is bit `i` of `b[k]`.
pub proof fn lemma_bytes_to_bits_index(b: Seq<u8>)
    ensures
        bytes_to_bits(b).len() == 8 * b.len(),
        forall|k: int, i: int|
            0 <= k < b.len() && 0 <= i < 8 ==> #[trigger] bytes_to_bits(b)[8 * k + i] == bit_of(
                #[trigger] b[k] as nat,
                i as nat,
            ),
    decreases b.len(),
{
    if b.len() > 0 {
        let b0 = b.drop_last();
        lemma_bytes_to_bits_index(b0);
        assert forall|k: int, i: int|
            0 <= k < b.len() && 0 <= i < 8 implies #[trigger] bytes_to_bits(b)[8 * k + i]
            == bit_of(#[trigger] b[k] as nat, i as nat) by {
            if k < b0.len() {
                assert(b0[k] == b[k]);
                assert(bytes_to_bits(b)[8 * k + i] == bytes_to_bits(b0)[8 * k + i]);
            } else {
                assert(bytes_to_bits(b)[8 * k + i] == nat_bits(b.last() as nat, 8)[i]);
            }
        }
    }
}

/// Bit `j` of `bytes_to_bits(b)` is bit `j % 8` of byte `j / 8`.
pub proof fn lemma_bytes_to_bits_at(b: Seq<u8>)
    ensures
        bytes_to_bits(b).len() == 8 * b.len(),
        forall|j: int|
            0 <= j < 8 * b.len() ==> #[trigger] bytes_to_bits(b)[j] == bit_of(
                b[j / 8] as nat,
                (j % 8) as nat,
            ),
{
    lemma_bytes_to_bits_index(b);
    assert forall|j: int| 0 <= j < 8 * b.len() implies #[trigger] bytes_to_bits(b)[j] == bit_of(
        b[j / 8] as nat,
        (j % 8) as nat,
    ) by {
        let k = j / 8;
        let i = j % 8;
        assert(j == 8 * k + i);
        assert(bytes_to_bits(b)[8 * k + i] == bit_of(b[k] as nat, i as nat));
    }
}

/// The bits of the bytes of `b` denote the same integer as `b`.
pub proof fn lemma_bytes_to_bits_value(b: Seq<u8>)
    ensures
        bits_value(bytes_to_bits(b)) == bytes_value(b),
        bytes_to_bits(b).len() == 8 * b.len(),
    decreases b.len(),
{
    lemma_bytes_to_bits_index(b);
    if b.len() > 0 {
        let b0 = b.drop_last();
        lemma_bytes_to_bits_value(b0);
        lemma_bits_value_concat(bytes_to_bits(b0), nat_bits(b.last() as nat, 8));
        lemma_value_of_nat_bits(b.last() as nat, 8);
        lemma2_to64();
        vstd::arithmetic::div_mod::lemma_small_mod(b.last() as nat, 256);
        vstd::arithmetic::mul::lemma_mul_is_commutative(
            pow2((8 * b0.len()) as nat) as int,
            b.last() as int,
        );
    }
}

/// The value of a byte concatenation: `p` in the low bytes, `q` above it.
pub proof fn lemma_bytes_value_concat(p: Seq<u8>, q: Seq<u8>)
    ensures
        bytes_value(p + q) == bytes_value(p) + pow2(8 * p.len()) * bytes_value(q),
{
    lemma_bytes_to_bits_value(p);
    lemma_bytes_to_bits_value(q);
    lemma_bytes_to_bits_value(p + q);
    lemma_bytes_to_bits_concat(p, q);
    lemma_bits_value_concat(bytes_to_bits(p), bytes_to_bits(q));
}

/// The bits of a byte concatenation are the concatenation of the bits.
pub proof fn lemma_bytes_to_bits_concat(p: Seq<u8>, q: Seq<u8>)
    ensures
        bytes_to_bits(p + q) == bytes_to_bits(p) + bytes_to_bits(q),
    decreases q.len(),
{
    if q.len() == 0 {
        assert(p + q =~= p);
        assert(bytes_to_bits(p) + bytes_to_bits(q) =~= bytes_to_bits(p));
    } else {
        let q0 = q.drop_last();
        lemma_bytes_to_bits_concat(p, q0);
        assert((p + q).drop_last() =~= p + q0);
        assert(bytes_to_bits(p + q) =~= bytes_to_bits(p) + bytes_to_bits(q));
    }
}

/// A byte string of length `n` denotes a number below `2^(8n)`.
pub proof fn lemma_bytes_value_bound(b: Seq<u8>)
    ensures
        bytes_value(b) < pow2(8 * b.len()),
{
    lemma_bytes_to_bits_value(b);
    lemma_bits_value_bound(bytes_to_bits(b));
}

/// Byte strings of one length that denote the same number are equal.
pub proof fn lemma_bytes_value_injective(a: Seq<u8>, b: Seq<u8>)
    requires
        a.len() == b.len(),
        bytes_value(a) == bytes_value(b),
    ensures
        a == b,
{
    lemma_bytes_to_bits_value(a);
    lemma_bytes_to_bits_value(b);
    lemma_nat_bits_of_value(bytes_to_bits(a));
    lemma_nat_bits_of_value(bytes_to_bits(b));
    lemma_bytes_to_bits_index(a);
    lemma_bytes_to_bits_index(b);
    assert forall|k: int| 0 <= k < a.len() implies a[k] == b[k] by {
        assert forall|i: nat| i < 8 implies bit_of(a[k] as nat, i) == bit_of(b[k] as nat, i) by {
            assert(bytes_to_bits(a)[8 * k + i] == bytes_to_bits(b)[8 * k + i]);
        }
        lemma_byte_from_bits(a[k], b[k]);
    }
    assert(a =~= b);
}

/// Two bytes with the same eight bits are equal.
pub proof fn lemma_byte_from_bits(x: u8, y: u8)
    requires
        forall|i: nat| i < 8 ==> bit_of(x as nat, i) == bit_of(y as nat, i),
    ensures
        x == y,
{
    assert(nat_bits(x as nat, 8) =~= nat_bits(y as nat, 8)) by {
        assert forall|i: int| 0 <= i < 8 implies nat_bits(x as nat, 8)[i] == nat_bits(
            y as nat,
            8,
        )[i] by {
            assert(bit_of(x as nat, i as nat) == bit_of(y as nat, i as nat));
        }
    }
    lemma_value_of_nat_bits(x as nat, 8);
    lemma_value_of_nat_bits(y as nat, 8);
    lemma2_to64();
    vstd::arithmetic::div_mod::lemma_small_mod(x as nat, 256);
    vstd::arithmetic::div_mod::lemma_small_mod(y as nat, 256);
}

/// Byte `k` of `a`.
pub open spec fn byte_at(a: Seq<u8>, k: usize) -> u8 {
    a[k as int]
}

/// `a` and `b` agree on their first `n` bytes.
pub open spec fn bytes_agree(a: Seq<u8>, b: Seq<u8>, n: usize) -> bool {
    forall|j: usize| j < n ==> #[trigger] byte_at(a, j) == byte_at(b, j)
}

/// Byte strings of length `n` that agree on their first `n` bytes are equal.
pub proof fn lemma_agree_all_eq(a: Seq<u8>, b: Seq<u8>, n: usize)
    requires
        a.len() == n,
        b.len() == n,
        bytes_agree(a, b, n),
    ensures
        a == b,
{
    assert forall|i: int| 0 <= i < n implies a[i] == b[i] by {
        assert(byte_at(a, i as usize) == byte_at(b, i as usize));
    }
    assert(a =~= b);
}

/// Returns the `num_bits` least significant bits of `value`, least significant first.
pub fn i2lebsp(value: u64, num_bits: usize) -> (bits: Vec<bool>)
    requires
        num_bits <= 64,
    ensures
        bits@ == nat_bits(value as nat, num_bits as nat),
{
    let mut bits: Vec<bool> = Vec::new();
    let mut i: usize = 0;
    while i < num_bits
        invariant
            i <= num_bits <= 64,
            bits@ == nat_bits(value as nat, i as nat),
        decreases num_bits - i,
    {
        let shifted = value >> (i as u64);
        proof {
            lemma_u64_shr_is_div(value, i as u64);
            assert((shifted & 1) == shifted % 2) by (bit_vector);
        }
        bits.push(shifted & 1 == 1);
        i += 1;
        assert(bits@ =~= nat_bits(value as nat, i as nat));
    }
    bits
}

/// Returns the number whose little-endian bits are `bits`.
pub fn lebs2ip(bits: &[bool]) -> (value: u64)
    requires
        bits@.len() <= 64,
    ensures
        value == bits_value(bits@),
{
    let mut acc: u64 = 0;
    let mut i: usize = 0;
    while i < bits.len()
        invariant
            i <= bits@.len() <= 64,
            acc == bits_value(bits@.take(i as int)),
        decreases bits@.len() - i,
    {
        proof {
            assert(bits@.take(i + 1).drop_last() =~= bits@.take(i as int));
            lemma_bits_value_bound(bits@.take(i + 1));
            lemma_u64_pow2_no_overflow(i as nat);
            if i + 1 < 64 {
                lemma_u64_pow2_no_overflow((i + 1) as nat);
            } else {
                lemma2_to64_rest();
            }
        }
        if bits[i] {
            proof {
                lemma_u64_shl_is_mul(1, i as u64);
            }
            acc = acc + (1u64 << (i as u64));
        }
        i += 1;
    }
    assert(bits@.take(bits@.len() as int) =~= bits@);
    acc
}

/// The `n` low bytes of `v`, least significant first.
pub open spec fn le_bytes(v: nat, n: nat) -> Seq<u8> {
    Seq::new(n, |i: int| ((v / pow2((8 * i) as nat)) % 256) as u8)
}

/// Returns the `n` low bytes of `value`, least significant first.
pub fn le_bytes_of(value: u64, n: usize) -> (bytes: Vec<u8>)
    requires
        n <= 8,
    ensures
        bytes@ == le_bytes(value as nat, n as nat),
{
    let mut bytes: Vec<u8> = Vec::new();
    let mut i: usize = 0;
    while i < n
        invariant
            i <= n <= 8,
            bytes@ == le_bytes(value as nat, i as nat),
        decreases n - i,
    {
        let shifted = value >> (8 * i as u64);
        proof {
            lemma_u64_shr_is_div(value, (8 * i) as u64);
            assert((shifted & 0xff) == shifted % 256) by (bit_vector);
        }
        bytes.push((shifted & 0xff) as u8);
        i += 1;
        assert(bytes@ =~= le_bytes(value as nat, i as nat));
    }
    bytes
}

/// Reads a number from at most eight little-endian bytes.
pub fn u64_from_le_bytes(bytes: &[u8]) -> (value: u64)
    requires
        bytes@.len() <= 8,
    ensures
        value == bytes_value(bytes@),
{
    let mut acc: u64 = 0;
    let mut i: usize = 0;
    while i < bytes.len()
        invariant
            i <= bytes@.len() <= 8,
            acc == bytes_value(bytes@.take(i as int)),
        decreases bytes@.len() - i,
    {
        proof {
            assert(bytes@.take(i + 1).drop_last() =~= bytes@.take(i as int));
            lemma_bytes_value_bound(bytes@.take(i + 1));
            lemma_u64_pow2_no_overflow((8 * i) as nat);
            if 8 * (i + 1) < 64 {
                lemma_u64_pow2_no_overflow((8 * (i + 1)) as nat);
            } else {
                lemma2_to64_rest();
            }
            assert(bytes@.take(i + 1).last() == bytes@[i as int]);
            lemma_mul_is_commutative(bytes@[i as int] as int, pow2((8 * i) as nat) as int);
            assert((bytes@[i as int] as nat) * pow2((8 * i) as nat) <= bytes_value(bytes@.take(i + 1)));
            lemma_u64_shl_is_mul(1, (8 * i) as u64);
        }
        let weight: u64 = 1u64 << (8 * i as u64);
        acc = acc + (bytes[i] as u64) * weight;
        i += 1;
    }
    assert(bytes@.take(bytes@.len() as int) =~= bytes@);
    acc
}

} // verus!
