//! Word decompositions and the spread-form `Σ` sums of the SHA-256 compression function.
//!
//! A word's *spread form* interleaves its bits with zeros: bit `i` of the word is bit `2i`
//! of the spread form, and every odd bit is zero. Adding three spread forms never carries
//! from one even/odd pair into the next, so the even bits of the sum are the XOR of the
//! three words and the odd bits are their majority.

use vstd::prelude::*;
use vstd::arithmetic::power2::*;
use crate::bits::{bit_of, bits_value, nat_bits, i2lebsp, lebs2ip, lemma_bit_split};

verus! {

/// The spread form of `s`: `s[i]` at position `2i`, zeros at the odd positions.
pub open spec fn spread(s: Seq<bool>) -> Seq<bool> {
    Seq::new(2 * s.len(), |i: int| i % 2 == 0 && s[i / 2])
}

/// Every odd position of `s` is clear.
pub open spec fn is_spread(s: Seq<bool>) -> bool {
    forall|i: int| 0 <= i < s.len() && i % 2 == 1 ==> !#[trigger] s[i]
}

/// The sum of the three rotations `b‖c‖d‖a`, `c‖d‖a‖b` and `d‖a‖b‖c` (little-endian
/// concatenations) that the upper-sigma gates add up.
pub open spec fn upper_sigma_sum(a: Seq<bool>, b: Seq<bool>, c: Seq<bool>, d: Seq<bool>) -> nat {
    bits_value(b + c + d + a) + bits_value(c + d + a + b) + bits_value(d + a + b + c)
}

/// Majority of three bits.
pub open spec fn maj(x: bool, y: bool, z: bool) -> bool {
    (x && y) || (x && z) || (y && z)
}

/// Appends the elements of `src` to `dst`.
fn append_bits(dst: &mut Vec<bool>, src: &[bool])
    ensures
        final(dst)@ == old(dst)@ + src@,
{
    let mut i: usize = 0;
    while i < src.len()
        invariant
            i <= src@.len(),
            dst@ == old(dst)@ + src@.take(i as int),
        decreases src@.len() - i,
    {
        dst.push(src[i]);
        i += 1;
        assert(dst@ =~= old(dst)@ + src@.take(i as int));
    }
    assert(src@.take(src@.len() as int) =~= src@);
}

/// Returns `p‖q‖r‖s`.
fn concat4(p: &[bool], q: &[bool], r: &[bool], s: &[bool]) -> (out: Vec<bool>)
    ensures
        out@ == p@ + q@ + r@ + s@,
{
    let mut out: Vec<bool> = Vec::new();
    append_bits(&mut out, p);
    append_bits(&mut out, q);
    append_bits(&mut out, r);
    append_bits(&mut out, s);
    assert(out@ =~= p@ + q@ + r@ + s@);
    out
}

/// Adds the three rotations of the spread pieces `a, b, c, d` as 64-bit integers and
/// returns the 64 little-endian bits of the sum.
pub fn xor_upper_sigma(a: &[bool], b: &[bool], c: &[bool], d: &[bool]) -> (out: Vec<bool>)
    requires
        a@.len() + b@.len() + c@.len() + d@.len() == 64,
        upper_sigma_sum(a@, b@, c@, d@) <= u64::MAX,
    ensures
        out@ == nat_bits(upper_sigma_sum(a@, b@, c@, d@), 64),
{
    let xor_0 = concat4(b, c, d, a);
    let xor_1 = concat4(c, d, a, b);
    let xor_2 = concat4(d, a, b, c);
    let xor_0 = lebs2ip(&xor_0);
    let xor_1 = lebs2ip(&xor_1);
    let xor_2 = lebs2ip(&xor_2);
    i2lebsp(xor_0 + xor_1 + xor_2, 64)
}

/// Dropping the last even/odd pair of a spread sequence removes its last even bit's weight.
proof fn lemma_spread_drop_pair(s: Seq<bool>, m: nat)
    requires
        m > 0,
        s.len() == 2 * m,
        is_spread(s),
    ensures
        bits_value(s) == bits_value(s.take(2 * m - 2)) + (if s[2 * m - 2] { 1nat } else { 0nat })
            * pow2((2 * m - 2) as nat),
{
    let k = 2 * m - 2;
    assert(!s[k + 1]);
    assert(s.drop_last().drop_last() =~= s.take(k));
    assert(s.drop_last().last() == s[k]);
    assert(bits_value(s) == bits_value(s.drop_last()));
    assert(bits_value(s.drop_last()) == bits_value(s.drop_last().drop_last()) + if s[k] {
        pow2(k as nat)
    } else {
        0
    });
}

/// Three spread sequences of length `2m` add up to less than `2^(2m)`, with the XOR of
/// their even bits in each even position of the sum and their majority in the odd one.
pub proof fn lemma_spread_sum(s0: Seq<bool>, s1: Seq<bool>, s2: Seq<bool>, m: nat)
    requires
        s0.len() == 2 * m,
        s1.len() == 2 * m,
        s2.len() == 2 * m,
        is_spread(s0),
        is_spread(s1),
        is_spread(s2),
    ensures
        bits_value(s0) + bits_value(s1) + bits_value(s2) < pow2(2 * m),
        forall|i: nat|
            i < m ==> #[trigger] bit_of(bits_value(s0) + bits_value(s1) + bits_value(s2), 2 * i)
                == (s0[2 * i as int] ^ s1[2 * i as int] ^ s2[2 * i as int]),
        forall|i: nat|
            i < m ==> #[trigger] bit_of(bits_value(s0) + bits_value(s1) + bits_value(s2), 2 * i + 1)
                == maj(s0[2 * i as int], s1[2 * i as int], s2[2 * i as int]),
    decreases m,
{
    let v = bits_value(s0) + bits_value(s1) + bits_value(s2);
    if m == 0 {
        lemma2_to64();
    } else {
        let k = (2 * m - 2) as nat;
        let t0 = s0.take(k as int);
        let t1 = s1.take(k as int);
        let t2 = s2.take(k as int);
        lemma_spread_sum(t0, t1, t2, (m - 1) as nat);
        let e0: nat = if s0[k as int] { 1 } else { 0 };
        let e1: nat = if s1[k as int] { 1 } else { 0 };
        let e2: nat = if s2[k as int] { 1 } else { 0 };
        lemma_spread_drop_pair(s0, m);
        lemma_spread_drop_pair(s1, m);
        lemma_spread_drop_pair(s2, m);
        assert(is_spread(t0));
        assert(is_spread(t1));
        assert(is_spread(t2));
        assert(bits_value(s0) == bits_value(t0) + e0 * pow2(k));
        assert(bits_value(s1) == bits_value(t1) + e1 * pow2(k));
        assert(bits_value(s2) == bits_value(t2) + e2 * pow2(k));
        let w = bits_value(t0) + bits_value(t1) + bits_value(t2);
        let dd: nat = e0 + e1 + e2;
        assert(v == w + dd * pow2(k)) by (nonlinear_arith)
            requires
                v == bits_value(t0) + e0 * pow2(k) + bits_value(t1) + e1 * pow2(k) + bits_value(t2)
                    + e2 * pow2(k),
                w == bits_value(t0) + bits_value(t1) + bits_value(t2),
                dd == e0 + e1 + e2,
        ;
        lemma_bit_split(w, dd, k);
        lemma_pow2_unfold(k + 1);
        lemma_pow2_unfold(k + 2);
        assert(v < pow2(2 * m)) by (nonlinear_arith)
            requires
                v == w + dd * pow2(k),
                w < pow2(k),
                dd <= 3,
                pow2(2 * m) == 4 * pow2(k),
        ;
        assert(v / pow2(k) == dd);
        lemma_pow2_pos(k);
        assert(v / pow2(k + 1) == dd / 2) by {
            vstd::arithmetic::div_mod::lemma_div_denominator(v as int, pow2(k) as int, 2);
            vstd::arithmetic::mul::lemma_mul_is_commutative(pow2(k) as int, 2);
        }
        assert forall|i: nat| i < m implies #[trigger] bit_of(v, 2 * i) == (s0[2 * i as int] ^ s1[2 * i as int]
            ^ s2[2 * i as int]) && bit_of(v, 2 * i + 1) == maj(s0[2 * i as int], s1[2 * i as int], s2[2 * i as int]) by {
            if i < m - 1 {
                assert(bit_of(v, 2 * i) == bit_of(w, 2 * i));
                assert(bit_of(v, 2 * i + 1) == bit_of(w, 2 * i + 1));
                assert(t0[2 * i as int] == s0[2 * i as int]);
                assert(t1[2 * i as int] == s1[2 * i as int]);
                assert(t2[2 * i as int] == s2[2 * i as int]);
            } else {
                assert(2 * i == k);
            }
        }
    }
}

/// The 32 little-endian bits of a word.
pub open spec fn word_bits(w: u32) -> Seq<bool> {
    nat_bits(w as nat, 32)
}

/// Bit `i` of `ROTR^n(w)`, the 32-bit right rotation of `w` by `n`.
pub open spec fn rotr_bit(w: u32, n: int, i: int) -> bool {
    word_bits(w)[(i + n) % 32]
}

/// The bits of `Σ_0(w) = ROTR^2(w) ⊕ ROTR^13(w) ⊕ ROTR^22(w)`.
pub open spec fn upper_sigma_0_bits(w: u32) -> Seq<bool> {
    Seq::new(32, |i: int| rotr_bit(w, 2, i) ^ rotr_bit(w, 13, i) ^ rotr_bit(w, 22, i))
}

/// The bits of `Σ_1(w) = ROTR^6(w) ⊕ ROTR^11(w) ⊕ ROTR^25(w)`.
pub open spec fn upper_sigma_1_bits(w: u32) -> Seq<bool> {
    Seq::new(32, |i: int| rotr_bit(w, 6, i) ^ rotr_bit(w, 11, i) ^ rotr_bit(w, 25, i))
}

/// The even bits of a 64-bit sequence.
pub open spec fn even_bits(s: Seq<bool>) -> Seq<bool> {
    Seq::new(32, |i: int| s[2 * i])
}

/// Returns `bits[range]`.
fn bit_range(bits: &[bool], range: core::ops::Range<usize>) -> (out: Vec<bool>)
    requires
        range.start <= range.end <= bits@.len(),
    ensures
        out@ == bits@.subrange(range.start as int, range.end as int),
{
    let mut out: Vec<bool> = Vec::new();
    let mut i = range.start;
    while i < range.end
        invariant
            range.start <= i <= range.end <= bits@.len(),
            out@ == bits@.subrange(range.start as int, i as int),
        decreases range.end - i,
    {
        out.push(bits[i]);
        i += 1;
        assert(out@ =~= bits@.subrange(range.start as int, i as int));
    }
    out
}

/// Copies a slice of bits.
fn copy_bits(bits: &[bool]) -> (out: Vec<bool>)
    ensures
        out@ == bits@,
{
    let mut out: Vec<bool> = Vec::new();
    append_bits(&mut out, bits);
    assert(out@ =~= bits@);
    out
}

/// A piece that is either unknown or a spread form of `len` bits.
pub open spec fn spread_piece(p: Option<Vec<bool>>, len: nat) -> bool {
    p matches Some(v) ==> v@.len() == len && is_spread(v@)
}

/// A copy of a piece, unknown when the piece is.
fn copy_piece(p: &Option<Vec<bool>>) -> (out: Option<Vec<bool>>)
    ensures
        out is Some <==> p is Some,
        out is Some ==> out->Some_0@ == p->Some_0@,
{
    match p {
        Some(v) => Some(copy_bits(v)),
        None => None,
    }
}

/// The concatenation of pieces, known when every piece is.
fn concat_pieces(p: &Option<Vec<bool>>, q: &Option<Vec<bool>>) -> (out: Option<Vec<bool>>)
    ensures
        out is Some <==> (p is Some && q is Some),
        out is Some ==> out->Some_0@ == p->Some_0@ + q->Some_0@,
{
    match (p, q) {
        (Some(x), Some(y)) => {
            let mut out = copy_bits(x);
            append_bits(&mut out, y);
            Some(out)
        },
        _ => None,
    }
}

/// The spread-form sum of four pieces, known when every piece is.
fn xor_upper_sigma_pieces(
    a: Option<Vec<bool>>,
    b: Option<Vec<bool>>,
    c: Option<Vec<bool>>,
    d: Option<Vec<bool>>,
) -> (out: Option<Vec<bool>>)
    requires
        a matches Some(v) ==> is_spread(v@) && v@.len() % 2 == 0,
        b matches Some(v) ==> is_spread(v@) && v@.len() % 2 == 0,
        c matches Some(v) ==> is_spread(v@) && v@.len() % 2 == 0,
        d matches Some(v) ==> is_spread(v@) && v@.len() % 2 == 0,
        (a is Some && b is Some && c is Some && d is Some) ==> a->Some_0@.len()
            + b->Some_0@.len() + c->Some_0@.len() + d->Some_0@.len() == 64,
    ensures
        out is Some <==> (a is Some && b is Some && c is Some && d is Some),
        out is Some ==> out->Some_0@ == nat_bits(
            upper_sigma_sum(a->Some_0@, b->Some_0@, c->Some_0@, d->Some_0@),
            64,
        ),
{
    match (a, b, c, d) {
        (Some(a), Some(b), Some(c), Some(d)) => {
            proof {
                lemma_upper_sigma_sum_fits(a@, b@, c@, d@);
            }
            Some(xor_upper_sigma(&a, &b, &c, &d))
        },
        _ => None,
    }
}

/// The spread forms of the pieces `(a, b, c_lo, c_mid, c_hi, d)` of lengths
/// `(2, 11, 3, 3, 3, 10)` bits into which an `A`, `B`, `C` or `D` word is split for `Σ_0`
/// and `Maj`.
/// A piece is `None` while its value is unknown, as when keys are generated.
pub struct AbcdVar {
    pub a: Option<Vec<bool>>,
    pub b: Option<Vec<bool>>,
    pub c_lo: Option<Vec<bool>>,
    pub c_mid: Option<Vec<bool>>,
    pub c_hi: Option<Vec<bool>>,
    pub d: Option<Vec<bool>>,
}

impl AbcdVar {
    /// Each known piece is a spread form of the piece's width.
    pub open spec fn wf(&self) -> bool {
        &&& spread_piece(self.a, 4)
        &&& spread_piece(self.b, 22)
        &&& spread_piece(self.c_lo, 6)
        &&& spread_piece(self.c_mid, 6)
        &&& spread_piece(self.c_hi, 6)
        &&& spread_piece(self.d, 20)
    }

    /// The pieces are known and are the spread forms of the pieces of `w`.
    pub open spec fn spreads_word(&self, w: u32) -> bool {
        &&& self.a is Some && self.a->Some_0@ == spread(word_bits(w).subrange(0, 2))
        &&& self.b is Some && self.b->Some_0@ == spread(word_bits(w).subrange(2, 13))
        &&& self.c_lo is Some && self.c_lo->Some_0@ == spread(word_bits(w).subrange(13, 16))
        &&& self.c_mid is Some && self.c_mid->Some_0@ == spread(word_bits(w).subrange(16, 19))
        &&& self.c_hi is Some && self.c_hi->Some_0@ == spread(word_bits(w).subrange(19, 22))
        &&& self.d is Some && self.d->Some_0@ == spread(word_bits(w).subrange(22, 32))
    }

    pub fn a_range() -> (r: core::ops::Range<usize>)
        ensures
            r.start == 0 && r.end == 2,
    {
        0..2
    }

    pub fn b_range() -> (r: core::ops::Range<usize>)
        ensures
            r.start == 2 && r.end == 13,
    {
        2..13
    }

    pub fn c_lo_range() -> (r: core::ops::Range<usize>)
        ensures
            r.start == 13 && r.end == 16,
    {
        13..16
    }

    pub fn c_mid_range() -> (r: core::ops::Range<usize>)
        ensures
            r.start == 16 && r.end == 19,
    {
        16..19
    }

    pub fn c_hi_range() -> (r: core::ops::Range<usize>)
        ensures
            r.start == 19 && r.end == 22,
    {
        19..22
    }

    pub fn d_range() -> (r: core::ops::Range<usize>)
        ensures
            r.start == 22 && r.end == 32,
    {
        22..32
    }

    /// Splits `val` into its `(2, 11, 3, 3, 3, 10)`-bit pieces, least significant first.
    pub fn pieces(val: u32) -> (pieces: Vec<Vec<bool>>)
        ensures
            pieces@.len() == 6,
            pieces@[0]@ == word_bits(val).subrange(0, 2),
            pieces@[1]@ == word_bits(val).subrange(2, 13),
            pieces@[2]@ == word_bits(val).subrange(13, 16),
            pieces@[3]@ == word_bits(val).subrange(16, 19),
            pieces@[4]@ == word_bits(val).subrange(19, 22),
            pieces@[5]@ == word_bits(val).subrange(22, 32),
            pieces@[0]@ + pieces@[1]@ + pieces@[2]@ + pieces@[3]@ + pieces@[4]@ + pieces@[5]@
                == word_bits(val),
    {
        let val_bits = i2lebsp(val as u64, 32);
        let mut pieces: Vec<Vec<bool>> = Vec::new();
        pieces.push(bit_range(&val_bits, Self::a_range()));
        pieces.push(bit_range(&val_bits, Self::b_range()));
        pieces.push(bit_range(&val_bits, Self::c_lo_range()));
        pieces.push(bit_range(&val_bits, Self::c_mid_range()));
        pieces.push(bit_range(&val_bits, Self::c_hi_range()));
        pieces.push(bit_range(&val_bits, Self::d_range()));
        assert(pieces@[0]@ + pieces@[1]@ + pieces@[2]@ + pieces@[3]@ + pieces@[4]@ + pieces@[5]@
            =~= word_bits(val));
        pieces
    }

    pub fn spread_a(&self) -> (out: Option<Vec<bool>>)
        ensures
            out is Some <==> self.a is Some,
            out is Some ==> out->Some_0@ == self.a->Some_0@,
    {
        copy_piece(&self.a)
    }

    pub fn spread_b(&self) -> (out: Option<Vec<bool>>)
        ensures
            out is Some <==> self.b is Some,
            out is Some ==> out->Some_0@ == self.b->Some_0@,
    {
        copy_piece(&self.b)
    }

    /// The spread form of the 9-bit piece `c`: `c_lo‖c_mid‖c_hi`, known when all three
    /// parts are.
    pub fn spread_c(&self) -> (out: Option<Vec<bool>>)
        ensures
            out is Some <==> (self.c_lo is Some && self.c_mid is Some && self.c_hi is Some),
            out is Some ==> out->Some_0@ == self.c_lo->Some_0@ + self.c_mid->Some_0@
                + self.c_hi->Some_0@,
    {
        let lo_mid = concat_pieces(&self.c_lo, &self.c_mid);
        concat_pieces(&lo_mid, &self.c_hi)
    }

    pub fn spread_d(&self) -> (out: Option<Vec<bool>>)
        ensures
            out is Some <==> self.d is Some,
            out is Some ==> out->Some_0@ == self.d->Some_0@,
    {
        copy_piece(&self.d)
    }

    /// Every piece is known.
    pub open spec fn known(&self) -> bool {
        &&& self.a is Some && self.b is Some && self.c_lo is Some
        &&& self.c_mid is Some && self.c_hi is Some && self.d is Some
    }

    /// The spread-form sum of the `Σ_0` rotations of this word, known when every piece is.
    pub fn xor_upper_sigma(&self) -> (out: Option<Vec<bool>>)
        requires
            self.wf(),
        ensures
            out is Some <==> self.known(),
            out is Some ==> out->Some_0@ == nat_bits(
                upper_sigma_sum(
                    self.a->Some_0@,
                    self.b->Some_0@,
                    self.c_lo->Some_0@ + self.c_mid->Some_0@ + self.c_hi->Some_0@,
                    self.d->Some_0@,
                ),
                64,
            ),
    {
        let a = self.spread_a();
        let b = self.spread_b();
        let c = self.spread_c();
        let d = self.spread_d();
        proof {
            if c is Some {
                lemma_concat_spread(self.c_lo->Some_0@, self.c_mid->Some_0@);
                lemma_concat_spread(self.c_lo->Some_0@ + self.c_mid->Some_0@, self.c_hi->Some_0@);
            }
        }
        xor_upper_sigma_pieces(a, b, c, d)
    }
}

/// The spread forms of the pieces `(a_lo, a_hi, b_lo, b_hi, c, d)` of lengths
/// `(3, 3, 2, 3, 14, 7)` bits into which an `E`, `F`, `G` or `H` word is split for `Σ_1`
/// and `Ch`.
/// A piece is `None` while its value is unknown, as when keys are generated.
pub struct EfghVar {
    pub a_lo: Option<Vec<bool>>,
    pub a_hi: Option<Vec<bool>>,
    pub b_lo: Option<Vec<bool>>,
    pub b_hi: Option<Vec<bool>>,
    pub c: Option<Vec<bool>>,
    pub d: Option<Vec<bool>>,
}

impl EfghVar {
    /// Each known piece is a spread form of the piece's width.
    pub open spec fn wf(&self) -> bool {
        &&& spread_piece(self.a_lo, 6)
        &&& spread_piece(self.a_hi, 6)
        &&& spread_piece(self.b_lo, 4)
        &&& spread_piece(self.b_hi, 6)
        &&& spread_piece(self.c, 28)
        &&& spread_piece(self.d, 14)
    }

    /// The pieces are known and are the spread forms of the pieces of `w`.
    pub open spec fn spreads_word(&self, w: u32) -> bool {
        &&& self.a_lo is Some && self.a_lo->Some_0@ == spread(word_bits(w).subrange(0, 3))
        &&& self.a_hi is Some && self.a_hi->Some_0@ == spread(word_bits(w).subrange(3, 6))
        &&& self.b_lo is Some && self.b_lo->Some_0@ == spread(word_bits(w).subrange(6, 8))
        &&& self.b_hi is Some && self.b_hi->Some_0@ == spread(word_bits(w).subrange(8, 11))
        &&& self.c is Some && self.c->Some_0@ == spread(word_bits(w).subrange(11, 25))
        &&& self.d is Some && self.d->Some_0@ == spread(word_bits(w).subrange(25, 32))
    }

    pub fn a_lo_range() -> (r: core::ops::Range<usize>)
        ensures
            r.start == 0 && r.end == 3,
    {
        0..3
    }

    pub fn a_hi_range() -> (r: core::ops::Range<usize>)
        ensures
            r.start == 3 && r.end == 6,
    {
        3..6
    }

    pub fn b_lo_range() -> (r: core::ops::Range<usize>)
        ensures
            r.start == 6 && r.end == 8,
    {
        6..8
    }

    pub fn b_hi_range() -> (r: core::ops::Range<usize>)
        ensures
            r.start == 8 && r.end == 11,
    {
        8..11
    }

    pub fn c_range() -> (r: core::ops::Range<usize>)
        ensures
            r.start == 11 && r.end == 25,
    {
        11..25
    }

    pub fn d_range() -> (r: core::ops::Range<usize>)
        ensures
            r.start == 25 && r.end == 32,
    {
        25..32
    }

    /// Splits `val` into its `(3, 3, 2, 3, 14, 7)`-bit pieces, least significant first.
    pub fn pieces(val: u32) -> (pieces: Vec<Vec<bool>>)
        ensures
            pieces@.len() == 6,
            pieces@[0]@ == word_bits(val).subrange(0, 3),
            pieces@[1]@ == word_bits(val).subrange(3, 6),
            pieces@[2]@ == word_bits(val).subrange(6, 8),
            pieces@[3]@ == word_bits(val).subrange(8, 11),
            pieces@[4]@ == word_bits(val).subrange(11, 25),
            pieces@[5]@ == word_bits(val).subrange(25, 32),
            pieces@[0]@ + pieces@[1]@ + pieces@[2]@ + pieces@[3]@ + pieces@[4]@ + pieces@[5]@
                == word_bits(val),
    {
        let val_bits = i2lebsp(val as u64, 32);
        let mut pieces: Vec<Vec<bool>> = Vec::new();
        pieces.push(bit_range(&val_bits, Self::a_lo_range()));
        pieces.push(bit_range(&val_bits, Self::a_hi_range()));
        pieces.push(bit_range(&val_bits, Self::b_lo_range()));
        pieces.push(bit_range(&val_bits, Self::b_hi_range()));
        pieces.push(bit_range(&val_bits, Self::c_range()));
        pieces.push(bit_range(&val_bits, Self::d_range()));
        assert(pieces@[0]@ + pieces@[1]@ + pieces@[2]@ + pieces@[3]@ + pieces@[4]@ + pieces@[5]@
            =~= word_bits(val));
        pieces
    }

    /// The spread form of the 6-bit piece `a`: `a_lo‖a_hi`, known when both parts are.
    pub fn spread_a(&self) -> (out: Option<Vec<bool>>)
        ensures
            out is Some <==> (self.a_lo is Some && self.a_hi is Some),
            out is Some ==> out->Some_0@ == self.a_lo->Some_0@ + self.a_hi->Some_0@,
    {
        concat_pieces(&self.a_lo, &self.a_hi)
    }

    /// The spread form of the 5-bit piece `b`: `b_lo‖b_hi`, known when both parts are.
    pub fn spread_b(&self) -> (out: Option<Vec<bool>>)
        ensures
            out is Some <==> (self.b_lo is Some && self.b_hi is Some),
            out is Some ==> out->Some_0@ == self.b_lo->Some_0@ + self.b_hi->Some_0@,
    {
        concat_pieces(&self.b_lo, &self.b_hi)
    }

    pub fn spread_c(&self) -> (out: Option<Vec<bool>>)
        ensures
            out is Some <==> self.c is Some,
            out is Some ==> out->Some_0@ == self.c->Some_0@,
    {
        copy_piece(&self.c)
    }

    pub fn spread_d(&self) -> (out: Option<Vec<bool>>)
        ensures
            out is Some <==> self.d is Some,
            out is Some ==> out->Some_0@ == self.d->Some_0@,
    {
        copy_piece(&self.d)
    }

    /// Every piece is known.
    pub open spec fn known(&self) -> bool {
        &&& self.a_lo is Some && self.a_hi is Some && self.b_lo is Some
        &&& self.b_hi is Some && self.c is Some && self.d is Some
    }

    /// The spread-form sum of the `Σ_1` rotations of this word, known when every piece is.
    pub fn xor_upper_sigma(&self) -> (out: Option<Vec<bool>>)
        requires
            self.wf(),
        ensures
            out is Some <==> self.known(),
            out is Some ==> out->Some_0@ == nat_bits(
                upper_sigma_sum(
                    self.a_lo->Some_0@ + self.a_hi->Some_0@,
                    self.b_lo->Some_0@ + self.b_hi->Some_0@,
                    self.c->Some_0@,
                    self.d->Some_0@,
                ),
                64,
            ),
    {
        let a = self.spread_a();
        let b = self.spread_b();
        let c = self.spread_c();
        let d = self.spread_d();
        proof {
            if a is Some {
                lemma_concat_spread(self.a_lo->Some_0@, self.a_hi->Some_0@);
            }
            if b is Some {
                lemma_concat_spread(self.b_lo->Some_0@, self.b_hi->Some_0@);
            }
        }
        xor_upper_sigma_pieces(a, b, c, d)
    }
}

/// Concatenating spread sequences of even lengths gives a spread sequence.
proof fn lemma_concat_spread(p: Seq<bool>, q: Seq<bool>)
    requires
        is_spread(p),
        is_spread(q),
        p.len() % 2 == 0,
    ensures
        is_spread(p + q),
{
    assert forall|i: int| 0 <= i < (p + q).len() && i % 2 == 1 implies !#[trigger] (p + q)[i] by {
        if i >= p.len() {
            assert((p + q)[i] == q[i - p.len()]);
        }
    }
}

/// Four even-length spread pieces of 64 bits in all: the three rotations are spread
/// and their sum fits in 64 bits.
proof fn lemma_upper_sigma_sum_fits(a: Seq<bool>, b: Seq<bool>, c: Seq<bool>, d: Seq<bool>)
    requires
        is_spread(a) && is_spread(b) && is_spread(c) && is_spread(d),
        a.len() % 2 == 0 && b.len() % 2 == 0 && c.len() % 2 == 0 && d.len() % 2 == 0,
        a.len() + b.len() + c.len() + d.len() == 64,
    ensures
        upper_sigma_sum(a, b, c, d) <= u64::MAX,
        is_spread(b + c + d + a),
        is_spread(c + d + a + b),
        is_spread(d + a + b + c),
{
    lemma_concat_spread(b, c);
    lemma_concat_spread(b + c, d);
    lemma_concat_spread(b + c + d, a);
    lemma_concat_spread(c, d);
    lemma_concat_spread(c + d, a);
    lemma_concat_spread(c + d + a, b);
    lemma_concat_spread(d, a);
    lemma_concat_spread(d + a, b);
    lemma_concat_spread(d + a + b, c);
    lemma_spread_sum(b + c + d + a, c + d + a + b, d + a + b + c, 32);
    lemma2_to64_rest();
}

/// The spread form of a concatenation is the concatenation of the spread forms.
proof fn lemma_spread_concat(p: Seq<bool>, q: Seq<bool>)
    ensures
        spread(p + q) == spread(p) + spread(q),
{
    assert forall|i: int| 0 <= i < spread(p + q).len() implies #[trigger] spread(p + q)[i] == (
    spread(p) + spread(q))[i] by {
        if i >= 2 * p.len() {
            assert((i - 2 * p.len()) / 2 == i / 2 - p.len());
            assert((i - 2 * p.len()) % 2 == i % 2);
        }
    }
    assert(spread(p + q) =~= spread(p) + spread(q));
}

/// The rotation of a 32-bit sequence by `k`: `wb[k..32]‖wb[0..k]`.
proof fn lemma_rotation(wb: Seq<bool>, k: int)
    requires
        wb.len() == 32,
        0 < k < 32,
    ensures
        wb.subrange(k, 32) + wb.subrange(0, k) == Seq::new(32, |i: int| wb[(i + k) % 32]),
{
    assert forall|i: int| 0 <= i < 32 implies #[trigger] (wb.subrange(k, 32) + wb.subrange(0, k))[i]
        == wb[(i + k) % 32] by {
        if i < 32 - k {
            assert((i + k) % 32 == i + k);
        } else {
            assert((i + k) % 32 == i + k - 32);
        }
    }
    assert(wb.subrange(k, 32) + wb.subrange(0, k) =~= Seq::new(32, |i: int| wb[(i + k) % 32]));
}

/// For three spread sequences of 64 bits, the even bits of the 64 low bits of their sum
/// are the XOR of their even bits.
proof fn lemma_spread_sum_even_bits(s0: Seq<bool>, s1: Seq<bool>, s2: Seq<bool>)
    requires
        s0.len() == 64 && s1.len() == 64 && s2.len() == 64,
        is_spread(s0) && is_spread(s1) && is_spread(s2),
    ensures
        even_bits(nat_bits(bits_value(s0) + bits_value(s1) + bits_value(s2), 64)) == Seq::new(
            32,
            |i: int| s0[2 * i] ^ s1[2 * i] ^ s2[2 * i],
        ),
{
    lemma_spread_sum(s0, s1, s2, 32);
    let out = nat_bits(bits_value(s0) + bits_value(s1) + bits_value(s2), 64);
    assert forall|i: int| 0 <= i < 32 implies #[trigger] even_bits(out)[i] == (s0[2 * i] ^ s1[2
        * i] ^ s2[2 * i]) by {
        assert(bit_of(bits_value(s0) + bits_value(s1) + bits_value(s2), (2 * i) as nat) == (s0[2
            * i] ^ s1[2 * i] ^ s2[2 * i]));
    }
    assert(even_bits(out) =~= Seq::new(32, |i: int| s0[2 * i] ^ s1[2 * i] ^ s2[2 * i]));
}

/// The even bits of a spread form are the bits it spreads.
proof fn lemma_spread_even(r: Seq<bool>, i: int)
    requires
        0 <= i < r.len(),
    ensures
        spread(r)[2 * i] == r[i],
{
    assert((2 * i) / 2 == i);
}

/// The odd bits of a 64-bit sequence.
pub open spec fn odd_bits(s: Seq<bool>) -> Seq<bool> {
    Seq::new(32, |i: int| s[2 * i + 1])
}

/// The bits of `Maj(ROTR^n0(w), ROTR^n1(w), ROTR^n2(w))`.
pub open spec fn maj_rotr_bits(w: u32, n0: int, n1: int, n2: int) -> Seq<bool> {
    Seq::new(32, |i: int| maj(rotr_bit(w, n0, i), rotr_bit(w, n1, i), rotr_bit(w, n2, i)))
}

/// For any spread pieces of even lengths that fill 64 bits, the 64 bits of the spread-form
/// sum hold, at each even position `2i`, the XOR of the three rotations' bits at `2i`, and
/// at the odd position `2i + 1` after it, their majority; the sum fits in 64 bits.
pub proof fn lemma_upper_sigma_sum_bits(a: Seq<bool>, b: Seq<bool>, c: Seq<bool>, d: Seq<bool>)
    requires
        is_spread(a) && is_spread(b) && is_spread(c) && is_spread(d),
        a.len() % 2 == 0 && b.len() % 2 == 0 && c.len() % 2 == 0 && d.len() % 2 == 0,
        a.len() + b.len() + c.len() + d.len() == 64,
    ensures
        upper_sigma_sum(a, b, c, d) <= u64::MAX,
        forall|i: int|
            0 <= i < 32 ==> #[trigger] nat_bits(upper_sigma_sum(a, b, c, d), 64)[2 * i] == ((b + c
                + d + a)[2 * i] ^ (c + d + a + b)[2 * i] ^ (d + a + b + c)[2 * i]),
        forall|i: int|
            0 <= i < 32 ==> #[trigger] nat_bits(upper_sigma_sum(a, b, c, d), 64)[2 * i + 1] == maj(
                (b + c + d + a)[2 * i],
                (c + d + a + b)[2 * i],
                (d + a + b + c)[2 * i],
            ),
{
    lemma_upper_sigma_sum_fits(a, b, c, d);
    let s0 = b + c + d + a;
    let s1 = c + d + a + b;
    let s2 = d + a + b + c;
    lemma_spread_sum(s0, s1, s2, 32);
    assert forall|i: int| 0 <= i < 32 implies #[trigger] nat_bits(upper_sigma_sum(a, b, c, d), 64)[2
        * i] == (s0[2 * i] ^ s1[2 * i] ^ s2[2 * i]) by {
        let n: nat = i as nat;
        assert(bit_of(upper_sigma_sum(a, b, c, d), 2 * n) == (s0[2 * n as int] ^ s1[2 * n as int]
            ^ s2[2 * n as int]));
    }
    assert forall|i: int| 0 <= i < 32 implies #[trigger] nat_bits(upper_sigma_sum(a, b, c, d), 64)[2
        * i + 1] == maj(s0[2 * i], s1[2 * i], s2[2 * i]) by {
        let n: nat = i as nat;
        assert(bit_of(upper_sigma_sum(a, b, c, d), 2 * n + 1) == maj(
            s0[2 * n as int],
            s1[2 * n as int],
            s2[2 * n as int],
        ));
    }
}

/// For three spread sequences of 64 bits, the odd bits of the 64 low bits of their sum
/// are the majority of their even bits.
proof fn lemma_spread_sum_odd_bits(s0: Seq<bool>, s1: Seq<bool>, s2: Seq<bool>)
    requires
        s0.len() == 64 && s1.len() == 64 && s2.len() == 64,
        is_spread(s0) && is_spread(s1) && is_spread(s2),
    ensures
        odd_bits(nat_bits(bits_value(s0) + bits_value(s1) + bits_value(s2), 64)) == Seq::new(
            32,
            |i: int| maj(s0[2 * i], s1[2 * i], s2[2 * i]),
        ),
{
    lemma_spread_sum(s0, s1, s2, 32);
    let out = nat_bits(bits_value(s0) + bits_value(s1) + bits_value(s2), 64);
    assert forall|i: int| 0 <= i < 32 implies #[trigger] odd_bits(out)[i] == maj(
        s0[2 * i],
        s1[2 * i],
        s2[2 * i],
    ) by {
        let n: nat = i as nat;
        assert(bit_of(bits_value(s0) + bits_value(s1) + bits_value(s2), 2 * n + 1) == maj(
            s0[2 * n as int],
            s1[2 * n as int],
            s2[2 * n as int],
        ));
    }
    assert(odd_bits(out) =~= Seq::new(32, |i: int| maj(s0[2 * i], s1[2 * i], s2[2 * i])));
}

/// For spread pieces of `w`, the even bits of the spread sum are `Σ_0(w)` and the odd bits
/// `Maj(ROTR^2(w), ROTR^13(w), ROTR^22(w))`.
pub proof fn lemma_abcd_upper_sigma_0(v: &AbcdVar, w: u32)
    requires
        v.spreads_word(w),
    ensures
        v.wf(),
        even_bits(
            nat_bits(
                upper_sigma_sum(
                    v.a->Some_0@,
                    v.b->Some_0@,
                    v.c_lo->Some_0@ + v.c_mid->Some_0@ + v.c_hi->Some_0@,
                    v.d->Some_0@,
                ),
                64,
            ),
        ) == upper_sigma_0_bits(w),
        odd_bits(
            nat_bits(
                upper_sigma_sum(
                    v.a->Some_0@,
                    v.b->Some_0@,
                    v.c_lo->Some_0@ + v.c_mid->Some_0@ + v.c_hi->Some_0@,
                    v.d->Some_0@,
                ),
                64,
            ),
        ) == maj_rotr_bits(w, 2, 13, 22),
{
    let wb = word_bits(w);
    let pa = wb.subrange(0, 2);
    let pb = wb.subrange(2, 13);
    let pc = wb.subrange(13, 22);
    let pd = wb.subrange(22, 32);
    assert(pc =~= wb.subrange(13, 16) + wb.subrange(16, 19) + wb.subrange(19, 22));
    lemma_spread_concat(wb.subrange(13, 16), wb.subrange(16, 19));
    lemma_spread_concat(wb.subrange(13, 16) + wb.subrange(16, 19), wb.subrange(19, 22));
    let c = v.c_lo->Some_0@ + v.c_mid->Some_0@ + v.c_hi->Some_0@;
    assert(c == spread(pc));
    lemma_upper_sigma_rotations(pa, pb, pc, pd);
    lemma_upper_sigma_sum_fits(v.a->Some_0@, v.b->Some_0@, c, v.d->Some_0@);
    let r0 = pb + pc + pd + pa;
    let r1 = pc + pd + pa + pb;
    let r2 = pd + pa + pb + pc;
    assert(r0 =~= wb.subrange(2, 32) + wb.subrange(0, 2));
    assert(r1 =~= wb.subrange(13, 32) + wb.subrange(0, 13));
    assert(r2 =~= wb.subrange(22, 32) + wb.subrange(0, 22));
    lemma_rotation(wb, 2);
    lemma_rotation(wb, 13);
    lemma_rotation(wb, 22);
    lemma_spread_sum_even_bits(spread(r0), spread(r1), spread(r2));
    assert forall|i: int| 0 <= i < 32 implies (spread(r0)[2 * i] ^ spread(r1)[2 * i] ^ spread(
        r2,
    )[2 * i]) == #[trigger] upper_sigma_0_bits(w)[i] by {
        lemma_spread_even(r0, i);
        lemma_spread_even(r1, i);
        lemma_spread_even(r2, i);
    }
    assert(Seq::new(32, |i: int| spread(r0)[2 * i] ^ spread(r1)[2 * i] ^ spread(r2)[2 * i])
        =~= upper_sigma_0_bits(w));
    lemma_spread_sum_odd_bits(spread(r0), spread(r1), spread(r2));
    assert forall|i: int| 0 <= i < 32 implies maj(spread(r0)[2 * i], spread(r1)[2 * i], spread(
        r2,
    )[2 * i]) == #[trigger] maj_rotr_bits(w, 2, 13, 22)[i] by {
        lemma_spread_even(r0, i);
        lemma_spread_even(r1, i);
        lemma_spread_even(r2, i);
    }
    assert(Seq::new(32, |i: int| maj(spread(r0)[2 * i], spread(r1)[2 * i], spread(r2)[2 * i]))
        =~= maj_rotr_bits(w, 2, 13, 22));
}

/// For spread pieces of `w`, the even bits of the spread sum are `Σ_1(w)` and the odd bits
/// `Maj(ROTR^6(w), ROTR^11(w), ROTR^25(w))`.
pub proof fn lemma_efgh_upper_sigma_1(v: &EfghVar, w: u32)
    requires
        v.spreads_word(w),
    ensures
        v.wf(),
        even_bits(
            nat_bits(
                upper_sigma_sum(
                    v.a_lo->Some_0@ + v.a_hi->Some_0@,
                    v.b_lo->Some_0@ + v.b_hi->Some_0@,
                    v.c->Some_0@,
                    v.d->Some_0@,
                ),
                64,
            ),
        ) == upper_sigma_1_bits(w),
        odd_bits(
            nat_bits(
                upper_sigma_sum(
                    v.a_lo->Some_0@ + v.a_hi->Some_0@,
                    v.b_lo->Some_0@ + v.b_hi->Some_0@,
                    v.c->Some_0@,
                    v.d->Some_0@,
                ),
                64,
            ),
        ) == maj_rotr_bits(w, 6, 11, 25),
{
    let wb = word_bits(w);
    let pa = wb.subrange(0, 6);
    let pb = wb.subrange(6, 11);
    let pc = wb.subrange(11, 25);
    let pd = wb.subrange(25, 32);
    assert(pa =~= wb.subrange(0, 3) + wb.subrange(3, 6));
    assert(pb =~= wb.subrange(6, 8) + wb.subrange(8, 11));
    lemma_spread_concat(wb.subrange(0, 3), wb.subrange(3, 6));
    lemma_spread_concat(wb.subrange(6, 8), wb.subrange(8, 11));
    let a = v.a_lo->Some_0@ + v.a_hi->Some_0@;
    let b = v.b_lo->Some_0@ + v.b_hi->Some_0@;
    assert(a == spread(pa));
    assert(b == spread(pb));
    lemma_upper_sigma_rotations(pa, pb, pc, pd);
    lemma_upper_sigma_sum_fits(a, b, v.c->Some_0@, v.d->Some_0@);
    let r0 = pb + pc + pd + pa;
    let r1 = pc + pd + pa + pb;
    let r2 = pd + pa + pb + pc;
    assert(r0 =~= wb.subrange(6, 32) + wb.subrange(0, 6));
    assert(r1 =~= wb.subrange(11, 32) + wb.subrange(0, 11));
    assert(r2 =~= wb.subrange(25, 32) + wb.subrange(0, 25));
    lemma_rotation(wb, 6);
    lemma_rotation(wb, 11);
    lemma_rotation(wb, 25);
    lemma_spread_sum_even_bits(spread(r0), spread(r1), spread(r2));
    assert forall|i: int| 0 <= i < 32 implies (spread(r0)[2 * i] ^ spread(r1)[2 * i] ^ spread(
        r2,
    )[2 * i]) == #[trigger] upper_sigma_1_bits(w)[i] by {
        lemma_spread_even(r0, i);
        lemma_spread_even(r1, i);
        lemma_spread_even(r2, i);
    }
    assert(Seq::new(32, |i: int| spread(r0)[2 * i] ^ spread(r1)[2 * i] ^ spread(r2)[2 * i])
        =~= upper_sigma_1_bits(w));
    lemma_spread_sum_odd_bits(spread(r0), spread(r1), spread(r2));
    assert forall|i: int| 0 <= i < 32 implies maj(spread(r0)[2 * i], spread(r1)[2 * i], spread(
        r2,
    )[2 * i]) == #[trigger] maj_rotr_bits(w, 6, 11, 25)[i] by {
        lemma_spread_even(r0, i);
        lemma_spread_even(r1, i);
        lemma_spread_even(r2, i);
    }
    assert(Seq::new(32, |i: int| maj(spread(r0)[2 * i], spread(r1)[2 * i], spread(r2)[2 * i]))
        =~= maj_rotr_bits(w, 6, 11, 25));
}

/// The spread forms of the three rotations are the rotations of the spread forms.
proof fn lemma_upper_sigma_rotations(pa: Seq<bool>, pb: Seq<bool>, pc: Seq<bool>, pd: Seq<bool>)
    ensures
        spread(pb) + spread(pc) + spread(pd) + spread(pa) == spread(pb + pc + pd + pa),
        spread(pc) + spread(pd) + spread(pa) + spread(pb) == spread(pc + pd + pa + pb),
        spread(pd) + spread(pa) + spread(pb) + spread(pc) == spread(pd + pa + pb + pc),
{
    lemma_spread_concat(pb, pc);
    lemma_spread_concat(pb + pc, pd);
    lemma_spread_concat(pb + pc + pd, pa);
    lemma_spread_concat(pc, pd);
    lemma_spread_concat(pc + pd, pa);
    lemma_spread_concat(pc + pd + pa, pb);
    lemma_spread_concat(pd, pa);
    lemma_spread_concat(pd + pa, pb);
    lemma_spread_concat(pd + pa + pb, pc);
}

/// A round word as two 16-bit halves, each known or not.
pub struct RoundWordDense(pub Option<u16>, pub Option<u16>);

impl RoundWordDense {
    /// The word `lo + 2^16 * hi`, known when both halves are.
    pub fn value(&self) -> (v: Option<u32>)
        ensures
            v == match (self.0, self.1) {
                (Some(lo), Some(hi)) => Some((lo + 0x10000 * hi) as u32),
                _ => None,
            },
            v matches Some(w) ==> w == self.0->Some_0 + 0x10000 * self.1->Some_0,
    {
        match (self.0, self.1) {
            (Some(lo), Some(hi)) => Some(lo as u32 + 0x10000u32 * hi as u32),
            _ => None,
        }
    }
}

/// A round word's spread form as two 32-bit halves, each known or not.
pub struct RoundWordSpread(pub Option<u32>, pub Option<u32>);

impl RoundWordSpread {
    /// The spread word `lo + 2^32 * hi`, known when both halves are.
    pub fn value(&self) -> (v: Option<u64>)
        ensures
            v == match (self.0, self.1) {
                (Some(lo), Some(hi)) => Some((lo + 0x1_0000_0000 * hi) as u64),
                _ => None,
            },
            v matches Some(w) ==> w == self.0->Some_0 + 0x1_0000_0000 * self.1->Some_0,
    {
        match (self.0, self.1) {
            (Some(lo), Some(hi)) => Some(lo as u64 + 0x1_0000_0000u64 * hi as u64),
            _ => None,
        }
    }
}

} // verus!
