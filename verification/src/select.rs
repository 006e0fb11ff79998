//! Picking an element of a power-of-two sized array by its little-endian index bits,
//! halving the array once per bit from the most significant bit down.

use vstd::prelude::*;
use vstd::arithmetic::power2::*;
use crate::bits::{bits_value, lemma_bits_value_bound};

verus! {

/// Returns `arr[i]` where `i` is the number whose little-endian bits are `index_bits`.
///
/// The array is halved once per index bit, starting at the most significant bit: the
/// element `j` of the next array is `arr[half + j]` when the bit is set and `arr[j]`
/// otherwise.
pub fn select<T: Copy>(arr: &[T], index_bits: &[bool]) -> (out: T)
    requires
        arr@.len() == pow2(index_bits@.len() as nat),
    ensures
        bits_value(index_bits@) < arr@.len(),
        out == arr@[bits_value(index_bits@) as int],
{
    proof {
        lemma_bits_value_bound(index_bits@);
        lemma_pow2_pos(index_bits@.len() as nat);
    }
    let ghost orig = arr@;
    let ghost bits = index_bits@;
    let mut cur: Vec<T> = Vec::new();
    let mut i: usize = 0;
    while i < arr.len()
        invariant
            i <= arr@.len(),
            cur@ == arr@.take(i as int),
        decreases arr@.len() - i,
    {
        cur.push(arr[i]);
        i += 1;
        assert(cur@ =~= arr@.take(i as int));
    }
    assert(arr@.take(arr@.len() as int) =~= arr@);
    assert(bits.take(bits.len() as int) =~= bits);
    let mut m: usize = index_bits.len();
    while m > 0
        invariant
            m <= bits.len(),
            bits == index_bits@,
            orig == arr@,
            orig.len() == pow2(bits.len() as nat),
            cur@.len() == pow2(m as nat),
            bits_value(bits) >= bits_value(bits.take(m as int)),
            (bits_value(bits) - bits_value(bits.take(m as int))) + pow2(m as nat) <= orig.len(),
            forall|j: int|
                0 <= j < cur@.len() ==> #[trigger] cur@[j] == orig[j + (bits_value(bits)
                    - bits_value(bits.take(m as int)))],
        decreases m,
    {
        let ghost off = bits_value(bits) - bits_value(bits.take(m as int));
        let bit = index_bits[m - 1];
        let len = cur.len();
        let half = len / 2;
        proof {
            lemma_pow2_unfold(m as nat);
            assert(bits.take(m as int).drop_last() =~= bits.take(m - 1));
            assert(bits.take(m as int).last() == bit);
            assert(half == pow2((m - 1) as nat));
        }
        let mut next: Vec<T> = Vec::new();
        let mut j: usize = 0;
        while j < half
            invariant
                j <= half,
                half * 2 == cur@.len(),
                half * 2 <= usize::MAX,
                next@.len() == j,
                forall|k: int|
                    0 <= k < j ==> #[trigger] next@[k] == if bit {
                        cur@[half + k]
                    } else {
                        cur@[k]
                    },
            decreases half - j,
        {
            if bit {
                next.push(cur[half + j]);
            } else {
                next.push(cur[j]);
            }
            j += 1;
        }
        let ghost new_off = bits_value(bits) - bits_value(bits.take(m - 1));
        assert(new_off == off + if bit { half as int } else { 0 });
        assert forall|k: int| 0 <= k < next@.len() implies #[trigger] next@[k] == orig[k + new_off] by {
            if bit {
                assert(cur@[half + k] == orig[half + k + off]);
            } else {
                assert(cur@[k] == orig[k + off]);
            }
        }
        cur = next;
        m -= 1;
    }
    assert(bits.take(0) =~= Seq::<bool>::empty());
    proof {
        lemma2_to64();
    }
    assert(cur@[0] == orig[bits_value(bits) as int]);
    cur[0]
}

} // verus!
