//! The 32-byte domain element of the SHA-256 hasher: a digest or Merkle tree node.

use vstd::prelude::*;
use vstd::std_specs::cmp::{PartialEqSpec, PartialEqSpecImpl, PartialOrdSpec, PartialOrdSpecImpl};
use vstd::std_specs::convert::FromSpecImpl;
use core::cmp::Ordering;
use crate::bits::{byte_at, bytes_agree, lemma_agree_all_eq};

verus! {

/// A SHA-256 digest or Merkle tree node, as 32 bytes.
#[derive(Clone, Copy, Hash, Eq, Ord)]
pub struct Sha256Domain {
    pub state: [u8; 32],
}

/// Lexicographic order of two byte strings of one length: the first differing byte decides.
pub open spec fn lex_order(a: Seq<u8>, b: Seq<u8>) -> Ordering {
    if a == b {
        Ordering::Equal
    } else {
        let k = choose|k: usize|
            k < a.len() && byte_at(a, k) != byte_at(b, k) && bytes_agree(a, b, k);
        if byte_at(a, k) < byte_at(b, k) {
            Ordering::Less
        } else {
            Ordering::Greater
        }
    }
}

impl PartialEq for Sha256Domain {
    fn eq(&self, other: &Self) -> (r: bool) {
        let mut k: usize = 0;
        while k < 32
            invariant
                k <= 32,
                self.state@.len() == 32,
                other.state@.len() == 32,
                bytes_agree(self.state@, other.state@, k),
            decreases 32 - k,
        {
            if self.state[k] != other.state[k] {
                return false;
            }
            k += 1;
        }
        proof {
            lemma_agree_all_eq(self.state@, other.state@, 32);
        }
        true
    }
}

impl PartialEqSpecImpl for Sha256Domain {
    open spec fn obeys_eq_spec() -> bool {
        true
    }

    open spec fn eq_spec(&self, other: &Self) -> bool {
        self.state@ == other.state@
    }
}

impl PartialOrd for Sha256Domain {
    fn partial_cmp(&self, other: &Self) -> (r: Option<Ordering>) {
        let mut k: usize = 0;
        while k < 32
            invariant
                k <= 32,
                self.state@.len() == 32,
                other.state@.len() == 32,
                bytes_agree(self.state@, other.state@, k),
            decreases 32 - k,
        {
            if self.state[k] != other.state[k] {
                proof {
                    lemma_first_difference(self.state@, other.state@, k);
                }
                if self.state[k] < other.state[k] {
                    return Some(Ordering::Less);
                } else {
                    return Some(Ordering::Greater);
                }
            }
            k += 1;
        }
        proof {
            lemma_agree_all_eq(self.state@, other.state@, 32);
        }
        Some(Ordering::Equal)
    }
}

impl PartialOrdSpecImpl for Sha256Domain {
    open spec fn obeys_partial_cmp_spec() -> bool {
        true
    }

    open spec fn partial_cmp_spec(&self, other: &Self) -> Option<Ordering> {
        Some(lex_order(self.state@, other.state@))
    }
}

/// The first differing byte of two byte strings is the one `lex_order` looks at.
proof fn lemma_first_difference(a: Seq<u8>, b: Seq<u8>, k: usize)
    requires
        a.len() == b.len(),
        k < a.len(),
        byte_at(a, k) != byte_at(b, k),
        bytes_agree(a, b, k),
    ensures
        a != b,
        lex_order(a, b) == if byte_at(a, k) < byte_at(b, k) {
            Ordering::Less
        } else {
            Ordering::Greater
        },
{
    let j = choose|j: usize| j < a.len() && byte_at(a, j) != byte_at(b, j) && bytes_agree(a, b, j);
    assert(j < a.len() && byte_at(a, j) != byte_at(b, j) && bytes_agree(a, b, j));
    if j < k {
        assert(byte_at(a, j) == byte_at(b, j));
    }
    if k < j {
        assert(byte_at(a, k) == byte_at(b, k));
    }
}

impl From<[u8; 32]> for Sha256Domain {
    fn from(bytes: [u8; 32]) -> (d: Self) {
        Sha256Domain { state: bytes }
    }
}

impl FromSpecImpl<[u8; 32]> for Sha256Domain {
    open spec fn obeys_from_spec() -> bool {
        true
    }

    open spec fn from_spec(bytes: [u8; 32]) -> Self {
        Sha256Domain { state: bytes }
    }
}

impl From<Sha256Domain> for [u8; 32] {
    fn from(domain: Sha256Domain) -> (bytes: Self) {
        domain.state
    }
}

impl FromSpecImpl<Sha256Domain> for [u8; 32] {
    open spec fn obeys_from_spec() -> bool {
        true
    }

    open spec fn from_spec(domain: Sha256Domain) -> Self {
        domain.state
    }
}

impl Default for Sha256Domain {
    fn default() -> (d: Self)
        ensures
            d.state@ == Seq::new(32, |i: int| 0u8),
    {
        let d = Sha256Domain { state: [0u8; 32] };
        assert(d.state@ =~= Seq::new(32, |i: int| 0u8));
        d
    }
}

/// Two elements compare `Equal` exactly when they are equal, and otherwise the order is
/// antisymmetric.
pub proof fn lemma_lex_order_consistent(a: Sha256Domain, b: Sha256Domain)
    ensures
        (lex_order(a.state@, b.state@) == Ordering::Equal) <==> a.state@ == b.state@,
        lex_order(a.state@, b.state@) == Ordering::Less <==> lex_order(b.state@, a.state@)
            == Ordering::Greater,
{
    let x = a.state@;
    let y = b.state@;
    if x != y {
        let k = choose|k: usize| k < x.len() && byte_at(x, k) != byte_at(y, k) && bytes_agree(x, y, k);
        assert(exists|k: usize| k < x.len() && byte_at(x, k) != byte_at(y, k) && bytes_agree(x, y, k)) by {
            lemma_some_difference(x, y);
        }
        lemma_first_difference(x, y, k);
        assert(bytes_agree(y, x, k));
        lemma_first_difference(y, x, k);
    }
}

/// `==` on elements is equality of the elements, which is equality of all 32 bytes: two
/// elements differing in any one byte are unequal.
pub proof fn lemma_eq_is_byte_equality(a: Sha256Domain, b: Sha256Domain)
    ensures
        PartialEqSpec::eq_spec(&a, &b) <==> a == b,
        PartialEqSpec::eq_spec(&a, &b) <==> (forall|k: usize|
            k < 32 ==> #[trigger] byte_at(a.state@, k) == byte_at(b.state@, k)),
{
    if forall|k: usize| k < 32 ==> #[trigger] byte_at(a.state@, k) == byte_at(b.state@, k) {
        assert(bytes_agree(a.state@, b.state@, 32));
        lemma_agree_all_eq(a.state@, b.state@, 32);
    }
    if a.state@ == b.state@ {
        assert(a.state =~= b.state);
    }
}

/// `partial_cmp` is the lexicographic order of the bytes: it is always defined; it is
/// `Equal` exactly for equal elements; and it is `Less` exactly when, at the first byte
/// where the two differ, `a`'s byte is the smaller.
pub proof fn lemma_partial_cmp_is_lexicographic(a: Sha256Domain, b: Sha256Domain)
    ensures
        PartialOrdSpec::partial_cmp_spec(&a, &b) is Some,
        PartialOrdSpec::partial_cmp_spec(&a, &b) == Some(Ordering::Equal) <==> a == b,
        PartialOrdSpec::partial_cmp_spec(&a, &b) == Some(Ordering::Less) <==> (exists|k: usize|
            k < 32 && bytes_agree(a.state@, b.state@, k) && #[trigger] byte_at(a.state@, k)
                < byte_at(b.state@, k)),
        PartialOrdSpec::partial_cmp_spec(&a, &b) == Some(Ordering::Greater) <==> (exists|k: usize|
            k < 32 && bytes_agree(a.state@, b.state@, k) && #[trigger] byte_at(a.state@, k)
                > byte_at(b.state@, k)),
{
    let x = a.state@;
    let y = b.state@;
    lemma_eq_is_byte_equality(a, b);
    if x == y {
        assert(a.state =~= b.state);
        assert forall|k: usize| k < 32 && bytes_agree(x, y, k) implies !(#[trigger] byte_at(x, k)
            < byte_at(y, k)) && !(byte_at(x, k) > byte_at(y, k)) by {}
    } else {
        lemma_some_difference(x, y);
        let k = choose|k: usize| k < x.len() && byte_at(x, k) != byte_at(y, k) && bytes_agree(x, y, k);
        lemma_first_difference(x, y, k);
        assert forall|j: usize| j < 32 && bytes_agree(x, y, j) && byte_at(x, j) != byte_at(
            y,
            j,
        ) implies j == k by {
            if j < k {
                assert(byte_at(x, j) == byte_at(y, j));
            }
            if k < j {
                assert(byte_at(x, k) == byte_at(y, k));
            }
        }
        if a == b {
            assert(x == y);
        }
    }
}

/// Two different 32-byte strings have a first differing byte.
proof fn lemma_some_difference(x: Seq<u8>, y: Seq<u8>)
    requires
        x.len() == 32,
        y.len() == 32,
        x != y,
    ensures
        exists|k: usize| k < x.len() && byte_at(x, k) != byte_at(y, k) && bytes_agree(x, y, k),
{
    if bytes_agree(x, y, 32) {
        lemma_agree_all_eq(x, y, 32);
    }
    lemma_first_difference_below(x, y, 32);
}

/// Strings that disagree within their first `n` bytes first differ below `n`.
proof fn lemma_first_difference_below(x: Seq<u8>, y: Seq<u8>, n: usize)
    requires
        n <= x.len(),
        !bytes_agree(x, y, n),
    ensures
        exists|k: usize| k < x.len() && byte_at(x, k) != byte_at(y, k) && bytes_agree(x, y, k),
    decreases n,
{
    let m = (n - 1) as usize;
    if bytes_agree(x, y, m) {
        assert(byte_at(x, m) != byte_at(y, m));
    } else {
        lemma_first_difference_below(x, y, m);
    }
}

} // verus!
