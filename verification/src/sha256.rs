//! The SHA-256 hasher of Merkle tree nodes: digests trimmed to 254 bits so that they fit
//! in the ~255-bit fields `Fr`, `Fp` and `Fq`, and the bit orders in which the R1CS
//! circuits feed the SHA-256 gadget and read its digest back.

use vstd::prelude::*;
use vstd::arithmetic::power2::*;
use vstd::arithmetic::mul::*;
use vstd::std_specs::convert::FromSpec;
use vstd::string::*;
use sha2::Digest;
use crate::bits::{bytes_value, lemma_bytes_value_bound, lemma_bytes_value_concat};
use crate::sha256_domain::Sha256Domain;

verus! {

/// SHA-256 of a byte string.
pub uninterp spec fn sha256(data: Seq<u8>) -> Seq<u8>;

/// `sha2::Sha256::digest`: the 32-byte SHA-256 digest of `data`, named `sha256(data)`.
#[verifier::external_body]
pub(crate) fn sha256_digest(data: &[u8]) -> (digest: [u8; 32])
    ensures
        digest@ == sha256(data@),
{
    <sha2::Sha256 as Digest>::digest(data).into()
}

/// The streaming state of a `sha2::Sha256` hasher, held opaque: Verus sees only the bytes
/// it has absorbed, `sha256_absorbed`.
#[verifier::external_body]
pub struct Sha256State {
    inner: sha2::Sha256,
}

impl Clone for Sha256State {
    /// `<sha2::Sha256 as Clone>::clone`: a state that has absorbed the same bytes.
    #[verifier::external_body]
    fn clone(&self) -> (copy: Self)
        ensures
            sha256_absorbed(copy) == sha256_absorbed(*self),
    {
        Sha256State { inner: self.inner.clone() }
    }
}

/// The bytes that a SHA-256 state has absorbed since it was made or last reset.
pub uninterp spec fn sha256_absorbed(state: Sha256State) -> Seq<u8>;

/// `<sha2::Sha256 as Digest>::new`: a state that has absorbed nothing.
#[verifier::external_body]
fn sha256_state_new() -> (state: Sha256State)
    ensures
        sha256_absorbed(state) == Seq::<u8>::empty(),
{
    Sha256State { inner: <sha2::Sha256 as Digest>::new() }
}

/// `<sha2::Sha256 as Digest>::update`: the state absorbs `data` after what it absorbed.
#[verifier::external_body]
fn sha256_state_update(state: &mut Sha256State, data: &[u8])
    ensures
        sha256_absorbed(*final(state)) == sha256_absorbed(*old(state)) + data@,
{
    state.inner.update(data)
}

/// `<sha2::Sha256 as Digest>::finalize` on a clone of the state: the SHA-256 digest of
/// the bytes absorbed, `sha256(absorbed)` (the crate's `digest(data)` is exactly a new
/// state, `update(data)`, `finalize`); the state itself is left as it is.
#[verifier::external_body]
fn sha256_state_finalize(state: &Sha256State) -> (digest: [u8; 32])
    ensures
        digest@ == sha256(sha256_absorbed(*state)),
{
    state.inner.clone().finalize().into()
}

/// `<sha2::Sha256 as Digest>::reset`: the state forgets what it absorbed.
#[verifier::external_body]
fn sha256_state_reset(state: &mut Sha256State)
    ensures
        sha256_absorbed(*final(state)) == Seq::<u8>::empty(),
{
    <sha2::Sha256 as Digest>::reset(&mut state.inner)
}

/// The lower-case hexadecimal digit of a nibble.
pub open spec fn hex_digit(n: u8) -> char {
    seq!['0', '1', '2', '3', '4', '5', '6', '7', '8', '9', 'a', 'b', 'c', 'd', 'e', 'f'][n as int]
}

/// Lower-case hexadecimal text of a byte string, high nibble first.
pub open spec fn hex_lower(b: Seq<u8>) -> Seq<char>
    decreases b.len(),
{
    if b.len() == 0 {
        Seq::empty()
    } else {
        hex_lower(b.drop_last()) + seq![hex_digit(b.last() / 16), hex_digit(b.last() % 16)]
    }
}

/// `hex::encode`: the bytes in lower-case hexadecimal, two digits per byte, high nibble
/// first.
#[verifier::external_body]
fn hex_encode(bytes: &[u8]) -> (text: String)
    ensures
        text@ == hex_lower(bytes@),
{
    hex::encode(bytes)
}

/// The bytes with the two most significant bits of the last byte cleared.
pub open spec fn trimmed(s: Seq<u8>) -> Seq<u8> {
    s.update(31, s[31] & 0x3f)
}

/// The domain element of a digest: the digest trimmed to 254 bits.
pub open spec fn digest_domain(data: Seq<u8>) -> Seq<u8> {
    trimmed(sha256(data))
}

impl Sha256Domain {
    /// Strips the last (most significant) two bits, so that the element lies within the
    /// ~255-bit fields `Fr`, `Fp` and `Fq`, which fully use 254 bits.
    pub fn trim_to_fr32(&mut self)
        ensures
            final(self).state@ == trimmed(old(self).state@),
    {
        self.state[31] = self.state[31] & 0b0011_1111;
    }

    /// The number of bytes of an element.
    pub fn byte_len() -> (n: usize)
        ensures
            n == 32,
    {
        32
    }

    /// The element made of `bytes`, which must be exactly 32 bytes.
    pub fn from_slice(bytes: &[u8]) -> (d: Self)
        requires
            bytes@.len() == 32,
        ensures
            d.state@ == bytes@,
    {
        let mut state = [0u8; 32];
        let mut i: usize = 0;
        while i < 32
            invariant
                i <= 32,
                bytes@.len() == 32,
                forall|k: int| 0 <= k < i ==> state@[k] == bytes@[k],
            decreases 32 - i,
        {
            state[i] = bytes[i];
            i += 1;
        }
        assert(state@ =~= bytes@);
        Sha256Domain { state }
    }

    /// Copies the element into `bytes`, which must be exactly 32 bytes.
    pub fn copy_to_slice(&self, bytes: &mut [u8])
        requires
            old(bytes)@.len() == 32,
        ensures
            final(bytes)@ == self.state@,
    {
        let mut i: usize = 0;
        while i < 32
            invariant
                i <= 32,
                bytes@.len() == 32,
                forall|k: int| 0 <= k < i ==> bytes@[k] == self.state@[k],
            decreases 32 - i,
        {
            bytes[i] = self.state[i];
            i += 1;
        }
        assert(bytes@ =~= self.state@);
    }

    /// The bytes of the element.
    pub fn as_bytes(&self) -> (b: &[u8])
        ensures
            b@ == self.state@,
    {
        self.state.as_slice()
    }

    /// The debug text of the element: `Sha256Domain(<lower-case hex of the bytes>)`.
    pub fn debug_string(&self) -> (text: String)
        ensures
            text@ == "Sha256Domain("@ + hex_lower(self.state@) + ")"@,
    {
        let hex = hex_encode(self.state.as_slice());
        let mut text = String::from_str("Sha256Domain(");
        text.append(hex.as_str());
        text.append(")");
        text
    }
}

/// Returns the element whose bytes are `digest` trimmed to 254 bits.
fn trimmed_domain(digest: [u8; 32]) -> (d: Sha256Domain)
    ensures
        d.state@ == trimmed(digest@),
{
    let mut d = Sha256Domain { state: digest };
    d.trim_to_fr32();
    d
}

/// An incremental SHA-256 hasher of domain elements: it streams the bytes written since it
/// was made or last reset into a SHA-256 state, and hashes them into a trimmed domain
/// element on request.
#[derive(Clone)]
pub struct Sha256Function {
    hasher: Sha256State,
}

impl View for Sha256Function {
    type V = Seq<u8>;

    /// The bytes written since the hasher was made or last reset.
    closed spec fn view(&self) -> Seq<u8> {
        sha256_absorbed(self.hasher)
    }
}

impl Sha256Function {
    /// A hasher that has been written nothing.
    pub fn new() -> (h: Self)
        ensures
            h@ == Seq::<u8>::empty(),
    {
        Sha256Function { hasher: sha256_state_new() }
    }

    /// Writes `msg` to the hasher.
    pub fn write(&mut self, msg: &[u8])
        ensures
            final(self)@ == old(self)@ + msg@,
    {
        sha256_state_update(&mut self.hasher, msg);
    }

    /// Writes the bytes of `domain` to the hasher.
    pub fn write_domain(&mut self, domain: &Sha256Domain)
        ensures
            final(self)@ == old(self)@ + domain.state@,
    {
        self.write(domain.as_bytes());
    }

    /// The trimmed digest of everything written so far; the hasher is left as it is.
    pub fn hash(&mut self) -> (d: Sha256Domain)
        ensures
            final(self)@ == old(self)@,
            sha256(old(self)@).len() == 32,
            d.state@ == digest_domain(old(self)@),
    {
        trimmed_domain(sha256_state_finalize(&self.hasher))
    }

    /// Forgets everything written so far.
    pub fn reset(&mut self)
        ensures
            final(self)@ == Seq::<u8>::empty(),
    {
        sha256_state_reset(&mut self.hasher);
    }

    /// A leaf is its own hash.
    pub fn leaf(&mut self, leaf: Sha256Domain) -> (d: Sha256Domain)
        ensures
            final(self)@ == old(self)@,
            d == leaf,
    {
        leaf
    }

    /// Writes `left` then `right` and returns the trimmed digest of everything written.
    pub fn node(&mut self, left: Sha256Domain, right: Sha256Domain, height: usize) -> (d:
        Sha256Domain)
        ensures
            final(self)@ == old(self)@ + left.state@ + right.state@,
            sha256(final(self)@).len() == 32,
            d.state@ == digest_domain(final(self)@),
    {
        self.write_domain(&left);
        self.write_domain(&right);
        self.hash()
    }

    /// Writes each of `parts` in order and returns the trimmed digest of everything written.
    pub fn multi_node(&mut self, parts: &[Sha256Domain], height: usize) -> (d: Sha256Domain)
        ensures
            final(self)@ == old(self)@ + domains_bytes(parts@),
            sha256(final(self)@).len() == 32,
            d.state@ == digest_domain(final(self)@),
    {
        let mut i: usize = 0;
        while i < parts.len()
            invariant
                i <= parts@.len(),
                self@ == old(self)@ + domains_bytes(parts@.take(i as int)),
            decreases parts@.len() - i,
        {
            self.write_domain(&parts[i]);
            assert(parts@.take(i + 1).drop_last() =~= parts@.take(i as int));
            assert(self@ =~= old(self)@ + domains_bytes(parts@.take(i + 1)));
            i += 1;
        }
        assert(parts@.take(parts@.len() as int) =~= parts@);
        self.hash()
    }

    /// The trimmed digest of `data`.
    pub fn hash_data(data: &[u8]) -> (d: Sha256Domain)
        ensures
            sha256(data@).len() == 32,
            d.state@ == digest_domain(data@),
    {
        trimmed_domain(sha256_digest(data))
    }

    /// The trimmed digest of `a` followed by `b`.
    pub fn hash2(a: &Sha256Domain, b: &Sha256Domain) -> (d: Sha256Domain)
        ensures
            sha256(a.state@ + b.state@).len() == 32,
            d.state@ == digest_domain(a.state@ + b.state@),
    {
        let mut state = sha256_state_new();
        sha256_state_update(&mut state, a.as_bytes());
        sha256_state_update(&mut state, b.as_bytes());
        assert(Seq::<u8>::empty() + a.state@ + b.state@ =~= a.state@ + b.state@);
        trimmed_domain(sha256_state_finalize(&state))
    }
}

/// Trimming keeps the value of a 32-byte string modulo `2^254`; so every trimmed digest
/// is below `2^254` and fits the fields `Fr`, `Fp` and `Fq`.
pub proof fn lemma_trimmed_value(s: Seq<u8>)
    requires
        s.len() == 32,
    ensures
        bytes_value(trimmed(s)) == bytes_value(s) % pow2(254),
        bytes_value(trimmed(s)) < pow2(254),
{
    let p = s.take(31);
    let x = s[31];
    let y = x & 0x3f;
    assert(y == x % 64) by (bit_vector)
        requires
            y == x & 0x3f,
    ;
    assert(s =~= p + seq![x]);
    assert(trimmed(s) =~= p + seq![y]);
    lemma_bytes_value_concat(p, seq![x]);
    lemma_bytes_value_concat(p, seq![y]);
    lemma_one_byte_value(x);
    lemma_one_byte_value(y);
    lemma_bytes_value_bound(p);
    lemma_pow2_adds(248, 6);
    lemma2_to64();
    let lo = bytes_value(p) + pow2(248) * (y as nat);
    assert(lo < pow2(254)) by (nonlinear_arith)
        requires
            lo == bytes_value(p) + pow2(248) * (y as nat),
            bytes_value(p) < pow2(248),
            y < 64,
            pow2(254) == pow2(248) * 64,
    ;
    assert(bytes_value(s) == lo + pow2(254) * ((x / 64) as nat)) by (nonlinear_arith)
        requires
            bytes_value(s) == bytes_value(p) + pow2(248) * (x as nat),
            lo == bytes_value(p) + pow2(248) * (y as nat),
            y == x % 64,
            x == 64 * (x / 64) + x % 64,
            pow2(254) == pow2(248) * 64,
    ;
    lemma_pow2_pos(254);
    vstd::arithmetic::div_mod::lemma_mod_multiples_vanish(
        (x / 64) as int,
        lo as int,
        pow2(254) as int,
    );
    vstd::arithmetic::div_mod::lemma_small_mod(lo, pow2(254));
}

/// The value of a one-byte string is the byte.
proof fn lemma_one_byte_value(x: u8)
    ensures
        bytes_value(seq![x]) == x,
{
    lemma2_to64();
    assert(seq![x].drop_last() =~= Seq::<u8>::empty());
    assert(seq![x].last() == x);
    assert(bytes_value(Seq::<u8>::empty()) == 0);
    assert(bytes_value(seq![x]) == bytes_value(Seq::<u8>::empty()) + (x as nat) * pow2(0));
}

/// Trimming twice is trimming once.
pub proof fn lemma_trim_idempotent(s: Seq<u8>)
    requires
        s.len() == 32,
    ensures
        trimmed(trimmed(s)) == trimmed(s),
{
    let x = s[31];
    assert((x & 0x3f) & 0x3f == x & 0x3f) by (bit_vector);
    assert(trimmed(trimmed(s)) =~= trimmed(s));
}

/// Turning bytes into an element and back gives the bytes.
pub proof fn lemma_domain_bytes_round_trip(bytes: [u8; 32])
    ensures
        <[u8; 32] as FromSpec<Sha256Domain>>::from_spec(
            <Sha256Domain as FromSpec<[u8; 32]>>::from_spec(bytes),
        ) == bytes,
{
}

/// `hash2(a, b)` is the digest that `node(a, b)` returns on a hasher that was written
/// nothing, and `hash_data(d)` the one that `hash` returns after writing `d` to such a
/// hasher.
pub proof fn lemma_fresh_hasher_digests(a: Sha256Domain, b: Sha256Domain, data: Seq<u8>)
    ensures
        digest_domain(Seq::<u8>::empty() + a.state@ + b.state@) == digest_domain(a.state@
            + b.state@),
        digest_domain(Seq::<u8>::empty() + data) == digest_domain(data),
        domains_bytes(seq![a, b]) == a.state@ + b.state@,
{
    assert(Seq::<u8>::empty() + a.state@ + b.state@ =~= a.state@ + b.state@);
    assert(Seq::<u8>::empty() + data =~= data);
    assert(seq![a, b].drop_last() =~= seq![a]);
    assert(seq![a].drop_last() =~= Seq::<Sha256Domain>::empty());
    assert(seq![a].last() == a && seq![a, b].last() == b);
    assert(domains_bytes(Seq::<Sha256Domain>::empty()) == Seq::<u8>::empty());
    assert(domains_bytes(seq![a]) == domains_bytes(seq![a].drop_last()) + seq![a].last().state@);
    assert(Seq::<u8>::empty() + a.state@ =~= a.state@);
    assert(domains_bytes(seq![a]) =~= a.state@);
    assert(domains_bytes(seq![a, b]) =~= a.state@ + b.state@);
}

impl Default for Sha256Function {
    /// A hasher that has been written nothing.
    fn default() -> (h: Self)
        ensures
            h@ == Seq::<u8>::empty(),
    {
        Sha256Function::new()
    }
}

/// The bytes of a sequence of domain elements, in order.
pub open spec fn domains_bytes(parts: Seq<Sha256Domain>) -> Seq<u8>
    decreases parts.len(),
{
    if parts.len() == 0 {
        Seq::empty()
    } else {
        domains_bytes(parts.drop_last()) + parts.last().state@
    }
}

/// The bytes of a sequence of domain elements are every element's 32 bytes in order:
/// element `i` fills bytes `32i .. 32i + 32`, and appending an element appends its bytes.
pub proof fn lemma_domains_bytes_layout(parts: Seq<Sha256Domain>, x: Sha256Domain)
    ensures
        domains_bytes(parts).len() == 32 * parts.len(),
        forall|i: int|
            0 <= i < parts.len() ==> #[trigger] domains_bytes(parts).subrange(32 * i, 32 * i + 32)
                == parts[i].state@,
        domains_bytes(parts.push(x)) == domains_bytes(parts) + x.state@,
    decreases parts.len(),
{
    assert(parts.push(x).drop_last() =~= parts);
    if parts.len() > 0 {
        let init = parts.drop_last();
        lemma_domains_bytes_layout(init, parts.last());
        let d = domains_bytes(parts);
        assert(d == domains_bytes(init) + parts.last().state@);
        assert forall|i: int| 0 <= i < parts.len() implies #[trigger] d.subrange(32 * i, 32 * i + 32)
            == parts[i].state@ by {
            if i < parts.len() - 1 {
                assert(init[i] == parts[i]);
                assert(domains_bytes(init).subrange(32 * i, 32 * i + 32) == init[i].state@);
                assert(d.subrange(32 * i, 32 * i + 32) =~= domains_bytes(init).subrange(
                    32 * i,
                    32 * i + 32,
                ));
            } else {
                assert(d.subrange(32 * i, 32 * i + 32) =~= parts.last().state@);
            }
        }
    }
}

/// The name of the SHA-256 hasher.
pub const HASHER_NAME: &'static str = "sha256_hasher";

/// The SHA-256 hasher family.
#[derive(Clone, Copy, Default)]
pub struct Sha256Hasher {}

impl Sha256Hasher {
    /// The hasher's name, `sha256_hasher`.
    pub fn name() -> (name: String)
        ensures
            name@ == HASHER_NAME@,
    {
        HASHER_NAME.to_owned()
    }
}

} // verus!
