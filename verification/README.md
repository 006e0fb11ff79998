# fil_gadgets

Verified data logic of Filecoin's SHA-256 Merkle hasher, the Halo2 SHA-256/`u32`
gadgets and the Window PoSt public inputs, written in Verus.

- `src/bits.rs` — little-endian bit and byte strings and the integers they denote.
- `src/sha256_domain.rs`, `src/sha256.rs` — the 32-byte domain element, trimming to
  254 bits, the incremental hasher and the hasher's name.
- `src/sha256_bits.rs` — the bit orders around the R1CS SHA-256 gadget. It proves that the
  circuits feed the gadget the same bytes the hasher hashes and pack the trimmed digest
  back, on the hypothesis that bellperson's gadget computes SHA-256 (the gadget itself is
  not verified here).
- `src/compression.rs` — word pieces, spread forms and the `Σ_0`/`Σ_1` spread sums.
- `src/uint32.rs` — field representation to `u32` limbs and bits, packing, stripping.
- `src/select.rs` — selection of an array element by little-endian index bits.
- `src/window.rs` — Window PoSt challenges and public inputs.
- `src/election.rs` — the Election PoSt partial-ticket preimage.
- `app/` — field-typed wrappers, serde, Merkle tree traits and the R1CS circuits.
