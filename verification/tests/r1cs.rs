use bellperson::gadgets::boolean::Boolean;
use bellperson::gadgets::multipack;
use bellperson::gadgets::num::AllocatedNum;
use bellperson::gadgets::sha256::sha256;
use bellperson::util_cs::test_cs::TestConstraintSystem;
use bellperson::ConstraintSystem;
use blstrs::Scalar as Fr;
use ff::{Field, PrimeField, PrimeFieldBits};
use fil_gadgets::sha256::Sha256Function;
use fil_gadgets::sha256_bits::{be_bits_in_le_byte_order, le_bits_in_be_byte_order};
use fil_gadgets::sha256_domain::Sha256Domain;
use pasta_curves::{Fp, Fq};

/// Runs the circuits' data path on bellperson's gadget: each leaf's little-endian bits in
/// the preimage order, SHA-256, the digest read back in the digest order and packed.
fn circuit_digest<F: PrimeFieldBits>(leaves: &[F]) -> F {
    let mut cs = TestConstraintSystem::<F>::new();
    let mut preimage: Vec<Boolean> = Vec::new();
    for (i, leaf) in leaves.iter().enumerate() {
        let num = AllocatedNum::alloc(cs.namespace(|| format!("leaf {}", i)), || Ok(*leaf)).unwrap();
        let bits = num.to_bits_le(cs.namespace(|| format!("leaf {} bits", i))).unwrap();
        preimage.extend(le_bits_in_be_byte_order(bits.len()).into_iter().map(|p| match p {
            Some(k) => bits[k].clone(),
            None => Boolean::Constant(false),
        }));
    }
    let out = sha256(cs.namespace(|| "hash"), &preimage).unwrap();
    let le: Vec<Boolean> = be_bits_in_le_byte_order(out.len(), F::CAPACITY as usize)
        .into_iter()
        .map(|k| out[k].clone())
        .collect();
    let packed = multipack::pack_bits(cs.namespace(|| "pack"), &le).unwrap();
    assert!(cs.is_satisfied());
    packed.get_value().unwrap()
}

fn repr_bytes<F: PrimeField>(f: &F) -> [u8; 32] {
    let mut bytes = [0u8; 32];
    bytes.copy_from_slice(f.to_repr().as_ref());
    bytes
}

#[test]
fn r1cs_multi_leaf_digest_is_the_hasher_digest_in_every_field() {
    let fr = circuit_digest(&[Fr::one()]);
    let fp = circuit_digest(&[Fp::one()]);
    let fq = circuit_digest(&[Fq::one()]);
    assert_eq!(repr_bytes(&fr), repr_bytes(&fp));
    assert_eq!(repr_bytes(&fr), repr_bytes(&fq));
    let expected = Sha256Function::hash_data(&repr_bytes(&Fr::one()));
    assert_eq!(repr_bytes(&fr), expected.state);
}

#[test]
fn r1cs_two_leaf_digest_is_hash2() {
    let a = Fp::from(0x1234_5678u64);
    let b = Fp::from(55u64);
    let got = circuit_digest(&[a, b]);
    let expected = Sha256Function::hash2(
        &Sha256Domain::from(repr_bytes(&a)),
        &Sha256Domain::from(repr_bytes(&b)),
    );
    assert_eq!(repr_bytes(&got), expected.state);
    let three = circuit_digest(&[Fr::from(7u64), Fr::from(8u64), Fr::from(9u64)]);
    let mut data = Vec::new();
    for v in [7u64, 8, 9] {
        data.extend_from_slice(&repr_bytes(&Fr::from(v)));
    }
    assert_eq!(repr_bytes(&three), Sha256Function::hash_data(&data).state);
}
