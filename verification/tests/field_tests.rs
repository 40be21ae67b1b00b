use frida::field::{FieldElement, FIELD_BYTES, INV_2, P};

#[test]
fn reduction_and_representatives() {
    assert_eq!(FieldElement::from_u64(P).to_u64(), 0);
    assert_eq!(FieldElement::from_u64(P - 1).to_u64(), P - 1);
    assert_eq!(FieldElement::zero().to_u64(), 0);
    assert_eq!(FieldElement::one().to_u64(), 1);
}

#[test]
fn arithmetic_wraps_at_the_modulus() {
    let a = FieldElement::from_u64(P - 1);
    let b = FieldElement::from_u64(2);
    assert_eq!(a.add(b).to_u64(), 1);
    assert_eq!(b.sub(a).to_u64(), 3);
    let c = FieldElement::from_u64(1 << 32);
    // (2^32)^2 = 2^64 = P + 2^32 - 1, so the square reduces to 2^32 - 1.
    assert_eq!(c.mul(c).to_u64(), (1 << 32) - 1);
}

#[test]
fn halving_then_doubling_restores_the_value() {
    let inv2 = FieldElement::inv_two();
    assert_eq!(inv2.to_u64(), INV_2);
    for x in [0u64, 1, 2, 7, P - 1, 123456789123456789] {
        let v = FieldElement::from_u64(x);
        assert_eq!(v.mul(inv2).double(), v);
    }
}

#[test]
fn serialization_is_fixed_width_little_endian() {
    let v = FieldElement::from_u64(0x0102030405060708);
    let bytes = v.serialize();
    assert_eq!(bytes.len(), FIELD_BYTES);
    assert_eq!(bytes, vec![8, 7, 6, 5, 4, 3, 2, 1]);
}

#[test]
fn domain_elements_pair_with_their_inverses() {
    let g = frida::group::Radix2Group::new(4);
    assert_eq!(g.size(), 16);
    assert_eq!(g.element_at(0).to_u64(), 1);
    let one = FieldElement::one();
    for i in 0..16 {
        assert_eq!(g.element_at(i).mul(g.element_inv_at(i)), one);
    }
}

#[test]
fn fft_of_a_constant_polynomial_is_constant() {
    let g = frida::group::Radix2Group::new(3);
    let c = FieldElement::from_u64(42);
    let evals = g.fft(vec![c]);
    assert_eq!(evals.len(), 8);
    for e in evals {
        assert_eq!(e, c);
    }
}
