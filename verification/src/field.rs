use vstd::prelude::*;
use vstd::arithmetic::div_mod::{
    lemma_mod_multiples_vanish, lemma_mul_mod_noop_left, lemma_small_mod,
};

verus! {

/// The prime modulus of the scalar field: 2^64 - 2^32 + 1.
pub const P: u64 = 0xffffffff00000001;

/// The multiplicative inverse of 2 modulo `P`, that is (P + 1) / 2.
pub const INV_2: u64 = 0x7fffffff80000001;

/// The number of bytes of a serialized field element.
pub const FIELD_BYTES: usize = 8;

/// One element of the prime field of order `P`, kept reduced: the
/// representative is always in `[0, P)`.
#[derive(Clone, Copy, PartialEq, Eq, Structural, Debug)]
pub struct FieldElement {
    v: u64,
}

impl FieldElement {
    /// The mathematical value of this element, as an integer in `[0, P)`.
    pub closed spec fn as_int(self) -> int {
        self.v as int
    }

    /// The representative is reduced modulo `P`.
    pub open spec fn wf(self) -> bool {
        0 <= self.as_int() < P as int
    }

    /// The zero of the field.
    pub fn zero() -> (r: FieldElement)
        ensures
            r.wf(),
            r.as_int() == 0,
    {
        FieldElement { v: 0 }
    }

    /// The one of the field.
    pub fn one() -> (r: FieldElement)
        ensures
            r.wf(),
            r.as_int() == 1,
    {
        FieldElement { v: 1 }
    }

    /// The element represented by `x`, reduced modulo `P`.
    pub fn from_u64(x: u64) -> (r: FieldElement)
        ensures
            r.wf(),
            r.as_int() == x as int % P as int,
    {
        FieldElement { v: x % P }
    }

    /// The inverse of two: the field scalar that undoes a doubling.
    pub fn inv_two() -> (r: FieldElement)
        ensures
            r.wf(),
            r.as_int() == INV_2 as int,
            (2 * r.as_int()) % (P as int) == 1,
    {
        FieldElement { v: INV_2 }
    }

    /// Field addition.
    pub fn add(self, other: FieldElement) -> (r: FieldElement)
        requires
            self.wf(),
            other.wf(),
        ensures
            r.wf(),
            r.as_int() == f_add(self.as_int(), other.as_int()),
    {
        let s: u128 = self.v as u128 + other.v as u128;
        let m: u128 = P as u128;
        let rv: u64 = if s >= m {
            (s - m) as u64
        } else {
            s as u64
        };
        proof {
            let a = self.as_int();
            let b = other.as_int();
            if a + b >= P as int {
                lemma_mod_multiples_vanish(1, a + b - P as int, P as int);
                lemma_small_mod((a + b - P as int) as nat, P as nat);
            } else {
                lemma_small_mod((a + b) as nat, P as nat);
            }
        }
        FieldElement { v: rv }
    }

    /// Field subtraction.
    pub fn sub(self, other: FieldElement) -> (r: FieldElement)
        requires
            self.wf(),
            other.wf(),
        ensures
            r.wf(),
            r.as_int() == f_sub(self.as_int(), other.as_int()),
    {
        let s: u128 = self.v as u128 + P as u128 - other.v as u128;
        let m: u128 = P as u128;
        let rv: u64 = if s >= m {
            (s - m) as u64
        } else {
            s as u64
        };
        proof {
            let a = self.as_int();
            let b = other.as_int();
            lemma_mod_multiples_vanish(1, a - b, P as int);
            if a - b >= 0 {
                lemma_small_mod((a - b) as nat, P as nat);
            } else {
                lemma_small_mod((a - b + P as int) as nat, P as nat);
            }
        }
        FieldElement { v: rv }
    }

    /// Field multiplication.
    pub fn mul(self, other: FieldElement) -> (r: FieldElement)
        requires
            self.wf(),
            other.wf(),
        ensures
            r.wf(),
            r.as_int() == f_mul(self.as_int(), other.as_int()),
    {
        proof {
            assert((self.v as int) * (other.v as int) < (P as int) * (P as int))
                by (nonlinear_arith)
                requires
                    0 <= self.v < P,
                    0 <= other.v < P,
            ;
        }
        let t: u128 = (self.v as u128) * (other.v as u128);
        let rv: u64 = (t % (P as u128)) as u64;
        FieldElement { v: rv }
    }

    /// Field doubling: the sum of the element with itself.
    pub fn double(self) -> (r: FieldElement)
        requires
            self.wf(),
        ensures
            r.wf(),
            r.as_int() == f_add(self.as_int(), self.as_int()),
    {
        self.add(self)
    }

    /// The fixed-width little-endian serialization of this element.
    pub fn serialize(self) -> (r: Vec<u8>)
        ensures
            r@ == ser_field(self.as_int()),
    {
        let mut out: Vec<u8> = Vec::new();
        out.push((self.v % 0x100) as u8);
        out.push(((self.v / 0x100) % 0x100) as u8);
        out.push(((self.v / 0x10000) % 0x100) as u8);
        out.push(((self.v / 0x1000000) % 0x100) as u8);
        out.push(((self.v / 0x100000000) % 0x100) as u8);
        out.push(((self.v / 0x10000000000) % 0x100) as u8);
        out.push(((self.v / 0x1000000000000) % 0x100) as u8);
        out.push(((self.v / 0x100000000000000) % 0x100) as u8);
        proof {
            assert(out@ =~= ser_field(self.as_int()));
        }
        out
    }

    /// Whether two elements hold the same value.
    pub fn eq_values(a: FieldElement, b: FieldElement) -> (r: bool)
        ensures
            r == (a.as_int() == b.as_int()),
    {
        a.v == b.v
    }

    /// The representative as a machine word, for callers outside the
    /// protocol (tests, transport).
    pub fn to_u64(self) -> (r: u64)
        ensures
            r as int == self.as_int(),
    {
        self.v
    }
}

/// Addition in the field, on integer representatives.
pub open spec fn f_add(a: int, b: int) -> int {
    (a + b) % (P as int)
}

/// Subtraction in the field, on integer representatives.
pub open spec fn f_sub(a: int, b: int) -> int {
    (a - b) % (P as int)
}

/// Multiplication in the field, on integer representatives.
pub open spec fn f_mul(a: int, b: int) -> int {
    (a * b) % (P as int)
}

/// The little-endian bytes of one field element.
pub open spec fn ser_field(x: int) -> Seq<u8> {
    seq![
        (x % 0x100) as u8,
        ((x / 0x100) % 0x100) as u8,
        ((x / 0x10000) % 0x100) as u8,
        ((x / 0x1000000) % 0x100) as u8,
        ((x / 0x100000000) % 0x100) as u8,
        ((x / 0x10000000000) % 0x100) as u8,
        ((x / 0x1000000000000) % 0x100) as u8,
        ((x / 0x100000000000000) % 0x100) as u8,
    ]
}

/// Every element of the sequence is a reduced field element.
pub open spec fn all_wf(s: Seq<FieldElement>) -> bool {
    forall|i: int| 0 <= i < s.len() ==> #[trigger] s[i].wf()
}

/// The integer representatives of a sequence of field elements.
pub open spec fn vals(s: Seq<FieldElement>) -> Seq<int> {
    Seq::new(s.len(), |i: int| s[i].as_int())
}

/// The concatenated fixed-width serialization of a vector of elements.
pub open spec fn ser_fields(s: Seq<FieldElement>) -> Seq<u8>
    decreases s.len(),
{
    if s.len() == 0 {
        Seq::empty()
    } else {
        ser_fields(s.drop_last()) + ser_field(s.last().as_int())
    }
}

/// Serializes a vector of field elements, fixed width each, in order.
pub fn serialize_fields(v: &Vec<FieldElement>) -> (r: Vec<u8>)
    ensures
        r@ == ser_fields(v@),
{
    let mut out: Vec<u8> = Vec::new();
    let mut i: usize = 0;
    while i < v.len()
        invariant
            i <= v@.len(),
            out@ == ser_fields(v@.take(i as int)),
        decreases v@.len() - i,
    {
        let mut bytes = v[i].serialize();
        out.append(&mut bytes);
        proof {
            assert(v@.take(i + 1).drop_last() =~= v@.take(i as int));
            assert(v@.take(i + 1).last() == v@[i as int]);
        }
        i = i + 1;
    }
    proof {
        assert(v@.take(v@.len() as int) =~= v@);
    }
    out
}

/// Two elements with the same value are the same element.
pub proof fn lemma_field_eq(a: FieldElement, b: FieldElement)
    ensures
        (a.as_int() == b.as_int()) == (a == b),
{
}

/// Halving a field value and then doubling it gives the value back:
/// the fold layers are stored halved, and a verifier that doubles its
/// recomputed fold value compares at the stored scale.
pub proof fn lemma_halve_then_double(x: int)
    requires
        0 <= x < P as int,
    ensures
        f_add(f_mul(x, INV_2 as int), f_mul(x, INV_2 as int)) == x,
{
    let m = P as int;
    let i2 = INV_2 as int;
    let h = f_mul(x, i2);
    assert(h + h == (x * i2 % m) * 2);
    lemma_mul_mod_noop_left(x * i2, 2, m);
    assert((x * i2) * 2 == m * x + x) by (nonlinear_arith)
        requires
            m == P as int,
            i2 == INV_2 as int,
    ;
    lemma_mod_multiples_vanish(x, x, m);
    lemma_small_mod(x as nat, m as nat);
}

} // verus!
