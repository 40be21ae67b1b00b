use vstd::prelude::*;
use vstd::arithmetic::power2::pow2;

use crate::field::{all_wf, f_add, f_mul, f_sub, vals, FieldElement, P};

verus! {

/// A generator of the largest power-of-two multiplicative subgroup of
/// the field: its order is 2^32.
pub const TWO_ADIC_ROOT: u64 = 0x185629dcda58878c;

/// `n` is a power of two.
pub open spec fn is_pow2(n: nat) -> bool
    decreases n,
{
    if n == 0 {
        false
    } else if n == 1 {
        true
    } else {
        n % 2 == 0 && is_pow2(n / 2)
    }
}

pub proof fn lemma_pow2_is_pow2(k: nat)
    ensures
        is_pow2(pow2(k)),
    decreases k,
{
    if k == 0 {
        assert(pow2(0) == 1) by {
            vstd::arithmetic::power2::lemma2_to64();
        }
    } else {
        vstd::arithmetic::power2::lemma_pow2_unfold(k);
        lemma_pow2_is_pow2((k - 1) as nat);
        assert(pow2(k) == 2 * pow2((k - 1) as nat));
        vstd::arithmetic::power2::lemma_pow2_pos((k - 1) as nat);
    }
}

/// `a` squared `k` times, in the field.
pub open spec fn sq_iter(a: int, k: nat) -> int
    decreases k,
{
    if k == 0 {
        a
    } else {
        sq_iter(f_mul(a, a), (k - 1) as nat)
    }
}

/// The `e`-th power of `a`, in the field.
pub open spec fn pow_spec(a: int, e: nat) -> int
    decreases e,
{
    if e == 0 {
        1
    } else {
        f_mul(a, pow_spec(a, (e - 1) as nat))
    }
}

/// The elements at even positions.
pub open spec fn seq_evens(c: Seq<int>) -> Seq<int> {
    Seq::new((c.len() / 2) as nat, |i: int| c[2 * i])
}

/// The elements at odd positions.
pub open spec fn seq_odds(c: Seq<int>) -> Seq<int> {
    Seq::new((c.len() / 2) as nat, |i: int| c[2 * i + 1])
}

/// The radix-two decimation-in-time transform of `c` under the root
/// `w`: the butterfly recursion that carries coefficients to
/// evaluations over the subgroup generated by `w`.
pub open spec fn fft_spec(c: Seq<int>, w: int) -> Seq<int>
    decreases c.len(),
{
    if c.len() <= 1 {
        c
    } else {
        let e = fft_spec(seq_evens(c), f_mul(w, w));
        let o = fft_spec(seq_odds(c), f_mul(w, w));
        let h = c.len() as int / 2;
        Seq::new(
            c.len(),
            |i: int|
                if i < h {
                    f_add(e[i], f_mul(pow_spec(w, i as nat), o[i]))
                } else {
                    f_sub(e[i - h], f_mul(pow_spec(w, (i - h) as nat), o[i - h]))
                },
        )
    }
}

/// A multiplicative subgroup of the field of power-of-two order,
/// held as the table of successive powers of its generator.
pub struct Radix2Group {
    log_size: usize,
    w: FieldElement,
    elements: Vec<FieldElement>,
}

impl Radix2Group {
    /// The order of the subgroup.
    pub closed spec fn spec_size(self) -> nat {
        self.elements@.len()
    }

    /// The integer values of the subgroup's elements, in generator-power order.
    pub closed spec fn els(self) -> Seq<int> {
        vals(self.elements@)
    }

    /// The integer value of the generator.
    pub closed spec fn gen(self) -> int {
        self.w.as_int()
    }

    pub closed spec fn spec_log_size(self) -> nat {
        self.log_size as nat
    }

    /// The table holds the successive powers of the generator, reduced.
    pub open spec fn wf(self) -> bool {
        &&& self.spec_size() == pow2(self.spec_log_size())
        &&& self.spec_log_size() <= 32
        &&& self.els().len() == self.spec_size()
        &&& 0 <= self.gen() < P as int
        &&& self.els()[0] == 1
        &&& forall|i: int|
            0 < i < self.els().len() ==> #[trigger] self.els()[i] == f_mul(
                self.els()[i - 1],
                self.gen(),
            )
        &&& forall|i: int| 0 <= i < self.els().len() ==> 0 <= #[trigger] self.els()[i] < P as int
    }

    /// The value of the element at position `i` of the inverse table:
    /// in a cyclic group of order `n`, the inverse of the `i`-th power
    /// of the generator is the `(n - i) mod n`-th.
    pub open spec fn inv_el(self, i: int) -> int {
        self.els()[(self.spec_size() - i) % self.spec_size() as int]
    }

    /// Builds the subgroup of order `2^log_size`: the generator is the
    /// two-adic root squared down to that order.
    pub fn new(log_size: usize) -> (r: Radix2Group)
        requires
            log_size <= 32,
            log_size < usize::BITS,
        ensures
            r.wf(),
            r.spec_log_size() == log_size,
            r.gen() == sq_iter(TWO_ADIC_ROOT as int, (32 - log_size) as nat),
    {
        let mut w = FieldElement::from_u64(TWO_ADIC_ROOT);
        let mut k: usize = 32 - log_size;
        proof {
            assert(TWO_ADIC_ROOT as int % P as int == TWO_ADIC_ROOT as int);
        }
        while k > 0
            invariant
                w.wf(),
                k <= 32 - log_size,
                sq_iter(w.as_int(), k as nat) == sq_iter(
                    TWO_ADIC_ROOT as int,
                    (32 - log_size) as nat,
                ),
            decreases k,
        {
            w = w.mul(w);
            k = k - 1;
        }
        let size: usize = 1usize << log_size;
        proof {
            vstd::bits::lemma_usize_pow2_no_overflow(log_size as nat);
            vstd::bits::lemma_usize_shl_is_mul(1, log_size as usize);
            assert(size as nat == pow2(log_size as nat));
            vstd::arithmetic::power2::lemma_pow2_pos(log_size as nat);
        }
        let mut elements: Vec<FieldElement> = Vec::new();
        let mut cur = FieldElement::one();
        let mut i: usize = 0;
        while i < size
            invariant
                cur.wf(),
                w.wf(),
                i <= size,
                elements@.len() == i,
                all_wf(elements@),
                i > 0 ==> elements@[0].as_int() == 1,
                forall|j: int|
                    0 < j < i ==> #[trigger] elements@[j].as_int() == f_mul(
                        elements@[j - 1].as_int(),
                        w.as_int(),
                    ),
                i == 0 ==> cur.as_int() == 1,
                i > 0 ==> cur.as_int() == f_mul(elements@[i - 1].as_int(), w.as_int()),
            decreases size - i,
        {
            elements.push(cur);
            cur = cur.mul(w);
            i = i + 1;
        }
        let r = Radix2Group { log_size, w, elements };
        proof {
            assert(forall|j: int|
                0 <= j < r.els().len() ==> #[trigger] r.els()[j] == r.elements@[j].as_int());
        }
        r
    }

    /// The order of the subgroup.
    pub fn size(&self) -> (r: usize)
        ensures
            r == self.spec_size(),
    {
        self.elements.len()
    }

    /// The element at position `i`: the `i`-th power of the generator.
    pub fn element_at(&self, i: usize) -> (r: FieldElement)
        requires
            self.wf(),
            i < self.spec_size(),
        ensures
            r.wf(),
            r.as_int() == self.els()[i as int],
    {
        proof {
            assert(self.els()[i as int] == self.elements@[i as int].as_int());
        }
        self.elements[i]
    }

    /// The inverse of the element at position `i`.
    pub fn element_inv_at(&self, i: usize) -> (r: FieldElement)
        requires
            self.wf(),
            i < self.spec_size(),
        ensures
            r.wf(),
            r.as_int() == self.inv_el(i as int),
    {
        let n = self.elements.len();
        let idx = if i == 0 {
            0
        } else {
            n - i
        };
        proof {
            if i == 0 {
                assert((n - i) % n as int == 0) by {
                    vstd::arithmetic::div_mod::lemma_mod_self_0(n as int);
                }
            } else {
                vstd::arithmetic::div_mod::lemma_small_mod((n - i) as nat, n as nat);
            }
            assert(self.els()[idx as int] == self.elements@[idx as int].as_int());
        }
        self.elements[idx]
    }

    /// Evaluates the polynomial with the given coefficients over the
    /// whole subgroup: coefficients in, evaluations out. Shorter
    /// coefficient vectors are zero-padded to the subgroup's order.
    pub fn fft(&self, coeffs: Vec<FieldElement>) -> (r: Vec<FieldElement>)
        requires
            self.wf(),
            all_wf(coeffs@),
            coeffs@.len() <= self.spec_size(),
        ensures
            r@.len() == self.spec_size(),
            all_wf(r@),
            vals(r@) == fft_spec(pad_spec(vals(coeffs@), self.spec_size()), self.gen()),
    {
        let n = self.elements.len();
        let ghost orig = coeffs@;
        let mut c = coeffs;
        while c.len() < n
            invariant
                all_wf(c@),
                c@.len() <= n,
                orig.len() <= c@.len(),
                forall|j: int| 0 <= j < orig.len() ==> #[trigger] c@[j] == orig[j],
                forall|j: int| orig.len() <= j < c@.len() ==> #[trigger] c@[j].as_int() == 0,
            decreases n - c@.len(),
        {
            c.push(FieldElement::zero());
        }
        proof {
            assert(vals(c@) =~= pad_spec(vals(orig), self.spec_size()));
            lemma_pow2_is_pow2(self.spec_log_size());
        }
        fft_rec(c, self.w)
    }
}

/// `s`, zero-padded on the right to length `n`.
pub open spec fn pad_spec(s: Seq<int>, n: nat) -> Seq<int>
    recommends
        s.len() <= n,
{
    Seq::new(n, |i: int| if i < s.len() { s[i] } else { 0int })
}

/// The butterfly recursion itself, on a power-of-two length vector.
fn fft_rec(c: Vec<FieldElement>, w: FieldElement) -> (r: Vec<FieldElement>)
    requires
        all_wf(c@),
        w.wf(),
        is_pow2(c@.len() as nat),
    ensures
        r@.len() == c@.len(),
        all_wf(r@),
        vals(r@) == fft_spec(vals(c@), w.as_int()),
    decreases c@.len(),
{
    let n = c.len();
    if n <= 1 {
        return c;
    }
    let h = n / 2;
    proof {
        assert(c@.len() as nat % 2 == 0 && is_pow2((c@.len() / 2) as nat));
    }
    let mut ev: Vec<FieldElement> = Vec::new();
    let mut od: Vec<FieldElement> = Vec::new();
    let mut i: usize = 0;
    while i < h
        invariant
            n == c@.len(),
            h == n / 2,
            n % 2 == 0,
            i <= h,
            all_wf(c@),
            ev@.len() == i,
            od@.len() == i,
            forall|j: int| 0 <= j < i ==> #[trigger] ev@[j] == c@[2 * j],
            forall|j: int| 0 <= j < i ==> #[trigger] od@[j] == c@[2 * j + 1],
        decreases h - i,
    {
        ev.push(c[2 * i]);
        od.push(c[2 * i + 1]);
        i = i + 1;
    }
    proof {
        assert(all_wf(ev@));
        assert(all_wf(od@));
        assert(vals(ev@) =~= seq_evens(vals(c@)));
        assert(vals(od@) =~= seq_odds(vals(c@)));
    }
    let w2 = w.mul(w);
    let e = fft_rec(ev, w2);
    let o = fft_rec(od, w2);
    let ghost target = fft_spec(vals(c@), w.as_int());
    let mut out: Vec<FieldElement> = Vec::new();
    let mut wp = FieldElement::one();
    let mut i: usize = 0;
    while i < h
        invariant
            h == n / 2,
            n == c@.len(),
            n % 2 == 0,
            n >= 2,
            i <= h,
            w.wf(),
            wp.wf(),
            all_wf(e@),
            all_wf(o@),
            e@.len() == h,
            o@.len() == h,
            vals(e@) == fft_spec(seq_evens(vals(c@)), f_mul(w.as_int(), w.as_int())),
            vals(o@) == fft_spec(seq_odds(vals(c@)), f_mul(w.as_int(), w.as_int())),
            target == fft_spec(vals(c@), w.as_int()),
            wp.as_int() == pow_spec(w.as_int(), i as nat),
            out@.len() == i,
            all_wf(out@),
            forall|j: int| 0 <= j < i ==> #[trigger] out@[j].as_int() == target[j],
        decreases h - i,
    {
        proof {
            assert(target[i as int] == f_add(
                vals(e@)[i as int],
                f_mul(pow_spec(w.as_int(), i as nat), vals(o@)[i as int]),
            ));
        }
        out.push(e[i].add(wp.mul(o[i])));
        proof {
            assert(f_mul(wp.as_int(), w.as_int()) == f_mul(w.as_int(), wp.as_int()));
        }
        wp = wp.mul(w);
        i = i + 1;
    }
    let mut wp = FieldElement::one();
    let mut i: usize = 0;
    while i < h
        invariant
            h == n / 2,
            n == c@.len(),
            n % 2 == 0,
            n >= 2,
            i <= h,
            w.wf(),
            wp.wf(),
            all_wf(e@),
            all_wf(o@),
            e@.len() == h,
            o@.len() == h,
            vals(e@) == fft_spec(seq_evens(vals(c@)), f_mul(w.as_int(), w.as_int())),
            vals(o@) == fft_spec(seq_odds(vals(c@)), f_mul(w.as_int(), w.as_int())),
            target == fft_spec(vals(c@), w.as_int()),
            wp.as_int() == pow_spec(w.as_int(), i as nat),
            out@.len() == h + i,
            all_wf(out@),
            forall|j: int| 0 <= j < h + i ==> #[trigger] out@[j].as_int() == target[j],
        decreases h - i,
    {
        proof {
            assert(target[h + i] == f_sub(
                vals(e@)[i as int],
                f_mul(pow_spec(w.as_int(), i as nat), vals(o@)[i as int]),
            ));
        }
        out.push(e[i].sub(wp.mul(o[i])));
        proof {
            assert(f_mul(wp.as_int(), w.as_int()) == f_mul(w.as_int(), wp.as_int()));
        }
        wp = wp.mul(w);
        i = i + 1;
    }
    proof {
        assert(vals(out@) =~= target);
    }
    out
}

} // verus!
