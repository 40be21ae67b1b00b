use vstd::prelude::*;
use vstd::arithmetic::power2::pow2;

use crate::field::{
    all_wf, f_add, f_mul, f_sub, ser_fields, serialize_fields, vals, FieldElement, FIELD_BYTES,
    INV_2,
};
use crate::group::{fft_spec, pad_spec, Radix2Group};
use crate::merkle::{
    byte_views, chunk32, digest_of, digest_views, log2_spec, merkle_root, sibling, verify_spec,
    MerkleTreeProver, MerkleTreeVerifier,
};
use crate::FriError;

verus! {

/// The value stored under flat index `k` in an opening's entry list:
/// the first entry with that key, if any.
pub open spec fn vm_find(s: Seq<(usize, FieldElement)>, k: usize) -> Option<FieldElement>
    decreases s.len(),
{
    if s.len() == 0 {
        None
    } else if s[0].0 == k {
        Some(s[0].1)
    } else {
        vm_find(s.drop_first(), k)
    }
}

/// The field elements of one reconstructed leaf: for lane count
/// `leaf_size`, the values stored under `x`, `x + n`, ..,
/// `x + (leaf_size - 1) n`; `None` as soon as one is missing.
pub open spec fn gather(
    es: Seq<(usize, FieldElement)>,
    x: int,
    n: int,
    leaf_size: nat,
) -> Option<Seq<FieldElement>>
    decreases leaf_size,
{
    if leaf_size == 0 {
        Some(Seq::empty())
    } else {
        match gather(es, x, n, (leaf_size - 1) as nat) {
            None => None,
            Some(pre) => {
                let key = x + (leaf_size - 1) * n;
                if 0 <= key <= usize::MAX {
                    match vm_find(es, key as usize) {
                        None => None,
                        Some(v) => Some(pre.push(v)),
                    }
                } else {
                    None
                }
            },
        }
    }
}

/// If a whole leaf can be gathered, so can every prefix of its lanes.
proof fn lemma_gather_prefix(es: Seq<(usize, FieldElement)>, x: int, n: int, j: nat, ls: nat)
    requires
        j <= ls,
        gather(es, x, n, ls) is Some,
    ensures
        gather(es, x, n, j) is Some,
    decreases ls,
{
    if j < ls {
        lemma_gather_prefix(es, x, n, j, (ls - 1) as nat);
    }
}

/// The serialized leaves a checker reconstructs from an opening.
pub open spec fn gathered_leaves(
    es: Seq<(usize, FieldElement)>,
    idxs: Seq<usize>,
    n: int,
    leaf_size: nat,
) -> Seq<Seq<u8>> {
    Seq::new(
        idxs.len(),
        |t: int|
            match gather(es, idxs[t] as int, n, leaf_size) {
                Some(fs) => ser_fields(fs),
                None => Seq::empty(),
            },
    )
}

/// The outcome of checking an opening against a commitment: an index
/// out of the committed range is reported as such; a missing value or
/// a failed recomputation of the root is an invalid proof.
pub open spec fn vmt_spec(
    es: Seq<(usize, FieldElement)>,
    pb: Seq<u8>,
    idxs: Seq<usize>,
    leaf_size: nat,
    n: nat,
    root: Seq<u8>,
) -> Result<(), FriError> {
    if !(forall|t: int| 0 <= t < idxs.len() ==> #[trigger] idxs[t] < n) {
        Err(FriError::IndexOutOfRange)
    } else if (forall|t: int|
        0 <= t < idxs.len() ==> (#[trigger] gather(es, idxs[t] as int, n as int, leaf_size))
            is Some) && verify_spec(root, n, idxs, gathered_leaves(es, idxs, n as int, leaf_size), pb) {
        Ok(())
    } else {
        Err(FriError::MerkleProofInvalid)
    }
}

/// The values opened for one round's sampled indices, over every lane,
/// with the commitment's authentication bytes.
pub struct QueryResult {
    paths: Vec<u8>,
    values: Vec<(usize, FieldElement)>,
}

impl QueryResult {
    /// The authentication bytes.
    pub closed spec fn spec_paths(self) -> Seq<u8> {
        self.paths@
    }

    /// The opened entries, flat index to value.
    pub closed spec fn entries(self) -> Seq<(usize, FieldElement)> {
        self.values@
    }

    /// Rebuilds an opening from transported parts.
    pub fn new(paths: Vec<u8>, values: Vec<(usize, FieldElement)>) -> (r: QueryResult)
        ensures
            r.spec_paths() == paths@,
            r.entries() == values@,
    {
        QueryResult { paths, values }
    }

    /// The authentication bytes, for transport.
    pub fn proof_bytes(&self) -> (r: &Vec<u8>)
        ensures
            r@ == self.spec_paths(),
    {
        &self.paths
    }

    /// The opened entries, for transport.
    pub fn opened_values(&self) -> (r: &Vec<(usize, FieldElement)>)
        ensures
            r@ == self.entries(),
    {
        &self.values
    }

    /// The value opened at flat index `k`, if present.
    pub fn get(&self, k: usize) -> (r: Option<FieldElement>)
        ensures
            r == vm_find(self.entries(), k),
    {
        proof {
            assert(self.values@.skip(0) =~= self.values@);
        }
        let mut i: usize = 0;
        while i < self.values.len()
            invariant
                i <= self.values@.len(),
                vm_find(self.values@, k) == vm_find(self.values@.skip(i as int), k),
            decreases self.values@.len() - i,
        {
            let (key, v) = self.values[i];
            proof {
                assert(self.values@.skip(i as int)[0] == self.values@[i as int]);
                assert(self.values@.skip(i as int).drop_first() =~= self.values@.skip(i + 1));
            }
            if key == k {
                return Some(v);
            }
            i = i + 1;
        }
        proof {
            assert(self.values@.skip(self.values@.len() as int).len() == 0);
        }
        None
    }

    /// The size in bytes of this opening: the authentication bytes
    /// plus one fixed-width field element per opened value.
    pub fn proof_size(&self) -> (r: usize)
        requires
            self.spec_paths().len() + self.entries().len() * FIELD_BYTES <= usize::MAX,
        ensures
            r == self.spec_paths().len() + self.entries().len() * FIELD_BYTES,
    {
        self.paths.len() + self.values.len() * FIELD_BYTES
    }

    /// Reconstructs, for each requested index, the serialized leaf
    /// from the opened values across all `leaf_size` lanes, and checks
    /// the whole batch against the committed root.
    pub fn verify_merkle_tree(
        &self,
        leaf_indices: &Vec<usize>,
        leaf_size: usize,
        merkle_verifier: &MerkleTreeVerifier,
    ) -> (r: Result<(), FriError>)
        ensures
            r == vmt_spec(
                self.entries(),
                self.spec_paths(),
                leaf_indices@,
                leaf_size as nat,
                merkle_verifier.spec_leave_number(),
                merkle_verifier.spec_root(),
            ),
    {
        let len = merkle_verifier.leaf_count();
        let mut t: usize = 0;
        while t < leaf_indices.len()
            invariant
                len as nat == merkle_verifier.spec_leave_number(),
                t <= leaf_indices@.len(),
                forall|q: int| 0 <= q < t ==> #[trigger] leaf_indices@[q] < len,
            decreases leaf_indices@.len() - t,
        {
            if leaf_indices[t] >= len {
                proof {
                    assert(!(forall|q: int|
                        0 <= q < leaf_indices@.len() ==> #[trigger] leaf_indices@[q]
                            < merkle_verifier.spec_leave_number()));
                }
                return Err(FriError::IndexOutOfRange);
            }
            t = t + 1;
        }
        let mut leaves: Vec<Vec<u8>> = Vec::new();
        let mut t: usize = 0;
        while t < leaf_indices.len()
            invariant
                len as nat == merkle_verifier.spec_leave_number(),
                t <= leaf_indices@.len(),
                forall|q: int| 0 <= q < leaf_indices@.len() ==> #[trigger] leaf_indices@[q] < len,
                leaves@.len() == t,
                forall|q: int|
                    0 <= q < t ==> #[trigger] gather(
                        self.entries(),
                        leaf_indices@[q] as int,
                        len as int,
                        leaf_size as nat,
                    ) is Some,
                forall|q: int|
                    0 <= q < t ==> #[trigger] leaves@[q]@ == gathered_leaves(
                        self.entries(),
                        leaf_indices@,
                        len as int,
                        leaf_size as nat,
                    )[q],
            decreases leaf_indices@.len() - t,
        {
            let x = leaf_indices[t];
            let mut fields: Vec<FieldElement> = Vec::new();
            let mut j: usize = 0;
            while j < leaf_size
                invariant
                    len as nat == merkle_verifier.spec_leave_number(),
                    t < leaf_indices@.len(),
                    forall|q: int| 0 <= q < leaf_indices@.len() ==> #[trigger] leaf_indices@[q] < len,
                    x == leaf_indices@[t as int],
                    j <= leaf_size,
                    fields@.len() == j,
                    gather(self.entries(), x as int, len as int, j as nat) == Some(fields@),
                decreases leaf_size - j,
            {
                let ghost full = gather(
                    self.entries(),
                    x as int,
                    len as int,
                    leaf_size as nat,
                );
                let key = match j.checked_mul(len) {
                    Some(c) => match c.checked_add(x) {
                        Some(k) => k,
                        None => {
                            proof {
                                assert(gather(self.entries(), x as int, len as int, (j + 1) as nat)
                                    is None);
                                if full is Some {
                                    lemma_gather_prefix(
                                        self.entries(),
                                        x as int,
                                        len as int,
                                        (j + 1) as nat,
                                        leaf_size as nat,
                                    );
                                }
                                assert(gather(
                                    self.entries(),
                                    leaf_indices@[t as int] as int,
                                    merkle_verifier.spec_leave_number() as int,
                                    leaf_size as nat,
                                ) is None);
                            }
                            return Err(FriError::MerkleProofInvalid);
                        },
                    },
                    None => {
                        proof {
                            assert(x as int + (j as int) * (len as int) > usize::MAX)
                                by (nonlinear_arith)
                                requires
                                    (j as int) * (len as int) > usize::MAX,
                                    x >= 0,
                            ;
                            assert(gather(self.entries(), x as int, len as int, (j + 1) as nat)
                                is None);
                            if full is Some {
                                lemma_gather_prefix(
                                    self.entries(),
                                    x as int,
                                    len as int,
                                    (j + 1) as nat,
                                    leaf_size as nat,
                                );
                            }
                            assert(gather(
                                self.entries(),
                                leaf_indices@[t as int] as int,
                                merkle_verifier.spec_leave_number() as int,
                                leaf_size as nat,
                            ) is None);
                        }
                        return Err(FriError::MerkleProofInvalid);
                    },
                };
                let v = match self.get(key) {
                    Some(v) => v,
                    None => {
                        proof {
                            assert(gather(self.entries(), x as int, len as int, (j + 1) as nat)
                                is None);
                            if full is Some {
                                lemma_gather_prefix(
                                    self.entries(),
                                    x as int,
                                    len as int,
                                    (j + 1) as nat,
                                    leaf_size as nat,
                                );
                            }
                            assert(gather(
                                self.entries(),
                                leaf_indices@[t as int] as int,
                                merkle_verifier.spec_leave_number() as int,
                                leaf_size as nat,
                            ) is None);
                        }
                        return Err(FriError::MerkleProofInvalid);
                    },
                };
                fields.push(v);
                j = j + 1;
            }
            let leaf = serialize_fields(&fields);
            leaves.push(leaf);
            proof {
                assert(gathered_leaves(
                    self.entries(),
                    leaf_indices@,
                    len as int,
                    leaf_size as nat,
                )[t as int] == ser_fields(fields@));
            }
            t = t + 1;
        }
        let ok = merkle_verifier.verify(&self.paths, leaf_indices, &leaves);
        proof {
            assert(byte_views(leaves@) =~= gathered_leaves(
                self.entries(),
                leaf_indices@,
                len as int,
                leaf_size as nat,
            ));
        }
        if ok {
            Ok(())
        } else {
            Err(FriError::MerkleProofInvalid)
        }
    }
}

/// The field elements of leaf `i` of a layer: one value per lane,
/// the lanes interleaved with stride `n`.
pub open spec fn leaf_fields_of(v: Seq<FieldElement>, n: int, leaf_size: nat, i: int) -> Seq<
    FieldElement,
> {
    Seq::new(leaf_size, |k: int| v[k * n + i])
}

/// The entries an honest opening holds: lane-major, for each lane the
/// requested indices in order, each with its flat position.
pub open spec fn query_entries(
    v: Seq<FieldElement>,
    n: int,
    leaf_size: nat,
    idxs: Seq<usize>,
) -> Seq<(usize, FieldElement)> {
    Seq::new(
        (leaf_size * idxs.len()) as nat,
        |t: int|
            {
                let lane = t / idxs.len() as int;
                let q = t % idxs.len() as int;
                (((idxs[q] + lane * n) as usize), v[idxs[q] + lane * n])
            },
    )
}

/// In a grid of `t` rows of `h` cells, cell `(q, kk)` lies strictly
/// inside the first `t` rows.
proof fn lemma_grid(q: int, kk: int, t: int, h: int)
    requires
        0 <= q < t,
        0 <= kk < h,
    ensures
        q * h + kk + 1 <= t * h,
{
    assert((q + 1) * h <= t * h && q * h + kk + 1 <= (q + 1) * h) by (nonlinear_arith)
        requires
            0 <= q < t,
            0 <= kk < h,
    ;
}

/// One round\u{2019}s full evaluation vector, grouped into leaves of a
/// fixed lane width and committed.
pub struct InterpolateValue {
    value: Vec<FieldElement>,
    leaf_size: usize,
    merkle_tree: MerkleTreeProver,
}

impl InterpolateValue {
    /// The stored evaluation vector.
    pub closed spec fn spec_value(self) -> Seq<FieldElement> {
        self.value@
    }

    /// The lane width.
    pub closed spec fn spec_leaf_size(self) -> nat {
        self.leaf_size as nat
    }

    /// The number of leaves: the values per lane.
    pub open spec fn spec_n(self) -> nat {
        (self.spec_value().len() as int / self.spec_leaf_size() as int) as nat
    }

    /// The serialized bytes of leaf `i`.
    pub open spec fn leaf_bytes(self, i: int) -> Seq<u8> {
        ser_fields(
            leaf_fields_of(self.spec_value(), self.spec_n() as int, self.spec_leaf_size(), i),
        )
    }

    /// The leaf hashes the layer is committed under.
    pub open spec fn layer_leaf_hashes(self) -> Seq<Seq<u8>> {
        Seq::new(self.spec_n(), |i: int| digest_of(self.leaf_bytes(i)))
    }

    /// The commitment parts agree with the stored vector.
    pub closed spec fn mt_wf(self) -> bool {
        &&& self.merkle_tree.wf()
        &&& self.merkle_tree.spec_leave_num() == self.spec_n()
        &&& self.merkle_tree.leaf_hashes() == self.layer_leaf_hashes()
        &&& self.merkle_tree.height() == log2_spec(self.spec_n())
    }

    /// The vector splits exactly into `n` leaves of `leaf_size` lanes,
    /// `n` is a power of two, every value is reduced, and the
    /// commitment was built over exactly these leaves.
    pub open spec fn wf(self) -> bool {
        &&& self.spec_leaf_size() >= 1
        &&& self.spec_value().len() == self.spec_n() * self.spec_leaf_size()
        &&& self.spec_n() == pow2(log2_spec(self.spec_n()))
        &&& self.spec_n() >= 1
        &&& all_wf(self.spec_value())
        &&& self.mt_wf()
    }

    /// Groups `values` into `values.len() / leaf_size` leaves with
    /// lane stride equal to the leaf count, and commits to them.
    #[verifier::rlimit(50)]
    pub fn new(value: Vec<FieldElement>, leaf_size: usize) -> (r: InterpolateValue)
        requires
            leaf_size >= 1,
            value@.len() % leaf_size as nat == 0,
            exists|m: nat| value@.len() / leaf_size as nat == pow2(m),
            value@.len() >= 1,
            all_wf(value@),
        ensures
            r.wf(),
            r.spec_value() == value@,
            r.spec_leaf_size() == leaf_size as nat,
    {
        let vlen = value.len();
        let n = vlen / leaf_size;
        proof {
            vstd::arithmetic::div_mod::lemma_fundamental_div_mod(value@.len() as int, leaf_size as int);
        }
        let mut leaves: Vec<Vec<u8>> = Vec::new();
        let mut i: usize = 0;
        while i < n
            invariant
                leaf_size >= 1,
                n == value@.len() as int / leaf_size as int,
                value@.len() == n * leaf_size,
                value@.len() <= usize::MAX,
                i <= n,
                leaves@.len() == i,
                forall|q: int|
                    0 <= q < i ==> #[trigger] leaves@[q]@ == ser_fields(
                        leaf_fields_of(value@, n as int, leaf_size as nat, q),
                    ),
            decreases n - i,
        {
            let mut fields: Vec<FieldElement> = Vec::new();
            let mut k: usize = 0;
            while k < leaf_size
                invariant
                    leaf_size >= 1,
                    value@.len() == n * leaf_size,
                    value@.len() <= usize::MAX,
                    i < n,
                    k <= leaf_size,
                    fields@.len() == k,
                    forall|q: int| 0 <= q < k ==> #[trigger] fields@[q] == value@[q * n + i],
                decreases leaf_size - k,
            {
                proof {
                    lemma_grid(k as int, i as int, leaf_size as int, n as int);
                    assert((k as int) * (n as int) + i < (leaf_size as int) * (n as int));
                    assert((leaf_size as int) * (n as int) == (n as int) * (leaf_size as int))
                        by (nonlinear_arith);
                }
                fields.push(value[k * n + i]);
                k = k + 1;
            }
            proof {
                assert(fields@ =~= leaf_fields_of(value@, n as int, leaf_size as nat, i as int));
            }
            let leaf = serialize_fields(&fields);
            leaves.push(leaf);
            i = i + 1;
        }
        let mt = MerkleTreeProver::new(&leaves);
        let r = InterpolateValue { value, leaf_size, merkle_tree: mt };
        proof {
            let m = choose|m: nat| r.spec_value().len() / leaf_size as nat == pow2(m);
            crate::merkle::lemma_log2_pow2(m);
            vstd::arithmetic::power2::lemma_pow2_pos(m);
            assert(r.spec_n() == pow2(m));
            assert(log2_spec(r.spec_n()) == m);
            let h = r.merkle_tree.height();
            assert(pow2(h) == pow2(m));
            if h < m {
                vstd::arithmetic::power2::lemma_pow2_strictly_increases(h, m);
            }
            if m < h {
                vstd::arithmetic::power2::lemma_pow2_strictly_increases(m, h);
            }
            assert(h == m);
            assert(r.merkle_tree.leaf_hashes() =~= r.layer_leaf_hashes());
        }
        r
    }

    /// The stored evaluation vector.
    pub fn values(&self) -> (r: &Vec<FieldElement>)
        ensures
            r@ == self.spec_value(),
    {
        &self.value
    }

    /// The number of committed leaves.
    pub fn leave_num(&self) -> (r: usize)
        requires
            self.wf(),
        ensures
            r == self.spec_n(),
    {
        self.merkle_tree.leave_num()
    }

    /// The 32-byte root of the layer.
    pub fn commit(&self) -> (r: [u8; 32])
        requires
            self.wf(),
        ensures
            r@ == merkle_root(self.layer_leaf_hashes(), log2_spec(self.spec_n())),
    {
        self.merkle_tree.commit()
    }

    /// Opens the layer at the given leaf positions: the value of every
    /// lane at each position, and one batched authentication proof.
    #[verifier::rlimit(50)]
    pub fn query(&self, leaf_indices: &Vec<usize>) -> (r: QueryResult)
        requires
            self.wf(),
            forall|t: int|
                0 <= t < leaf_indices@.len() ==> #[trigger] leaf_indices@[t] < self.spec_n(),
            self.spec_leaf_size() * leaf_indices@.len() <= usize::MAX,
        ensures
            r.entries() == query_entries(
                self.spec_value(),
                self.spec_n() as int,
                self.spec_leaf_size(),
                leaf_indices@,
            ),
            r.spec_paths().len() == 32 * (leaf_indices@.len() * log2_spec(self.spec_n())),
            forall|t: int, k: int|
                0 <= t < leaf_indices@.len() && 0 <= k < log2_spec(self.spec_n())
                    ==> #[trigger] chunk32(r.spec_paths(), t * log2_spec(self.spec_n()) + k)
                    == sibling(self.layer_leaf_hashes(), leaf_indices@[t] as int, k as nat),
    {
        let n = self.merkle_tree.leave_num();
        let vlen = self.value.len();
        let icount = leaf_indices.len();
        let mut values: Vec<(usize, FieldElement)> = Vec::new();
        let ghost target = query_entries(
            self.spec_value(),
            self.spec_n() as int,
            self.spec_leaf_size(),
            leaf_indices@,
        );
        let mut lane: usize = 0;
        while lane < self.leaf_size
            invariant
                self.wf(),
                n == self.spec_n(),
                icount == leaf_indices@.len(),
                self.spec_leaf_size() * icount <= usize::MAX,
                forall|t: int|
                    0 <= t < leaf_indices@.len() ==> #[trigger] leaf_indices@[t] < self.spec_n(),
                target == query_entries(
                    self.spec_value(),
                    self.spec_n() as int,
                    self.spec_leaf_size(),
                    leaf_indices@,
                ),
                self.spec_value().len() <= usize::MAX,
                lane <= self.leaf_size,
                values@.len() == lane * icount,
                forall|u: int| 0 <= u < lane * icount ==> #[trigger] values@[u] == target[u],
            decreases self.spec_leaf_size() - lane,
        {
            let mut q: usize = 0;
            proof {
                assert((lane + 1) * icount <= self.spec_leaf_size() * icount) by (nonlinear_arith)
                    requires
                        lane < self.spec_leaf_size(),
                        icount >= 0,
                ;
                assert(lane * icount + icount == (lane + 1) * icount) by (nonlinear_arith);
            }
            while q < icount
                invariant
                    self.wf(),
                    n == self.spec_n(),
                    icount == leaf_indices@.len(),
                    forall|t: int|
                        0 <= t < leaf_indices@.len() ==> #[trigger] leaf_indices@[t]
                            < self.spec_n(),
                    target == query_entries(
                        self.spec_value(),
                        self.spec_n() as int,
                        self.spec_leaf_size(),
                        leaf_indices@,
                    ),
                    lane < self.spec_leaf_size(),
                    lane * icount + icount <= self.spec_leaf_size() * icount,
                    self.spec_leaf_size() * icount <= usize::MAX,
                    self.spec_value().len() <= usize::MAX,
                    q <= icount,
                    values@.len() == lane * icount + q,
                    forall|u: int| 0 <= u < lane * icount + q ==> #[trigger] values@[u] == target[u],
                decreases icount - q,
            {
                let j = leaf_indices[q];
                proof {
                    lemma_grid(lane as int, j as int, self.spec_leaf_size() as int, n as int);
                    assert((self.spec_leaf_size() as int) * (n as int) == (n as int)
                        * (self.spec_leaf_size() as int)) by (nonlinear_arith);
                    vstd::arithmetic::div_mod::lemma_fundamental_div_mod_converse(
                        (lane * icount + q) as int,
                        icount as int,
                        lane as int,
                        q as int,
                    );
                    assert(target[lane * icount + q] == (
                        ((leaf_indices@[q as int] + (lane as int) * (n as int)) as usize),
                        self.spec_value()[leaf_indices@[q as int] + (lane as int) * (n as int)],
                    ));
                }
                values.push((j + lane * n, self.value[j + lane * n]));
                q = q + 1;
            }
            lane = lane + 1;
        }
        let paths = self.merkle_tree.open(leaf_indices);
        proof {
            assert(values@ =~= target);
        }
        QueryResult { paths, values }
    }
}

/// One fold step: for paired values `x`, `nx`, domain inverse `w` and
/// challenge `c`, the combined value `sum + c ((x - nx) w - sum)`
/// where `sum = x + nx`.
pub open spec fn fold_val(x: int, nx: int, w: int, c: int) -> int {
    let sum = f_add(x, nx);
    f_add(sum, f_mul(c, f_sub(f_mul(f_sub(x, nx), w), sum)))
}

/// One whole fold round: every position of the half-length output is
/// the fold of its pair, halved.
pub open spec fn fold_layer(v: Seq<int>, g: Radix2Group, c: int) -> Seq<int> {
    Seq::new(
        (v.len() / 2) as nat,
        |p: int| f_mul(fold_val(v[p], v[p + v.len() as int / 2], g.inv_el(p), c), INV_2 as int),
    )
}

/// The Horner accumulation over the first `p` lanes at position `i`:
/// earliest lane most significant.
pub open spec fn horner_at(v: Seq<int>, gs: int, c: int, i: int, p: nat) -> int
    decreases p,
{
    if p == 0 {
        0
    } else {
        f_add(f_mul(horner_at(v, gs, c, i, (p - 1) as nat), c), v[i + (p - 1) * gs])
    }
}

/// The batched vector: all `pn` lanes combined by Horner's rule over
/// the batching challenge.
pub open spec fn batched(v: Seq<int>, gs: nat, c: int, pn: nat) -> Seq<int> {
    Seq::new(gs, |i: int| horner_at(v, gs as int, c, i, pn))
}

/// The evaluation vector entering round `k`: the batched base vector
/// folded `k` times.
pub open spec fn round_input(b: Seq<int>, gs: Seq<Radix2Group>, cs: Seq<int>, k: nat) -> Seq<int>
    decreases k,
{
    if k == 0 {
        b
    } else {
        fold_layer(round_input(b, gs, cs, (k - 1) as nat), gs[k - 1], cs[k - 1])
    }
}

/// The ordered round roots plus the final fully folded scalar.
pub struct IoppCommits {
    merkle_roots: Vec<[u8; 32]>,
    final_value: FieldElement,
}

impl IoppCommits {
    /// The per-round roots.
    pub closed spec fn spec_roots(self) -> Seq<Seq<u8>> {
        digest_views(self.merkle_roots@)
    }

    /// The final folded scalar.
    pub closed spec fn spec_final(self) -> FieldElement {
        self.final_value
    }

    /// Packs round roots and the final scalar.
    pub fn new(merkle_roots: Vec<[u8; 32]>, final_value: FieldElement) -> (r: IoppCommits)
        ensures
            r.spec_roots() == digest_views(merkle_roots@),
            r.spec_final() == final_value,
    {
        IoppCommits { merkle_roots, final_value }
    }

    /// The per-round roots, for transport.
    pub fn roots(&self) -> (r: &Vec<[u8; 32]>)
        ensures
            digest_views(r@) == self.spec_roots(),
            r@.len() == self.spec_roots().len(),
    {
        &self.merkle_roots
    }

    /// The final folded scalar, for transport.
    pub fn final_scalar(&self) -> (r: FieldElement)
        ensures
            r == self.spec_final(),
    {
        self.final_value
    }

    /// The size in bytes of the commitment part of a proof: one
    /// 32-byte root per round plus one serialized field element.
    pub fn proof_size(&self) -> (r: usize)
        requires
            self.spec_roots().len() * 32 + FIELD_BYTES <= usize::MAX,
        ensures
            r == self.spec_roots().len() * 32 + FIELD_BYTES,
    {
        self.merkle_roots.len() * 32 + FIELD_BYTES
    }
}

/// The chain of committed fold layers a prover keeps so that it can
/// answer queries against any round after the commit phase.
pub struct IoppProverState {
    interpolations: Vec<InterpolateValue>,
}

impl IoppProverState {
    /// The committed layers, one per fold round but the last.
    pub closed spec fn layers(self) -> Seq<InterpolateValue> {
        self.interpolations@
    }
}

/// The prover: the committed base layer holding every lane's
/// evaluations, with the polynomial count and the fold round count.
pub struct Prover {
    interpolation: InterpolateValue,
    poly_num: usize,
    log_degree: usize,
}

/// Copies a vector of field elements.
fn copy_vec(v: &Vec<FieldElement>) -> (r: Vec<FieldElement>)
    ensures
        r@ == v@,
{
    let mut out: Vec<FieldElement> = Vec::new();
    let mut i: usize = 0;
    while i < v.len()
        invariant
            i <= v@.len(),
            out@ == v@.take(i as int),
        decreases v@.len() - i,
    {
        out.push(v[i]);
        proof {
            assert(v@.take(i + 1) =~= v@.take(i as int).push(v@[i as int]));
        }
        i = i + 1;
    }
    proof {
        assert(v@.take(v@.len() as int) =~= v@);
    }
    out
}

/// The concatenation of every polynomial's evaluation vector over the
/// base domain, in order.
pub open spec fn concat_ffts(ps: Seq<Vec<FieldElement>>, g: Radix2Group) -> Seq<int>
    decreases ps.len(),
{
    if ps.len() == 0 {
        Seq::empty()
    } else {
        concat_ffts(ps.drop_last(), g) + fft_spec(
            pad_spec(vals(ps.last()@), g.spec_size()),
            g.gen(),
        )
    }
}

impl Prover {
    /// The committed base layer.
    pub closed spec fn base_layer(self) -> InterpolateValue {
        self.interpolation
    }

    /// The number of batched polynomials.
    pub closed spec fn spec_poly_num(self) -> nat {
        self.poly_num as nat
    }

    /// The number of fold rounds: the base-two log of the degree bound.
    pub closed spec fn spec_log_degree(self) -> nat {
        self.log_degree as nat
    }

    /// The base domain size: twice the base layer's leaf count.
    pub open spec fn spec_gs(self) -> nat {
        2 * self.base_layer().spec_n()
    }

    /// The base layer holds all lanes over the base domain, and the
    /// round count fits the domain.
    pub open spec fn wf(self) -> bool {
        &&& self.base_layer().wf()
        &&& self.spec_poly_num() >= 1
        &&& self.base_layer().spec_leaf_size() == 2 * self.spec_poly_num()
        &&& self.spec_log_degree() >= 1
        &&& pow2(self.spec_log_degree()) <= self.spec_gs()
        &&& self.spec_gs() == pow2((log2_spec(self.base_layer().spec_n()) + 1) as nat)
    }

    /// Evaluates every polynomial over the base domain and commits to
    /// the concatenated lanes.
    pub fn new(polies: &Vec<Vec<FieldElement>>, group: &Radix2Group) -> (r: Prover)
        requires
            group.wf(),
            group.spec_log_size() >= 1,
            polies@.len() >= 1,
            forall|p: int|
                0 <= p < polies@.len() ==> #[trigger] polies@[p]@.len() == polies@[0]@.len(),
            forall|p: int| 0 <= p < polies@.len() ==> all_wf(#[trigger] polies@[p]@),
            polies@[0]@.len() >= 2,
            exists|m: nat| polies@[0]@.len() == pow2(m),
            polies@[0]@.len() <= group.spec_size(),
            polies@.len() * group.spec_size() <= usize::MAX,
        ensures
            r.wf(),
            r.spec_poly_num() == polies@.len(),
            r.spec_log_degree() == log2_spec(polies@[0]@.len()),
            vals(r.base_layer().spec_value()) == concat_ffts(polies@, *group),
            r.spec_gs() == group.spec_size(),
    {
        let log_degree = crate::merkle::log2_exec(polies[0].len());
        let poly_num = polies.len();
        let gse = group.size();
        let mut value: Vec<FieldElement> = Vec::new();
        let mut p: usize = 0;
        while p < poly_num
            invariant
                group.wf(),
                poly_num == polies@.len(),
                gse == group.spec_size(),
                forall|q: int|
                    0 <= q < polies@.len() ==> #[trigger] polies@[q]@.len() == polies@[0]@.len(),
                forall|q: int| 0 <= q < polies@.len() ==> all_wf(#[trigger] polies@[q]@),
                polies@[0]@.len() <= group.spec_size(),
                polies@.len() * group.spec_size() <= usize::MAX,
                p <= poly_num,
                value@.len() == p * gse,
                all_wf(value@),
                vals(value@) == concat_ffts(polies@.take(p as int), *group),
            decreases poly_num - p,
        {
            proof {
                assert((p + 1) * gse <= polies@.len() * gse) by (nonlinear_arith)
                    requires
                        p < polies@.len(),
                        gse >= 0,
                ;
                assert(p * gse + gse == (p + 1) * gse) by (nonlinear_arith);
            }
            let coeffs = copy_vec(&polies[p]);
            let mut ev = group.fft(coeffs);
            let ghost oldvals = vals(value@);
            let ghost evvals = vals(ev@);
            value.append(&mut ev);
            proof {
                assert(polies@.take(p + 1).drop_last() =~= polies@.take(p as int));
                assert(polies@.take(p + 1).last() == polies@[p as int]);
                assert(vals(value@) =~= oldvals + evvals);
            }
            p = p + 1;
        }
        proof {
            assert(polies@.take(polies@.len() as int) =~= polies@);
            let m = choose|m: nat| polies@[0]@.len() == pow2(m);
            crate::merkle::lemma_log2_pow2(m);
        }
        proof {
            let lg = group.spec_log_size();
            vstd::arithmetic::power2::lemma_pow2_unfold(lg);
            vstd::arithmetic::power2::lemma_pow2_pos((lg - 1) as nat);
            assert(gse == 2 * pow2((lg - 1) as nat));
            assert(2 * (poly_num as int) <= (poly_num as int) * (gse as int)) by (nonlinear_arith)
                requires
                    gse >= 2,
                    poly_num >= 1,
            ;
        }
        let leaf_size = 2 * poly_num;
        proof {
            let lg = group.spec_log_size();
            vstd::arithmetic::power2::lemma_pow2_unfold(lg);
            assert(gse == 2 * pow2((lg - 1) as nat));
            assert(value@.len() == (poly_num as int) * (2 * pow2((lg - 1) as nat)));
            assert((poly_num as int) * (2 * pow2((lg - 1) as nat)) == (2 * poly_num as int) * (pow2(
                (lg - 1) as nat,
            ) as int)) by (nonlinear_arith);
            vstd::arithmetic::div_mod::lemma_fundamental_div_mod_converse(
                value@.len() as int,
                (2 * poly_num) as int,
                pow2((lg - 1) as nat) as int,
                0,
            );
            assert(value@.len() % (leaf_size as nat) == 0);
            assert(value@.len() / (leaf_size as nat) == pow2((lg - 1) as nat));
            vstd::arithmetic::power2::lemma_pow2_pos((lg - 1) as nat);
        }
        let interpolation = InterpolateValue::new(value, leaf_size);
        let r = Prover { interpolation, poly_num, log_degree };
        proof {
            let lg = group.spec_log_size();
            let m = choose|m: nat| polies@[0]@.len() == pow2(m);
            crate::merkle::lemma_log2_pow2((lg - 1) as nat);
            assert(r.base_layer().spec_n() == pow2((lg - 1) as nat));
            assert(r.spec_gs() == pow2(lg)) by {
                vstd::arithmetic::power2::lemma_pow2_unfold(lg);
            }
            assert(pow2(r.spec_log_degree()) == polies@[0]@.len());
            if m >= 1 {
                vstd::arithmetic::power2::lemma_pow2_unfold(m);
            } else {
                assert(pow2(0) == 1) by {
                    vstd::arithmetic::power2::lemma2_to64();
                }
            }
            assert(r.spec_log_degree() >= 1);
        }
        r
    }

    /// The root of the base layer: the commitment published before any
    /// challenge is drawn.
    pub fn commit(&self) -> (r: [u8; 32])
        requires
            self.wf(),
        ensures
            r@ == merkle_root(
                self.base_layer().layer_leaf_hashes(),
                log2_spec(self.base_layer().spec_n()),
            ),
    {
        self.interpolation.commit()
    }

    /// One fold round: pairs the two halves of the vector, folds each
    /// pair under the challenge, and halves the result.
    fn evaluate_next_domain(
        last_interpolation: &Vec<FieldElement>,
        group: &Radix2Group,
        inv_2: FieldElement,
        challenge: FieldElement,
    ) -> (r: Vec<FieldElement>)
        requires
            group.wf(),
            group.spec_size() == last_interpolation@.len(),
            last_interpolation@.len() >= 2,
            last_interpolation@.len() % 2 == 0,
            all_wf(last_interpolation@),
            challenge.wf(),
            inv_2.wf(),
            inv_2.as_int() == INV_2 as int,
        ensures
            r@.len() == last_interpolation@.len() / 2,
            all_wf(r@),
            vals(r@) == fold_layer(vals(last_interpolation@), *group, challenge.as_int()),
    {
        let mut res: Vec<FieldElement> = Vec::new();
        let len = group.size();
        let half = len / 2;
        let ghost target = fold_layer(vals(last_interpolation@), *group, challenge.as_int());
        let mut i: usize = 0;
        while i < half
            invariant
                group.wf(),
                group.spec_size() == last_interpolation@.len(),
                len == last_interpolation@.len(),
                len % 2 == 0,
                half == len / 2,
                all_wf(last_interpolation@),
                challenge.wf(),
                inv_2.wf(),
                inv_2.as_int() == INV_2 as int,
                target == fold_layer(vals(last_interpolation@), *group, challenge.as_int()),
                i <= half,
                res@.len() == i,
                all_wf(res@),
                forall|q: int| 0 <= q < i ==> #[trigger] res@[q].as_int() == target[q],
            decreases half - i,
        {
            let x = last_interpolation[i];
            let nx = last_interpolation[i + half];
            let sum = x.add(nx);
            let w = group.element_inv_at(i);
            let new_v = sum.add(challenge.mul(x.sub(nx).mul(w).sub(sum)));
            res.push(new_v.mul(inv_2));
            i = i + 1;
        }
        proof {
            assert(vals(res@) =~= target);
        }
        res
    }
}

impl Prover {
    /// The two-stage commit phase: Horner-batch all lanes into one
    /// vector, then fold it round by round, committing to every
    /// intermediate layer, down to the final scalar.
    #[verifier::rlimit(100)]
    pub fn commit_phase(
        &self,
        groups: &Vec<Radix2Group>,
        challenges: &(FieldElement, Vec<FieldElement>),
    ) -> (r: (IoppProverState, IoppCommits))
        requires
            self.wf(),
            groups@.len() >= self.spec_log_degree(),
            forall|i: int| 0 <= i < groups@.len() ==> (#[trigger] groups@[i]).wf(),
            forall|i: int|
                0 <= i < self.spec_log_degree() ==> pow2(i as nat) * (
                #[trigger] groups@[i]).spec_size() == self.spec_gs(),
            challenges.0.wf(),
            challenges.1@.len() == self.spec_log_degree(),
            all_wf(challenges.1@),
        ensures
            r.0.layers().len() == self.spec_log_degree() - 1,
            forall|k: int|
                0 <= k < r.0.layers().len() ==> (#[trigger] r.0.layers()[k]).wf()
                    && r.0.layers()[k].spec_leaf_size() == 2 && 2 * r.0.layers()[k].spec_value().len()
                    * pow2(k as nat) == self.spec_gs() && vals(r.0.layers()[k].spec_value())
                    == round_input(
                    batched(
                        vals(self.base_layer().spec_value()),
                        self.spec_gs(),
                        challenges.0.as_int(),
                        self.spec_poly_num(),
                    ),
                    groups@,
                    vals(challenges.1@),
                    (k + 1) as nat,
                ),
            r.1.spec_roots().len() == self.spec_log_degree() - 1,
            forall|k: int|
                0 <= k < r.0.layers().len() ==> #[trigger] r.1.spec_roots()[k] == merkle_root(
                    r.0.layers()[k].layer_leaf_hashes(),
                    log2_spec(r.0.layers()[k].spec_n()),
                ),
            r.1.spec_final().wf(),
            r.1.spec_final().as_int() == round_input(
                batched(
                    vals(self.base_layer().spec_value()),
                    self.spec_gs(),
                    challenges.0.as_int(),
                    self.spec_poly_num(),
                ),
                groups@,
                vals(challenges.1@),
                self.spec_log_degree(),
            )[0],
    {
        let base_vals = self.interpolation.values();
        let blen = base_vals.len();
        let gse = groups[0].size();
        proof {
            assert(pow2(0) == 1) by {
                vstd::arithmetic::power2::lemma2_to64();
            }
            assert(pow2(0) * groups@[0].spec_size() == self.spec_gs());
        }
        let c0 = challenges.0;
        proof {
            assert((self.spec_poly_num() as int) * (gse as int) == (self.base_layer().spec_n()
                as int) * (2 * self.spec_poly_num() as int)) by (nonlinear_arith)
                requires
                    gse == 2 * self.base_layer().spec_n(),
            ;
        }
        let ghost bvals = vals(base_vals@);
        let ghost target = batched(bvals, self.spec_gs(), c0.as_int(), self.spec_poly_num());
        let mut v: Vec<FieldElement> = Vec::new();
        let mut i: usize = 0;
        while i < gse
            invariant
                self.wf(),
                blen == self.base_layer().spec_value().len(),
                bvals == vals(self.base_layer().spec_value()),
                base_vals@ == self.base_layer().spec_value(),
                gse == self.spec_gs(),
                blen == self.spec_poly_num() * gse,
                blen <= usize::MAX,
                c0.wf(),
                target == batched(bvals, self.spec_gs(), c0.as_int(), self.spec_poly_num()),
                i <= gse,
                v@.len() == i,
                all_wf(v@),
                forall|q: int| 0 <= q < i ==> #[trigger] v@[q].as_int() == target[q],
            decreases gse - i,
        {
            let mut acc = FieldElement::zero();
            let mut j: usize = i;
            let mut p: usize = 0;
            while p < self.poly_num
                invariant
                    self.wf(),
                    blen == self.base_layer().spec_value().len(),
                    bvals == vals(self.base_layer().spec_value()),
                    base_vals@ == self.base_layer().spec_value(),
                    gse == self.spec_gs(),
                    blen == self.spec_poly_num() * gse,
                    blen <= usize::MAX,
                    c0.wf(),
                    i < gse,
                    p <= self.spec_poly_num(),
                    p < self.spec_poly_num() ==> j == i + p * gse,
                    acc.wf(),
                    acc.as_int() == horner_at(bvals, gse as int, c0.as_int(), i as int, p as nat),
                decreases self.spec_poly_num() - p,
            {
                proof {
                    lemma_grid(p as int, i as int, self.spec_poly_num() as int, gse as int);
                    assert((self.spec_poly_num() as int) * (gse as int) == blen);
                }
                acc = acc.mul(c0).add(base_vals[j]);
                proof {
                    assert((p + 1) * gse == p * gse + gse) by (nonlinear_arith);
                    assert(i + (p + 1) * gse <= blen + gse);
                }
                // The flat position advances only while another lane
                // remains, so it stays below the vector length.
                if p + 1 < self.poly_num {
                    proof {
                        lemma_grid((p + 1) as int, i as int, self.spec_poly_num() as int, gse as int);
                    }
                    j = j + gse;
                } else {
                    j = 0;
                }
                p = p + 1;
                proof {
                    if p < self.spec_poly_num() {
                    } else {
                        assert(j == 0);
                    }
                }
            }
            v.push(acc);
            i = i + 1;
        }
        proof {
            assert(vals(v@) =~= target);
        }
        let inv_2 = FieldElement::inv_two();
        let mut interpolations: Vec<InterpolateValue> = Vec::new();
        let mut cur = v;
        let ghost lgn = log2_spec(self.base_layer().spec_n());
        let ghost cs = vals(challenges.1@);
        proof {
            assert(cur@.len() == pow2((lgn + 1) as nat));
            if self.spec_log_degree() > lgn + 1 {
                vstd::arithmetic::power2::lemma_pow2_strictly_increases(
                    (lgn + 1) as nat,
                    self.spec_log_degree(),
                );
                assert(false);
            }
        }
        let mut k: usize = 0;
        while k < self.log_degree - 1
            invariant
                self.wf(),
                groups@.len() >= self.spec_log_degree(),
                forall|q: int| 0 <= q < groups@.len() ==> (#[trigger] groups@[q]).wf(),
                forall|q: int|
                    0 <= q < self.spec_log_degree() ==> pow2(q as nat) * (
                    #[trigger] groups@[q]).spec_size() == self.spec_gs(),
                challenges.1@.len() == self.spec_log_degree(),
                all_wf(challenges.1@),
                cs == vals(challenges.1@),
                inv_2.wf(),
                inv_2.as_int() == INV_2 as int,
                lgn + 1 == log2_spec(self.spec_gs()),
                self.spec_gs() == pow2((lgn + 1) as nat),
                target == batched(
                    vals(self.base_layer().spec_value()),
                    self.spec_gs(),
                    challenges.0.as_int(),
                    self.spec_poly_num(),
                ),
                k <= self.spec_log_degree() - 1,
                self.spec_log_degree() <= lgn + 1,
                k <= lgn,
                all_wf(cur@),
                cur@.len() * pow2(k as nat) == self.spec_gs(),
                cur@.len() == pow2((lgn + 1 - k) as nat),
                cur@.len() >= 2,
                vals(cur@) == round_input(target, groups@, cs, k as nat),
                interpolations@.len() == k,
                forall|q: int|
                    0 <= q < k ==> (#[trigger] interpolations@[q]).wf()
                        && interpolations@[q].spec_leaf_size() == 2 && 2
                        * interpolations@[q].spec_value().len() * pow2(q as nat) == self.spec_gs()
                        && vals(interpolations@[q].spec_value()) == round_input(
                        target,
                        groups@,
                        cs,
                        (q + 1) as nat,
                    ),
            decreases self.spec_log_degree() - 1 - k,
        {
            proof {
                assert(pow2(k as nat) * groups@[k as int].spec_size() == self.spec_gs());
                assert(groups@[k as int].spec_size() == cur@.len()) by (nonlinear_arith)
                    requires
                        pow2(k as nat) * groups@[k as int].spec_size() == self.spec_gs(),
                        cur@.len() * pow2(k as nat) == self.spec_gs(),
                        pow2(k as nat) >= 1,
                ;
                vstd::arithmetic::power2::lemma_pow2_pos(k as nat);
                vstd::arithmetic::power2::lemma_pow2_unfold((lgn + 1 - k) as nat);
            }
            let next = Self::evaluate_next_domain(&cur, &groups[k], inv_2, challenges.1[k]);
            let layer_vals = copy_vec(&next);
            proof {
                vstd::arithmetic::power2::lemma_pow2_unfold((lgn + 1 - k) as nat);
                assert(next@.len() == pow2((lgn - k) as nat));
                assert(next@.len() % 2 == 0) by {
                    if lgn - k >= 1 {
                        vstd::arithmetic::power2::lemma_pow2_unfold((lgn - k) as nat);
                    } else {
                        assert(lgn - k == 0);
                        assert(pow2(0) == 1) by {
                            vstd::arithmetic::power2::lemma2_to64();
                        }
                        assert(pow2((lgn + 1 - k) as nat) == 2 * pow2((lgn - k) as nat));
                        assert(cur@.len() == 2);
                        assert(k < self.spec_log_degree() - 1);
                        assert(pow2(self.spec_log_degree()) <= self.spec_gs());
                        vstd::arithmetic::power2::lemma_pow2_strictly_increases(
                            (k + 2) as nat,
                            self.spec_log_degree(),
                        );
                        assert(false);
                    }
                }
                assert(next@.len() / 2 == pow2((lgn - k - 1) as nat)) by {
                    vstd::arithmetic::power2::lemma_pow2_unfold((lgn - k) as nat);
                }
                vstd::arithmetic::power2::lemma_pow2_pos((lgn - k - 1) as nat);
            }
            let layer = InterpolateValue::new(layer_vals, 2);
            interpolations.push(layer);
            proof {
                assert(round_input(target, groups@, cs, (k + 1) as nat) == fold_layer(
                    round_input(target, groups@, cs, k as nat),
                    groups@[k as int],
                    cs[k as int],
                ));
                assert(2 * next@.len() * pow2(k as nat) == self.spec_gs()) by (nonlinear_arith)
                    requires
                        cur@.len() * pow2(k as nat) == self.spec_gs(),
                        2 * next@.len() == cur@.len(),
                ;
                assert(next@.len() * pow2((k + 1) as nat) == self.spec_gs()) by {
                    vstd::arithmetic::power2::lemma_pow2_unfold((k + 1) as nat);
                    assert(next@.len() * (2 * pow2(k as nat)) == 2 * next@.len() * pow2(k as nat))
                        by (nonlinear_arith);
                }
            }
            cur = next;
            k = k + 1;
        }
        proof {
            assert(pow2((self.spec_log_degree() - 1) as nat) * groups@[
                self.spec_log_degree() - 1].spec_size() == self.spec_gs());
            assert(groups@[self.spec_log_degree() - 1].spec_size() == cur@.len())
                by (nonlinear_arith)
                requires
                    pow2((self.spec_log_degree() - 1) as nat) * groups@[
                        self.spec_log_degree() - 1].spec_size() == self.spec_gs(),
                    cur@.len() * pow2((self.spec_log_degree() - 1) as nat) == self.spec_gs(),
                    pow2((self.spec_log_degree() - 1) as nat) >= 1,
            ;
            vstd::arithmetic::power2::lemma_pow2_pos((self.spec_log_degree() - 1) as nat);
            assert(cur@.len() % 2 == 0) by {
                vstd::arithmetic::power2::lemma_pow2_unfold((lgn + 1 - (self.spec_log_degree()
                    - 1)) as nat);
            }
        }
        let last = Self::evaluate_next_domain(
            &cur,
            &groups[self.log_degree - 1],
            inv_2,
            challenges.1[self.log_degree - 1],
        );
        let final_value = last[0];
        proof {
            assert(round_input(target, groups@, cs, self.spec_log_degree()) == fold_layer(
                round_input(target, groups@, cs, (self.spec_log_degree() - 1) as nat),
                groups@[self.spec_log_degree() - 1],
                cs[self.spec_log_degree() - 1],
            ));
            assert(last@[0].as_int() == vals(last@)[0]);
        }
        let mut roots: Vec<[u8; 32]> = Vec::new();
        let mut k: usize = 0;
        while k < interpolations.len()
            invariant
                k <= interpolations@.len(),
                forall|q: int|
                    0 <= q < interpolations@.len() ==> (#[trigger] interpolations@[q]).wf(),
                roots@.len() == k,
                forall|q: int|
                    0 <= q < k ==> #[trigger] roots@[q]@ == merkle_root(
                        interpolations@[q].layer_leaf_hashes(),
                        log2_spec(interpolations@[q].spec_n()),
                    ),
            decreases interpolations@.len() - k,
        {
            roots.push(interpolations[k].commit());
            k = k + 1;
        }
        let iopp_commits = IoppCommits::new(roots, final_value);
        (IoppProverState { interpolations }, iopp_commits)
    }
}

/// `s` is strictly increasing.
pub open spec fn strictly_sorted(s: Seq<usize>) -> bool {
    forall|a: int, b: int| 0 <= a < b < s.len() ==> s[a] < s[b]
}

/// `x` placed into the strictly sorted sequence `s`, dropped if
/// already present.
pub open spec fn insert_sorted(s: Seq<usize>, x: usize) -> Seq<usize>
    decreases s.len(),
{
    if s.len() == 0 {
        seq![x]
    } else if x < s[0] {
        seq![x] + s
    } else if x == s[0] {
        s
    } else {
        seq![s[0]] + insert_sorted(s.drop_first(), x)
    }
}

/// The strictly sorted sequence of the distinct values of `s`.
pub open spec fn sorted_dedup(s: Seq<usize>) -> Seq<usize>
    decreases s.len(),
{
    if s.len() == 0 {
        Seq::empty()
    } else {
        insert_sorted(sorted_dedup(s.drop_last()), s.last())
    }
}

/// Every index masked down: the prover's reduction.
pub open spec fn mask_map(s: Seq<usize>, m: usize) -> Seq<usize> {
    Seq::new(s.len(), |i: int| s[i] & ((m - 1) as usize))
}

/// Every index reduced modulo `m`: the verifier's reduction.
pub open spec fn mod_map(s: Seq<usize>, m: usize) -> Seq<usize> {
    Seq::new(s.len(), |i: int| s[i] % m)
}

/// Places `x` into a strictly sorted vector, keeping it sorted and
/// dropping duplicates.
fn insert_index(out: &mut Vec<usize>, x: usize)
    requires
        strictly_sorted(old(out)@),
    ensures
        final(out)@ == insert_sorted(old(out)@, x),
        strictly_sorted(final(out)@),
        final(out)@.len() <= old(out)@.len() + 1,
        forall|u: int|
            0 <= u < final(out)@.len() ==> final(out)@[u] == x || old(out)@.contains(
                #[trigger] final(out)@[u],
            ),
{
    let ghost s = out@;
    proof {
        assert(s.take(0) =~= Seq::<usize>::empty());
        assert(s.skip(0) =~= s);
        assert(Seq::<usize>::empty() + insert_sorted(s, x) =~= insert_sorted(s, x));
    }
    let mut pos: usize = 0;
    while pos < out.len() && out[pos] < x
        invariant
            s == out@,
            strictly_sorted(s),
            pos <= s.len(),
            forall|j: int| 0 <= j < pos ==> s[j] < x,
            insert_sorted(s, x) == s.take(pos as int) + insert_sorted(s.skip(pos as int), x),
        decreases s.len() - pos,
    {
        proof {
            let sk = s.skip(pos as int);
            assert(sk[0] == s[pos as int]);
            assert(sk.drop_first() =~= s.skip(pos + 1));
            assert(seq![sk[0]] + insert_sorted(sk.drop_first(), x) == insert_sorted(sk, x));
            assert(s.take(pos as int) + (seq![s[pos as int]] + insert_sorted(s.skip(pos + 1), x))
                =~= s.take(pos + 1) + insert_sorted(s.skip(pos + 1), x));
        }
        pos = pos + 1;
    }
    if pos == out.len() {
        out.push(x);
        proof {
            assert(insert_sorted(s.skip(s.len() as int), x) =~= seq![x]);
            assert(s.take(s.len() as int) =~= s);
            assert(out@ =~= s + seq![x]);
            assert forall|u: int|
                0 <= u < out@.len() implies out@[u] == x || s.contains(#[trigger] out@[u]) by {
                if u < s.len() {
                    assert(s[u] == out@[u]);
                }
            }
        }
    } else if out[pos] == x {
        proof {
            let sk = s.skip(pos as int);
            assert(sk[0] == x);
            assert(insert_sorted(sk, x) == sk);
            assert(s.take(pos as int) + s.skip(pos as int) =~= s);
            assert forall|u: int|
                0 <= u < out@.len() implies out@[u] == x || s.contains(#[trigger] out@[u]) by {
                assert(s[u] == out@[u]);
            }
        }
    } else {
        let ghost sk = s.skip(pos as int);
        proof {
            assert(sk[0] == s[pos as int]);
            assert(x < sk[0]);
            assert(insert_sorted(sk, x) == seq![x] + sk);
        }
        out.insert(pos, x);
        proof {
            assert(out@ =~= s.take(pos as int) + (seq![x] + s.skip(pos as int)));
            assert forall|a: int, b: int| 0 <= a < b < out@.len() implies out@[a] < out@[b] by {
                if a < pos {
                    assert(out@[a] == s[a]);
                }
                if b < pos {
                    assert(out@[b] == s[b]);
                }
                if a > pos {
                    assert(out@[a] == s[a - 1]);
                }
                if b > pos {
                    assert(out@[b] == s[b - 1]);
                }
                if a == pos {
                    assert(out@[a] == x);
                }
                if b == pos {
                    assert(out@[b] == x);
                }
            }
            assert forall|u: int|
                0 <= u < out@.len() implies out@[u] == x || s.contains(#[trigger] out@[u]) by {
                if u < pos {
                    assert(s[u] == out@[u]);
                } else if u > pos {
                    assert(s[u - 1] == out@[u]);
                }
            }
        }
    }
}

/// Reduces every index by the prover's mask, then sorts and removes
/// duplicates.
fn reduce_indices_mask(indices: &Vec<usize>, m: usize) -> (r: Vec<usize>)
    requires
        m >= 1,
    ensures
        r@ == sorted_dedup(mask_map(indices@, m)),
        strictly_sorted(r@),
        r@.len() <= indices@.len(),
        forall|u: int| 0 <= u < r@.len() ==> #[trigger] r@[u] < m,
{
    let mut out: Vec<usize> = Vec::new();
    let mut q: usize = 0;
    while q < indices.len()
        invariant
            m >= 1,
            q <= indices@.len(),
            out@ == sorted_dedup(mask_map(indices@, m).take(q as int)),
            strictly_sorted(out@),
            out@.len() <= q,
            forall|u: int| 0 <= u < out@.len() ==> #[trigger] out@[u] < m,
        decreases indices@.len() - q,
    {
        let xv = indices[q];
        let mm = m - 1;
        let v = xv & mm;
        proof {
            assert(xv & mm <= mm) by (bit_vector);
            assert(mask_map(indices@, m).take(q + 1).drop_last() =~= mask_map(indices@, m).take(
                q as int,
            ));
            assert(mask_map(indices@, m).take(q + 1).last() == v);
        }
        insert_index(&mut out, v);
        q = q + 1;
    }
    proof {
        assert(mask_map(indices@, m).take(indices@.len() as int) =~= mask_map(indices@, m));
    }
    out
}

/// Reduces every index modulo `m`, then sorts and removes duplicates.
fn reduce_indices_mod(indices: &Vec<usize>, m: usize) -> (r: Vec<usize>)
    requires
        m >= 1,
    ensures
        r@ == sorted_dedup(mod_map(indices@, m)),
        strictly_sorted(r@),
        r@.len() <= indices@.len(),
        forall|u: int| 0 <= u < r@.len() ==> #[trigger] r@[u] < m,
{
    let mut out: Vec<usize> = Vec::new();
    let mut q: usize = 0;
    while q < indices.len()
        invariant
            m >= 1,
            q <= indices@.len(),
            out@ == sorted_dedup(mod_map(indices@, m).take(q as int)),
            strictly_sorted(out@),
            out@.len() <= q,
            forall|u: int| 0 <= u < out@.len() ==> #[trigger] out@[u] < m,
        decreases indices@.len() - q,
    {
        let v = indices[q] % m;
        proof {
            assert(mod_map(indices@, m).take(q + 1).drop_last() =~= mod_map(indices@, m).take(
                q as int,
            ));
            assert(mod_map(indices@, m).take(q + 1).last() == v);
        }
        insert_index(&mut out, v);
        q = q + 1;
    }
    proof {
        assert(mod_map(indices@, m).take(indices@.len() as int) =~= mod_map(indices@, m));
    }
    out
}

/// The sampled index set of round `i`: the previous round's set, each
/// index masked down to the round's half domain, sorted, deduplicated.
pub open spec fn sample_idxs(init: Seq<usize>, gs: nat, i: nat) -> Seq<usize>
    decreases i,
{
    if i == 0 {
        sorted_dedup(mask_map(init, (gs / 2) as usize))
    } else {
        sorted_dedup(
            mask_map(sample_idxs(init, gs, (i - 1) as nat), (gs / pow2((i + 1) as nat)) as usize),
        )
    }
}

impl Prover {
    /// The layer a query of round `i` is answered from: the base
    /// layer for the first round, the stored fold layers after it.
    pub open spec fn round_layer(self, st: IoppProverState, i: int) -> InterpolateValue {
        if i == 0 {
            self.base_layer()
        } else {
            st.layers()[i - 1]
        }
    }

    /// Answers a query: per round, reduces the sampled indices to the
    /// round's half domain, deduplicates them, and opens that round's
    /// layer at the surviving positions.
    #[verifier::rlimit(100)]
    pub fn sample(
        &self,
        prover_state: &IoppProverState,
        leaf_indices: Vec<usize>,
        domain_size: usize,
    ) -> (r: Vec<QueryResult>)
        requires
            self.wf(),
            domain_size == self.spec_gs(),
            prover_state.layers().len() == self.spec_log_degree() - 1,
            forall|k: int|
                0 <= k < prover_state.layers().len() ==> (#[trigger] prover_state.layers()[k]).wf()
                    && prover_state.layers()[k].spec_leaf_size() == 2 && 2
                    * prover_state.layers()[k].spec_value().len() * pow2(k as nat)
                    == self.spec_gs(),
            2 * self.spec_poly_num() * leaf_indices@.len() <= usize::MAX,
        ensures
            r@.len() == self.spec_log_degree(),
            forall|i: int|
                0 <= i < r@.len() ==> #[trigger] r@[i].entries() == query_entries(
                    self.round_layer(*prover_state, i).spec_value(),
                    self.round_layer(*prover_state, i).spec_n() as int,
                    self.round_layer(*prover_state, i).spec_leaf_size(),
                    sample_idxs(leaf_indices@, self.spec_gs(), i as nat),
                ),
            forall|i: int, t: int, k: int|
                0 <= i < r@.len() && 0 <= t < sample_idxs(leaf_indices@, self.spec_gs(), i as nat).len()
                    && 0 <= k < log2_spec(self.round_layer(*prover_state, i).spec_n())
                    ==> #[trigger] chunk32(
                    r@[i].spec_paths(),
                    t * log2_spec(self.round_layer(*prover_state, i).spec_n()) + k,
                ) == sibling(
                    self.round_layer(*prover_state, i).layer_leaf_hashes(),
                    sample_idxs(leaf_indices@, self.spec_gs(), i as nat)[t] as int,
                    k as nat,
                ),
            forall|i: int|
                0 <= i < r@.len() ==> #[trigger] r@[i].spec_paths().len() == 32 * (sample_idxs(
                    leaf_indices@,
                    self.spec_gs(),
                    i as nat,
                ).len() * log2_spec(self.round_layer(*prover_state, i).spec_n())),
    {
        let mut query_results: Vec<QueryResult> = Vec::new();
        let mut idxs = leaf_indices;
        let ghost init = idxs@;
        let mut ds = domain_size;
        let ghost lgn = log2_spec(self.base_layer().spec_n());
        proof {
            vstd::arithmetic::power2::lemma_pow2_pos((lgn + 1) as nat);
            assert(pow2(0) == 1) by {
                vstd::arithmetic::power2::lemma2_to64();
            }
            if self.spec_log_degree() > lgn + 1 {
                vstd::arithmetic::power2::lemma_pow2_strictly_increases(
                    (lgn + 1) as nat,
                    self.spec_log_degree(),
                );
                assert(false);
            }
        }
        let mut i: usize = 0;
        while i < self.log_degree
            invariant
                self.wf(),
                prover_state.layers().len() == self.spec_log_degree() - 1,
                forall|k: int|
                    0 <= k < prover_state.layers().len() ==> (
                    #[trigger] prover_state.layers()[k]).wf() && prover_state.layers()[
                        k].spec_leaf_size() == 2 && 2 * prover_state.layers()[k].spec_value().len()
                        * pow2(k as nat) == self.spec_gs(),
                2 * self.spec_poly_num() * init.len() <= usize::MAX,
                lgn + 1 == log2_spec(self.spec_gs()),
                self.spec_gs() == pow2((lgn + 1) as nat),
                self.spec_log_degree() <= lgn + 1,
                i <= self.spec_log_degree(),
                ds * pow2(i as nat) == self.spec_gs(),
                idxs@.len() <= init.len(),
                i == 0 ==> idxs@ == init,
                i > 0 ==> idxs@ == sample_idxs(init, self.spec_gs(), (i - 1) as nat),
                i > 0 ==> forall|u: int| 0 <= u < idxs@.len() ==> #[trigger] idxs@[u] < ds,
                query_results@.len() == i,
                forall|q: int|
                    0 <= q < i ==> #[trigger] query_results@[q].entries() == query_entries(
                        self.round_layer(*prover_state, q).spec_value(),
                        self.round_layer(*prover_state, q).spec_n() as int,
                        self.round_layer(*prover_state, q).spec_leaf_size(),
                        sample_idxs(init, self.spec_gs(), q as nat),
                    ),
                forall|q: int, t: int, k: int|
                    0 <= q < i && 0 <= t < sample_idxs(init, self.spec_gs(), q as nat).len() && 0
                        <= k < log2_spec(self.round_layer(*prover_state, q).spec_n())
                        ==> #[trigger] chunk32(
                        query_results@[q].spec_paths(),
                        t * log2_spec(self.round_layer(*prover_state, q).spec_n()) + k,
                    ) == sibling(
                        self.round_layer(*prover_state, q).layer_leaf_hashes(),
                        sample_idxs(init, self.spec_gs(), q as nat)[t] as int,
                        k as nat,
                    ),
                forall|q: int|
                    0 <= q < i ==> #[trigger] query_results@[q].spec_paths().len() == 32 * (
                    sample_idxs(init, self.spec_gs(), q as nat).len() * log2_spec(
                        self.round_layer(*prover_state, q).spec_n(),
                    )),
            decreases self.spec_log_degree() - i,
        {
            proof {
                vstd::arithmetic::power2::lemma_pow2_pos(i as nat);
                assert(ds == pow2((lgn + 1 - i) as nat)) by {
                    vstd::arithmetic::power2::lemma_pow2_adds(
                        i as nat,
                        (lgn + 1 - i) as nat,
                    );
                    assert(ds * pow2(i as nat) == pow2(i as nat) * pow2((lgn + 1 - i) as nat));
                    assert(ds == pow2((lgn + 1 - i) as nat)) by (nonlinear_arith)
                        requires
                            ds * pow2(i as nat) == pow2(i as nat) * pow2((lgn + 1 - i) as nat),
                            pow2(i as nat) >= 1,
                    ;
                }
                vstd::arithmetic::power2::lemma_pow2_unfold((lgn + 1 - i) as nat);
                vstd::arithmetic::power2::lemma_pow2_pos((lgn - i) as nat);
                assert(ds >= 2 && ds % 2 == 0);
            }
            ds = ds / 2;
            proof {
                assert(ds * pow2((i + 1) as nat) == self.spec_gs()) by {
                    vstd::arithmetic::power2::lemma_pow2_unfold((i + 1) as nat);
                    assert(2 * ds == pow2((lgn + 1 - i) as nat));
                    assert(ds * (2 * pow2(i as nat)) == (2 * ds) * pow2(i as nat))
                        by (nonlinear_arith);
                }
                if i == 0 {
                    assert(self.spec_gs() / 2 == ds);
                } else {
                    assert(pow2((i + 1) as nat) >= 1) by {
                        vstd::arithmetic::power2::lemma_pow2_pos((i + 1) as nat);
                    }
                    assert(ds as nat == self.spec_gs() / pow2((i + 1) as nat)) by {
                        vstd::arithmetic::div_mod::lemma_fundamental_div_mod_converse(
                            self.spec_gs() as int,
                            pow2((i + 1) as nat) as int,
                            ds as int,
                            0,
                        );
                    }
                }
            }
            let reduced = reduce_indices_mask(&idxs, ds);
            proof {
                if i == 0 {
                    assert(reduced@ == sample_idxs(init, self.spec_gs(), 0));
                } else {
                    assert(reduced@ == sample_idxs(init, self.spec_gs(), i as nat));
                }
            }
            idxs = reduced;
            if i == 0 {
                proof {
                    assert(self.base_layer().spec_n() == ds);
                    assert(2 * self.spec_poly_num() * idxs@.len() <= 2 * self.spec_poly_num()
                        * init.len()) by (nonlinear_arith)
                        requires
                            idxs@.len() <= init.len(),
                            self.spec_poly_num() >= 0,
                    ;
                }
                query_results.push(self.interpolation.query(&idxs));
            } else {
                proof {
                    let layer = prover_state.layers()[i - 1];
                    assert(2 * layer.spec_value().len() * pow2((i - 1) as nat) == self.spec_gs());
                    assert(layer.spec_value().len() == layer.spec_n() * 2);
                    assert(ds * pow2((i + 1) as nat) == self.spec_gs());
                    assert(pow2((i + 1) as nat) == 4 * pow2((i - 1) as nat)) by {
                        vstd::arithmetic::power2::lemma_pow2_adds((i - 1) as nat, 2);
                        vstd::arithmetic::power2::lemma2_to64();
                    }
                    vstd::arithmetic::power2::lemma_pow2_pos((i - 1) as nat);
                    assert(layer.spec_n() == ds) by (nonlinear_arith)
                        requires
                            2 * (layer.spec_n() * 2) * pow2((i - 1) as nat) == self.spec_gs(),
                            ds * pow2((i + 1) as nat) == self.spec_gs(),
                            pow2((i + 1) as nat) == 4 * pow2((i - 1) as nat),
                            pow2((i - 1) as nat) >= 1,
                    ;
                    assert(2 * idxs@.len() <= 2 * self.spec_poly_num() * init.len())
                        by (nonlinear_arith)
                        requires
                            idxs@.len() <= init.len(),
                            self.spec_poly_num() >= 1,
                    ;
                }
                query_results.push(prover_state.interpolations[i - 1].query(&idxs));
            }
            i = i + 1;
        }
        query_results
    }
}

/// Every opened value is a reduced field element.
pub open spec fn entries_wf(es: Seq<(usize, FieldElement)>) -> bool {
    forall|u: int| 0 <= u < es.len() ==> (#[trigger] es[u]).1.wf()
}

/// A value found among reduced entries is reduced.
proof fn lemma_vm_find_wf(es: Seq<(usize, FieldElement)>, k: usize)
    requires
        entries_wf(es),
        vm_find(es, k) is Some,
    ensures
        vm_find(es, k).unwrap().wf(),
    decreases es.len(),
{
    if es.len() > 0 && es[0].0 != k {
        assert(entries_wf(es.drop_first())) by {
            assert(forall|u: int|
                0 <= u < es.drop_first().len() ==> es.drop_first()[u] == es[u + 1]);
        }
        lemma_vm_find_wf(es.drop_first(), k);
    }
}

/// The fold value the first round's verifier recomputes at index `j`:
/// the Horner accumulation, over the first `p` polynomial lanes, of
/// the fold of each lane's opened pair; `None` if a value is missing.
pub open spec fn round0_acc(
    es: Seq<(usize, FieldElement)>,
    j: int,
    len: int,
    w: int,
    c0: int,
    cf: int,
    p: nat,
) -> Option<int>
    decreases p,
{
    if p == 0 {
        Some(0int)
    } else {
        match round0_acc(es, j, len, w, c0, cf, (p - 1) as nat) {
            None => None,
            Some(acc) => {
                let k1 = j + (p - 1) * len;
                let k2 = j + (p - 1) * len + len / 2;
                if 0 <= k1 <= usize::MAX && 0 <= k2 <= usize::MAX {
                    match vm_find(es, k1 as usize) {
                        None => None,
                        Some(x) => match vm_find(es, k2 as usize) {
                            None => None,
                            Some(nx) => Some(
                                f_add(f_mul(acc, c0), fold_val(x.as_int(), nx.as_int(), w, cf)),
                            ),
                        },
                    }
                } else {
                    None
                }
            },
        }
    }
}

/// The fold value the verifier recomputes at round `i`, index `j`.
pub open spec fn recompute_at(
    qr: QueryResult,
    i: int,
    j: int,
    len: int,
    w: int,
    c0: int,
    cf: int,
    pn: nat,
) -> Option<int> {
    if i == 0 {
        round0_acc(qr.entries(), j, len, w, c0, cf, pn)
    } else if 0 <= j + len / 2 <= usize::MAX && 0 <= j <= usize::MAX {
        match vm_find(qr.entries(), j as usize) {
            None => None,
            Some(x) => match vm_find(qr.entries(), (j + len / 2) as usize) {
                None => None,
                Some(nx) => Some(fold_val(x.as_int(), nx.as_int(), w, cf)),
            },
        }
    } else {
        None
    }
}

/// One fold-consistency check: the recomputed value must equal twice
/// the value committed for the next round (or twice the final scalar
/// on the last round), read from the next opening at the same index.
pub open spec fn check_at(
    qr: QueryResult,
    nextq: Option<QueryResult>,
    fin: FieldElement,
    i: int,
    j: int,
    g: Radix2Group,
    c0: int,
    cf: int,
    pn: nat,
) -> bool {
    let len = g.spec_size() as int;
    let w = g.inv_el(j);
    let expected = match nextq {
        Some(q2) => if 0 <= j <= usize::MAX {
            vm_find(q2.entries(), j as usize)
        } else {
            None
        },
        None => Some(fin),
    };
    match (recompute_at(qr, i, j, len, w, c0, cf, pn), expected) {
        (Some(v), Some(e)) => v == f_add(e.as_int(), e.as_int()),
        _ => false,
    }
}

/// Whether every surviving index of a round passes its fold check.
pub open spec fn folds_ok(
    qr: QueryResult,
    nextq: Option<QueryResult>,
    fin: FieldElement,
    i: int,
    idxs: Seq<usize>,
    g: Radix2Group,
    c0: int,
    cf: int,
    pn: nat,
) -> bool {
    forall|t: int|
        0 <= t < idxs.len() ==> #[trigger] check_at(qr, nextq, fin, i, idxs[t] as int, g, c0, cf, pn)
}

/// The outcome of the rounds from `i` on: reduce the index set, check
/// the round's opening against its commitment, check every fold, and
/// continue; the first failure decides.
pub open spec fn verify_rounds(
    qrs: Seq<QueryResult>,
    roots: Seq<Seq<u8>>,
    root0: Seq<u8>,
    n0: nat,
    fin: FieldElement,
    groups: Seq<Radix2Group>,
    c0: int,
    cs: Seq<int>,
    pn: nat,
    idxs: Seq<usize>,
    i: nat,
) -> Result<(), FriError>
    decreases cs.len() - i,
{
    if i >= cs.len() {
        Ok(())
    } else {
        let half = (groups[i as int].spec_size() / 2) as usize;
        let idxs2 = sorted_dedup(mod_map(idxs, half));
        let ls: nat = if i == 0 {
            2 * pn
        } else {
            2
        };
        let root = if i == 0 {
            root0
        } else {
            roots[i - 1]
        };
        match vmt_spec(
            qrs[i as int].entries(),
            qrs[i as int].spec_paths(),
            idxs2,
            ls,
            (n0 / pow2(i)) as nat,
            root,
        ) {
            Err(e) => Err(e),
            Ok(()) => {
                let nextq = if i + 1 < cs.len() {
                    Some(qrs[i as int + 1])
                } else {
                    None
                };
                if folds_ok(
                    qrs[i as int],
                    nextq,
                    fin,
                    i as int,
                    idxs2,
                    groups[i as int],
                    c0,
                    cs[i as int],
                    pn,
                ) {
                    verify_rounds(qrs, roots, root0, n0, fin, groups, c0, cs, pn, idxs2, i + 1)
                } else {
                    Err(FriError::ProofInvalid)
                }
            },
        }
    }
}

/// The whole verification outcome: a transcript whose shape does not
/// fit the round count is a degree mismatch; otherwise the rounds
/// decide.
pub open spec fn verify_outcome(
    qrs: Seq<QueryResult>,
    roots: Seq<Seq<u8>>,
    root0: Seq<u8>,
    n0: nat,
    fin: FieldElement,
    groups: Seq<Radix2Group>,
    c0: int,
    cs: Seq<int>,
    pn: nat,
    idxs: Seq<usize>,
) -> Result<(), FriError> {
    if roots.len() != cs.len() - 1 || qrs.len() != cs.len() {
        Err(FriError::DegreeMismatch)
    } else {
        verify_rounds(qrs, roots, root0, n0, fin, groups, c0, cs, pn, idxs, 0)
    }
}

/// The verifier: the base commitment's root and leaf count, and the
/// number of batched polynomials.
pub struct Verifier {
    mt_verifier: MerkleTreeVerifier,
    poly_num: usize,
}

impl Verifier {
    /// The root of the base layer the verifier holds.
    pub closed spec fn spec_root(self) -> Seq<u8> {
        self.mt_verifier.spec_root()
    }

    /// The base layer's leaf count.
    pub closed spec fn spec_n0(self) -> nat {
        self.mt_verifier.spec_leave_number()
    }

    /// The number of batched polynomials.
    pub closed spec fn spec_poly_num(self) -> nat {
        self.poly_num as nat
    }

    /// Remembers the published root, the polynomial count and the base
    /// layer's leaf count.
    pub fn new(merkle_root: [u8; 32], poly_num: usize, leave_number: usize) -> (r: Verifier)
        ensures
            r.spec_root() == merkle_root@,
            r.spec_n0() == leave_number,
            r.spec_poly_num() == poly_num,
    {
        Verifier { mt_verifier: MerkleTreeVerifier::new(leave_number, merkle_root), poly_num }
    }
}

/// If the Horner accumulation over all lanes is defined, so is every
/// prefix of it.
proof fn lemma_round0_prefix(
    es: Seq<(usize, FieldElement)>,
    j: int,
    len: int,
    w: int,
    c0: int,
    cf: int,
    p: nat,
    pn: nat,
)
    requires
        p <= pn,
        round0_acc(es, j, len, w, c0, cf, pn) is Some,
    ensures
        round0_acc(es, j, len, w, c0, cf, p) is Some,
    decreases pn,
{
    if p < pn {
        lemma_round0_prefix(es, j, len, w, c0, cf, p, (pn - 1) as nat);
    }
}

impl Verifier {
    /// Checks a whole transcript: rebuilds each round's commitment
    /// checker from the round roots, reduces the sampled indices round
    /// by round exactly as the prover does, verifies each opening, and
    /// recomputes the fold relation at every surviving index.
    #[verifier::loop_isolation(false)]
    #[verifier::rlimit(100)]
    #[verifier::spinoff_prover]
    pub fn verify(
        &self,
        groups: &Vec<Radix2Group>,
        challenges: &(FieldElement, Vec<FieldElement>),
        leaf_indices: Vec<usize>,
        iopp_commits: IoppCommits,
        query_results: Vec<QueryResult>,
    ) -> (r: Result<(), FriError>)
        requires
            challenges.1@.len() >= 1,
            groups@.len() >= challenges.1@.len(),
            forall|i: int| 0 <= i < challenges.1@.len() ==> (#[trigger] groups@[i]).wf(),
            forall|i: int|
                0 <= i < challenges.1@.len() ==> pow2(i as nat) * (#[trigger] groups@[
                    i]).spec_size() == 2 * self.spec_n0(),
            self.spec_n0() == pow2(log2_spec(self.spec_n0())),
            challenges.1@.len() <= log2_spec(self.spec_n0()) + 1,
            challenges.0.wf(),
            all_wf(challenges.1@),
            self.spec_poly_num() >= 1,
            2 * self.spec_poly_num() * self.spec_n0() <= usize::MAX,
            iopp_commits.spec_final().wf(),
            forall|i: int|
                0 <= i < query_results@.len() ==> entries_wf(
                    (#[trigger] query_results@[i]).entries(),
                ),
        ensures
            r == verify_outcome(
                query_results@,
                iopp_commits.spec_roots(),
                self.spec_root(),
                self.spec_n0(),
                iopp_commits.spec_final(),
                groups@,
                challenges.0.as_int(),
                vals(challenges.1@),
                self.spec_poly_num(),
                leaf_indices@,
            ),
    {
        let log_degree = challenges.1.len();
        let roots = iopp_commits.roots();
        if roots.len() != log_degree - 1 {
            return Err(FriError::DegreeMismatch);
        }
        if query_results.len() != log_degree {
            return Err(FriError::DegreeMismatch);
        }
        let ghost qrs = query_results@;
        let ghost rviews = iopp_commits.spec_roots();
        let ghost fin = iopp_commits.spec_final();
        let ghost c0v = challenges.0.as_int();
        let ghost cs = vals(challenges.1@);
        let ghost pn = self.spec_poly_num();
        let ghost n0 = self.spec_n0();
        let ghost m0 = log2_spec(self.spec_n0());
        proof {
            vstd::arithmetic::power2::lemma2_to64();
        }
        let mut mt_verifiers: Vec<MerkleTreeVerifier> = Vec::new();
        let mut leave_num = self.mt_verifier.leaf_count();
        let mut h: usize = 0;
        while h < roots.len()
            invariant
                h <= roots@.len(),
                h <= m0,
                leave_num as nat == pow2((m0 - h) as nat),
                mt_verifiers@.len() == h,
                forall|q: int|
                    0 <= q < h ==> (#[trigger] mt_verifiers@[q]).spec_leave_number() == pow2(
                        (m0 - q - 1) as nat,
                    ) && mt_verifiers@[q].spec_root() == rviews[q],
            decreases roots@.len() - h,
        {
            proof {
                vstd::arithmetic::power2::lemma_pow2_unfold((m0 - h) as nat);
                vstd::arithmetic::power2::lemma_pow2_pos((m0 - h - 1) as nat);
            }
            leave_num = leave_num / 2;
            mt_verifiers.push(MerkleTreeVerifier::new(leave_num, roots[h]));
            h = h + 1;
        }
        let mut idxs = leaf_indices;
        let ghost init = idxs@;
        let mut i: usize = 0;
        while i < log_degree
            invariant
                i <= log_degree,
                i == 0 ==> idxs@ == init,
                verify_rounds(qrs, rviews, self.spec_root(), n0, fin, groups@, c0v, cs, pn, init, 0)
                    == verify_rounds(
                    qrs,
                    rviews,
                    self.spec_root(),
                    n0,
                    fin,
                    groups@,
                    c0v,
                    cs,
                    pn,
                    idxs@,
                    i as nat,
                ),
            decreases log_degree - i,
        {
            let ghost entry_idxs = idxs@;
            proof {
                vstd::arithmetic::power2::lemma_pow2_pos(i as nat);
                assert(pow2((i as int) as nat) * groups@[i as int].spec_size() == 2
                    * self.spec_n0());
                assert(groups@[i as int].spec_size() as int * pow2(i as nat) == 2 * n0)
                    by (nonlinear_arith)
                    requires
                        pow2((i as int) as nat) * groups@[i as int].spec_size() == 2
                            * self.spec_n0(),
                        n0 == self.spec_n0(),
                ;
                vstd::arithmetic::power2::lemma_pow2_adds(i as nat, (m0 + 1 - i) as nat);
                assert(pow2((m0 + 1) as nat) == 2 * n0) by {
                    vstd::arithmetic::power2::lemma_pow2_unfold((m0 + 1) as nat);
                }
                assert(groups@[i as int].spec_size() == pow2((m0 + 1 - i) as nat))
                    by (nonlinear_arith)
                    requires
                        groups@[i as int].spec_size() as int * pow2(i as nat) == 2 * n0,
                        pow2(i as nat) * pow2((m0 + 1 - i) as nat) == pow2((m0 + 1) as nat),
                        pow2((m0 + 1) as nat) == 2 * n0,
                        pow2(i as nat) >= 1,
                ;
                vstd::arithmetic::power2::lemma_pow2_unfold((m0 + 1 - i) as nat);
                vstd::arithmetic::power2::lemma_pow2_pos((m0 - i) as nat);
            }
            let len = groups[i].size();
            let half = len / 2;
            let reduced = reduce_indices_mod(&idxs, half);
            idxs = reduced;
            let ghost idxs2 = idxs@;
            proof {
                assert(half as nat == pow2((m0 - i) as nat));
                assert(n0 / pow2(i as nat) == half as nat) by {
                    vstd::arithmetic::power2::lemma_pow2_pos(i as nat);
                    vstd::arithmetic::power2::lemma_pow2_adds(i as nat, (m0 - i) as nat);
                    vstd::arithmetic::div_mod::lemma_fundamental_div_mod_converse(
                        n0 as int,
                        pow2(i as nat) as int,
                        pow2((m0 - i) as nat) as int,
                        0,
                    );
                }
            }
            proof {
                vstd::arithmetic::power2::lemma_pow2_pos(m0);
                assert(2 * pn <= 2 * pn * n0) by (nonlinear_arith)
                    requires
                        n0 >= 1,
                        pn >= 0,
                ;
            }
            let leaf_size = if i == 0 {
                2 * self.poly_num
            } else {
                2
            };
            let mres = if i == 0 {
                query_results[i].verify_merkle_tree(&idxs, leaf_size, &self.mt_verifier)
            } else {
                query_results[i].verify_merkle_tree(&idxs, leaf_size, &mt_verifiers[i - 1])
            };
            proof {
                assert(pow2(0) == 1) by {
                    vstd::arithmetic::power2::lemma2_to64();
                }
                if i == 0 {
                    assert(self.mt_verifier.spec_leave_number() == n0 / pow2(i as nat));
                    assert(self.mt_verifier.spec_root() == self.spec_root());
                } else {
                    assert(mt_verifiers@[i - 1].spec_leave_number() == pow2((m0 - i) as nat));
                    assert(mt_verifiers@[i - 1].spec_leave_number() == n0 / pow2(i as nat));
                }
            }
            match mres {
                Err(e) => {
                    proof {
                        assert(verify_rounds(
                            qrs, rviews, self.spec_root(), n0, fin, groups@, c0v, cs, pn,
                            entry_idxs, i as nat,
                        ) == Err::<(), FriError>(e));
                    }
                    return Err(e);
                },
                Ok(()) => {},
            }
            let ghost nextq = if i as int + 1 < cs.len() {
                Some(qrs[i as int + 1])
            } else {
                None::<QueryResult>
            };
            let cf = challenges.1[i];
            let c0e = challenges.0;
            proof {
                assert((self.poly_num as int) * (len as int) <= 2 * pn * n0) by (nonlinear_arith)
                    requires
                        len == groups@[i as int].spec_size(),
                        len <= 2 * n0,
                        pn == self.poly_num,
                        pn >= 1,
                        n0 >= 0,
                        len >= 0,
                ;
            }
            let ok = check_round_folds(
                &query_results,
                i,
                &idxs,
                &groups[i],
                c0e,
                cf,
                self.poly_num,
                iopp_commits.final_scalar(),
                log_degree,
            );
            if !ok {
                proof {
                    assert(verify_rounds(
                        qrs, rviews, self.spec_root(), n0, fin, groups@, c0v, cs, pn, entry_idxs,
                        i as nat,
                    ) == Err::<(), FriError>(FriError::ProofInvalid));
                }
                return Err(FriError::ProofInvalid);
            }
            proof {
                assert(folds_ok(
                    qrs[i as int],
                    nextq,
                    fin,
                    i as int,
                    idxs2,
                    groups@[i as int],
                    c0v,
                    cs[i as int],
                    pn,
                ));
                assert(verify_rounds(
                    qrs, rviews, self.spec_root(), n0, fin, groups@, c0v, cs, pn, entry_idxs,
                    i as nat,
                ) == verify_rounds(
                    qrs, rviews, self.spec_root(), n0, fin, groups@, c0v, cs, pn, idxs2,
                    (i + 1) as nat,
                ));
            }
            i = i + 1;
        }
        Ok(())
    }
}


/// Compares two field elements.
fn field_eq(a: FieldElement, b: FieldElement) -> (r: bool)
    ensures
        r == (a.as_int() == b.as_int()),
{
    crate::field::FieldElement::eq_values(a, b)
}

/// Recomputes the fold relation at every surviving index of one round
/// and compares each against twice the next layer's opened value (or
/// twice the final scalar on the last round).
#[verifier::loop_isolation(false)]
#[verifier::rlimit(100)]
#[verifier::spinoff_prover]
fn check_round_folds(
    query_results: &Vec<QueryResult>,
    i: usize,
    idxs: &Vec<usize>,
    group: &Radix2Group,
    c0e: FieldElement,
    cf: FieldElement,
    poly_num: usize,
    fin: FieldElement,
    ld: usize,
) -> (r: bool)
    requires
        group.wf(),
        i < ld,
        ld == query_results@.len(),
        poly_num >= 1,
        c0e.wf(),
        cf.wf(),
        fin.wf(),
        forall|q: int|
            0 <= q < query_results@.len() ==> entries_wf((#[trigger] query_results@[q]).entries()),
        forall|u: int| 0 <= u < idxs@.len() ==> #[trigger] idxs@[u] < group.spec_size() / 2,
        group.spec_size() % 2 == 0,
        group.spec_size() >= 2,
        poly_num * group.spec_size() <= usize::MAX,
    ensures
        r == folds_ok(
            query_results@[i as int],
            if i + 1 < ld {
                Some(query_results@[i as int + 1])
            } else {
                None
            },
            fin,
            i as int,
            idxs@,
            *group,
            c0e.as_int(),
            cf.as_int(),
            poly_num as nat,
        ),
{
    let ghost qrs = query_results@;
    let ghost nextq = if i + 1 < ld {
        Some(qrs[i as int + 1])
    } else {
        None::<QueryResult>
    };
    let ghost c0v = c0e.as_int();
    let ghost cfv = cf.as_int();
    let ghost pn = poly_num as nat;
    let len = group.size();
    let half = len / 2;
    let mut t: usize = 0;
    while t < idxs.len()
        invariant
            t <= idxs@.len(),
            forall|q: int|
                0 <= q < t ==> #[trigger] check_at(
                    qrs[i as int],
                    nextq,
                    fin,
                    i as int,
                    idxs@[q] as int,
                    *group,
                    c0v,
                    cfv,
                    pn,
                ),
        decreases idxs@.len() - t,
    {
        let j = idxs[t];
        let w = group.element_inv_at(j);
        let computed: FieldElement;
        if i == 0 {
            let mut res = FieldElement::zero();
            let mut k = j;
            let mut p: usize = 0;
            loop
                invariant
                    t < idxs@.len(),
                    j == idxs@[t as int],
                    j < half,
                    w.wf(),
                    w.as_int() == group.inv_el(j as int),
                    p <= pn,
                    p < pn ==> k == j + p * len,
                    res.wf(),
                    round0_acc(qrs[i as int].entries(), j as int, len as int, w.as_int(), c0v, cfv, p as nat)
                        == Some(res.as_int()),
                decreases pn - p,
            {
                if p >= poly_num {
                    break ;
                }
                proof {
                    assert((p + 1) * (len as int) <= (poly_num as int) * (len as int))
                        by (nonlinear_arith)
                        requires
                            p < poly_num,
                            len >= 0,
                    ;
                    assert(p * len + len == (p + 1) * len) by (nonlinear_arith);
                }
                let x = match query_results[i].get(k) {
                    Some(x) => x,
                    None => {
                        proof {
                            if round0_acc(
                                qrs[i as int].entries(),
                                j as int,
                                len as int,
                                w.as_int(),
                                c0v,
                                cfv,
                                pn,
                            ) is Some {
                                lemma_round0_prefix(
                                    qrs[i as int].entries(),
                                    j as int,
                                    len as int,
                                    w.as_int(),
                                    c0v,
                                    cfv,
                                    (p + 1) as nat,
                                    pn,
                                );
                            }
                            assert(!check_at(
                                qrs[i as int],
                                nextq,
                                fin,
                                i as int,
                                j as int,
                                *group,
                                c0v,
                                cfv,
                                pn,
                            ));
                        }
                        return false;
                    },
                };
                let nx = match query_results[i].get(k + half) {
                    Some(nx) => nx,
                    None => {
                        proof {
                            if round0_acc(
                                qrs[i as int].entries(),
                                j as int,
                                len as int,
                                w.as_int(),
                                c0v,
                                cfv,
                                pn,
                            ) is Some {
                                lemma_round0_prefix(
                                    qrs[i as int].entries(),
                                    j as int,
                                    len as int,
                                    w.as_int(),
                                    c0v,
                                    cfv,
                                    (p + 1) as nat,
                                    pn,
                                );
                            }
                            assert(!check_at(
                                qrs[i as int],
                                nextq,
                                fin,
                                i as int,
                                j as int,
                                *group,
                                c0v,
                                cfv,
                                pn,
                            ));
                        }
                        return false;
                    },
                };
                proof {
                    lemma_vm_find_wf(qrs[i as int].entries(), k);
                    lemma_vm_find_wf(qrs[i as int].entries(), (k + half) as usize);
                }
                let sum = x.add(nx);
                res = res.mul(c0e).add(sum.add(cf.mul(x.sub(nx).mul(w).sub(sum))));
                // The flat position advances only while another lane
                // remains, so it stays below the opened range.
                if p + 1 < poly_num {
                    proof {
                        assert(j + (p + 1) * (len as int) < (poly_num as int) * (len as int))
                            by (nonlinear_arith)
                            requires
                                j < half,
                                2 * half == len,
                                p + 1 < poly_num,
                                len >= 2,
                        ;
                    }
                    k = k + len;
                } else {
                    k = 0;
                }
                p = p + 1;
            }
            computed = res;
        } else {
            let x = match query_results[i].get(j) {
                Some(x) => x,
                None => {
                    proof {
                        assert(!check_at(
                            qrs[i as int], nextq, fin, i as int, j as int, *group, c0v, cfv, pn,
                        ));
                    }
                    return false;
                },
            };
            let nx = match query_results[i].get(j + half) {
                Some(nx) => nx,
                None => {
                    proof {
                        assert(!check_at(
                            qrs[i as int], nextq, fin, i as int, j as int, *group, c0v, cfv, pn,
                        ));
                    }
                    return false;
                },
            };
            proof {
                lemma_vm_find_wf(qrs[i as int].entries(), j);
                lemma_vm_find_wf(qrs[i as int].entries(), (j + half) as usize);
            }
            let sum = x.add(nx);
            computed = sum.add(cf.mul(x.sub(nx).mul(w).sub(sum)));
        }
        let expected: FieldElement;
        if i + 1 < ld {
            expected = match query_results[i + 1].get(j) {
                Some(e) => e,
                None => {
                    proof {
                        assert(!check_at(
                            qrs[i as int], nextq, fin, i as int, j as int, *group, c0v, cfv, pn,
                        ));
                    }
                    return false;
                },
            };
            proof {
                lemma_vm_find_wf(qrs[i as int + 1].entries(), j);
            }
        } else {
            expected = fin;
        }
        let doubled = expected.double();
        if !field_eq(computed, doubled) {
            proof {
                assert(!check_at(
                    qrs[i as int],
                    nextq,
                    fin,
                    i as int,
                    j as int,
                    *group,
                    c0v,
                    cfv,
                    pn,
                ));
            }
            return false;
        }
        proof {
            assert(check_at(
                qrs[i as int],
                nextq,
                fin,
                i as int,
                j as int,
                *group,
                c0v,
                cfv,
                pn,
            ));
        }
        t = t + 1;
    }
    true
}

} // verus!
