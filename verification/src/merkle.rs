use vstd::prelude::*;
use vstd::arithmetic::power2::pow2;
use sha2::Digest;

verus! {

/// The digest of a byte string, as the hash function computes it: a
/// function of the input bytes alone.
pub uninterp spec fn digest_of(bytes: Seq<u8>) -> Seq<u8>;

/// Relies on sha2::Sha256::digest: the 32-byte digest of the input,
/// a deterministic function of the input bytes alone.
#[verifier::external_body]
fn hash_bytes(bytes: &Vec<u8>) -> (r: [u8; 32])
    ensures
        r@ == digest_of(bytes@),
{
    sha2::Sha256::digest(bytes.as_slice()).into()
}

/// The digest of two child digests, in order.
pub open spec fn hash_pair(a: Seq<u8>, b: Seq<u8>) -> Seq<u8> {
    digest_of(a + b)
}

/// One level of the tree collapsed to the next: adjacent pairs hashed.
pub open spec fn level_up(s: Seq<Seq<u8>>) -> Seq<Seq<u8>> {
    Seq::new((s.len() / 2) as nat, |i: int| hash_pair(s[2 * i], s[2 * i + 1]))
}

/// The tree level `k` steps above the leaf hashes `s`.
pub open spec fn level_k(s: Seq<Seq<u8>>, k: nat) -> Seq<Seq<u8>>
    decreases k,
{
    if k == 0 {
        s
    } else {
        level_up(level_k(s, (k - 1) as nat))
    }
}

/// The root of the tree with leaf hashes `s`, of height `m`.
pub open spec fn merkle_root(s: Seq<Seq<u8>>, m: nat) -> Seq<u8> {
    level_k(s, m)[0]
}

/// The position of the sibling of `p` within its level.
pub open spec fn sib_of(p: int) -> int {
    if p % 2 == 0 {
        p + 1
    } else {
        p - 1
    }
}

/// The digest that sits beside the path of leaf `j` at level `k`.
pub open spec fn sibling(s: Seq<Seq<u8>>, j: int, k: nat) -> Seq<u8> {
    level_k(s, k)[sib_of(j / pow2(k) as int)]
}

/// The 32-byte slice at chunk position `t` of a proof byte string.
pub open spec fn chunk32(b: Seq<u8>, t: int) -> Seq<u8> {
    b.subrange(32 * t, 32 * t + 32)
}

/// The root recomputed from a claimed leaf hash `h` at position `j`,
/// taking one sibling digest per level from the proof bytes `pb`,
/// starting at chunk `base`.
pub open spec fn fold_path(h: Seq<u8>, j: int, pb: Seq<u8>, base: int, height: nat) -> Seq<u8>
    decreases height,
{
    if height == 0 {
        h
    } else {
        let sibh = chunk32(pb, base);
        let h2 = if j % 2 == 0 {
            hash_pair(h, sibh)
        } else {
            hash_pair(sibh, h)
        };
        fold_path(h2, j / 2, pb, base + 1, (height - 1) as nat)
    }
}

/// The floor of the base-two logarithm.
pub open spec fn log2_spec(n: nat) -> nat
    decreases n,
{
    if n <= 1 {
        0
    } else {
        1 + log2_spec(n / 2)
    }
}

/// The views of a sequence of owned byte strings.
pub open spec fn byte_views(s: Seq<Vec<u8>>) -> Seq<Seq<u8>> {
    Seq::new(s.len(), |i: int| s[i]@)
}

/// The views of a sequence of digests.
pub open spec fn digest_views(s: Seq<[u8; 32]>) -> Seq<Seq<u8>> {
    Seq::new(s.len(), |i: int| s[i]@)
}

/// What it means for proof bytes to verify: the byte string has one
/// 32-byte sibling digest per index per level, every index is in
/// range, and refolding each claimed leaf against its siblings
/// reproduces the root.
pub open spec fn verify_spec(
    root: Seq<u8>,
    n: nat,
    idxs: Seq<usize>,
    lvs: Seq<Seq<u8>>,
    pb: Seq<u8>,
) -> bool {
    let height = log2_spec(n);
    &&& lvs.len() == idxs.len()
    &&& pb.len() == 32 * idxs.len() * height
    &&& (forall|t: int| 0 <= t < idxs.len() ==> #[trigger] idxs[t] < n)
    &&& (forall|t: int|
        0 <= t < idxs.len() ==> #[trigger] fold_path(
            digest_of(lvs[t]),
            idxs[t] as int,
            pb,
            t * height,
            height,
        ) == root)
}

/// A committed vector of byte-string leaves: every tree level is kept
/// so that openings are a table lookup.
pub struct MerkleTreeProver {
    levels: Vec<Vec<[u8; 32]>>,
}

/// The root and expected leaf count against which openings are checked.
pub struct MerkleTreeVerifier {
    /// The number of leaves of the committed tree.
    pub leave_number: usize,
    root: [u8; 32],
}

impl MerkleTreeProver {
    /// The hashes at tree level `k`.
    pub closed spec fn hashes_at(self, k: int) -> Seq<Seq<u8>> {
        digest_views(self.levels@[k]@)
    }

    /// The leaf hashes the tree was built over.
    pub closed spec fn leaf_hashes(self) -> Seq<Seq<u8>> {
        self.hashes_at(0)
    }

    /// The height of the tree.
    pub closed spec fn height(self) -> nat {
        (self.levels@.len() - 1) as nat
    }

    /// The number of stored levels.
    pub closed spec fn num_levels(self) -> nat {
        self.levels@.len()
    }

    /// The number of leaves.
    pub open spec fn spec_leave_num(self) -> nat {
        self.leaf_hashes().len()
    }

    /// Every level is the collapse of the one below, the top level is
    /// the lone root, and each level halves the one below exactly.
    pub open spec fn wf(self) -> bool {
        &&& self.height() + 1 == self.num_levels()
        &&& (forall|k: int|
            0 <= k <= self.height() ==> #[trigger] self.hashes_at(k) == level_k(
                self.leaf_hashes(),
                k as nat,
            ))
        &&& (forall|k: int|
            0 <= k <= self.height() ==> #[trigger] self.hashes_at(k).len() == pow2(
                (self.height() - k) as nat,
            ))
        &&& self.spec_leave_num() == pow2(self.height())
    }

    /// Builds the tree over the given serialized leaves.
    pub fn new(leaves: &Vec<Vec<u8>>) -> (r: MerkleTreeProver)
        requires
            exists|m: nat| leaves@.len() == pow2(m),
        ensures
            r.wf(),
            r.spec_leave_num() == leaves@.len(),
            r.leaf_hashes() == Seq::new(leaves@.len(), |i: int| digest_of(leaves@[i]@)),
    {
        let ghost m0: nat = choose|m: nat| leaves@.len() == pow2(m);
        let mut first: Vec<[u8; 32]> = Vec::new();
        let mut i: usize = 0;
        while i < leaves.len()
            invariant
                i <= leaves@.len(),
                first@.len() == i,
                forall|j: int| 0 <= j < i ==> #[trigger] first@[j]@ == digest_of(leaves@[j]@),
            decreases leaves@.len() - i,
        {
            first.push(hash_bytes(&leaves[i]));
            i = i + 1;
        }
        let mut levels: Vec<Vec<[u8; 32]>> = Vec::new();
        levels.push(first);
        let ghost leafh = digest_views(levels@[0]@);
        proof {
            assert(leafh =~= Seq::new(leaves@.len(), |i: int| digest_of(leaves@[i]@)));
            vstd::arithmetic::power2::lemma2_to64();
        }
        let mut cur_len = levels[0].len();
        while cur_len > 1
            invariant
                levels@.len() >= 1,
                levels@.len() - 1 <= m0,
                cur_len == levels@[levels@.len() - 1]@.len(),
                leafh == digest_views(levels@[0]@),
                leafh.len() == pow2(m0),
                forall|k: int|
                    0 <= k < levels@.len() ==> #[trigger] digest_views(levels@[k]@) == level_k(
                        leafh,
                        k as nat,
                    ),
                forall|k: int|
                    0 <= k < levels@.len() ==> #[trigger] digest_views(levels@[k]@).len() == pow2(
                        (m0 - k) as nat,
                    ),
            decreases cur_len,
        {
            let top = levels.len() - 1;
            proof {
                assert(digest_views(levels@[top as int]@).len() == pow2((m0 - top) as nat));
                if m0 - top == 0 {
                    assert(pow2(0) == 1) by {
                        vstd::arithmetic::power2::lemma2_to64();
                    }
                    assert(false);
                }
                vstd::arithmetic::power2::lemma_pow2_unfold((m0 - top) as nat);
            }
            let ghost oldlev = digest_views(levels@[top as int]@);
            let mut next: Vec<[u8; 32]> = Vec::new();
            let half = cur_len / 2;
            let mut j: usize = 0;
            while j < half
                invariant
                    levels@.len() == top + 1,
                    top < levels@.len(),
                    half == cur_len / 2,
                    cur_len == levels@[top as int]@.len(),
                    oldlev == digest_views(levels@[top as int]@),
                    j <= half,
                    next@.len() == j,
                    forall|q: int| 0 <= q < j ==> #[trigger] next@[q]@ == level_up(oldlev)[q],
                decreases half - j,
            {
                let a = levels[top][2 * j];
                let b = levels[top][2 * j + 1];
                let h = hash_two(&a, &b);
                proof {
                    assert(level_up(oldlev)[j as int] == hash_pair(
                        oldlev[2 * j as int],
                        oldlev[2 * j + 1],
                    ));
                }
                next.push(h);
                j = j + 1;
            }
            proof {
                assert(digest_views(next@) =~= level_up(oldlev));
            }
            cur_len = next.len();
            levels.push(next);
            proof {
                assert(digest_views(levels@[top + 1]@) == level_up(level_k(leafh, top as nat)));
                assert(digest_views(levels@[top + 1]@) == level_k(leafh, (top + 1) as nat));
            }
        }
        let r = MerkleTreeProver { levels };
        proof {
            let top = r.levels@.len() - 1;
            assert(digest_views(r.levels@[top]@).len() == pow2((m0 - top) as nat));
            if m0 - top > 0 {
                vstd::arithmetic::power2::lemma_pow2_strictly_increases(0, (m0 - top) as nat);
                assert(pow2(0) == 1) by {
                    vstd::arithmetic::power2::lemma2_to64();
                }
                assert(false);
            }
            assert(r.height() == m0);
        }
        r
    }

    /// The number of leaves.
    pub fn leave_num(&self) -> (r: usize)
        requires
            self.wf(),
        ensures
            r == self.spec_leave_num(),
    {
        self.levels[0].len()
    }

    /// The 32-byte root.
    pub fn commit(&self) -> (r: [u8; 32])
        requires
            self.wf(),
        ensures
            r@ == merkle_root(self.leaf_hashes(), self.height()),
    {
        let top = self.levels.len() - 1;
        proof {
            assert(self.hashes_at(top as int).len() == pow2(0));
            vstd::arithmetic::power2::lemma2_to64();
            assert(self.hashes_at(top as int)[0] == level_k(self.leaf_hashes(), self.height())[0]);
        }
        self.levels[top][0]
    }

    /// The batched opening for the given leaf positions: for each, one
    /// sibling digest per level, bottom up, all concatenated.
    pub fn open(&self, leaf_indices: &Vec<usize>) -> (r: Vec<u8>)
        requires
            self.wf(),
            forall|t: int|
                0 <= t < leaf_indices@.len() ==> #[trigger] leaf_indices@[t] < self.spec_leave_num(),
        ensures
            r@.len() == 32 * (leaf_indices@.len() * self.height()),
            forall|t: int, k: int|
                0 <= t < leaf_indices@.len() && 0 <= k < self.height() ==> #[trigger] chunk32(
                    r@,
                    t * self.height() + k,
                ) == sibling(self.leaf_hashes(), leaf_indices@[t] as int, k as nat),
    {
        let height = self.levels.len() - 1;
        let mut out: Vec<u8> = Vec::new();
        let mut t: usize = 0;
        while t < leaf_indices.len()
            invariant
                self.wf(),
                height == self.height(),
                forall|q: int|
                    0 <= q < leaf_indices@.len() ==> #[trigger] leaf_indices@[q]
                        < self.spec_leave_num(),
                t <= leaf_indices@.len(),
                out@.len() == 32 * (t * height),
                forall|q: int, kk: int|
                    0 <= q < t && 0 <= kk < height ==> #[trigger] chunk32(out@, q * height + kk)
                        == sibling(self.leaf_hashes(), leaf_indices@[q] as int, kk as nat),
            decreases leaf_indices@.len() - t,
        {
            let j0 = leaf_indices[t];
            let mut cur = j0;
            let mut k: usize = 0;
            proof {
                vstd::arithmetic::power2::lemma2_to64();
                assert(t * height + height <= leaf_indices@.len() * height) by (nonlinear_arith)
                    requires
                        t < leaf_indices@.len(),
                        height >= 0,
                ;
            }
            while k < height
                invariant
                    self.wf(),
                    height == self.height(),
                    t < leaf_indices@.len(),
                    j0 == leaf_indices@[t as int],
                    j0 < self.spec_leave_num(),
                    k <= height,
                    cur as int == j0 as int / pow2(k as nat) as int,
                    out@.len() == 32 * (t * height + k),
                    forall|q: int, kk: int|
                        0 <= q < t && 0 <= kk < height ==> #[trigger] chunk32(out@, q * height + kk)
                            == sibling(self.leaf_hashes(), leaf_indices@[q] as int, kk as nat),
                    forall|kk: int|
                        0 <= kk < k ==> #[trigger] chunk32(out@, t * height + kk) == sibling(
                            self.leaf_hashes(),
                            j0 as int,
                            kk as nat,
                        ),
                decreases height - k,
            {
                proof {
                    vstd::arithmetic::power2::lemma_pow2_pos(k as nat);
                    assert(cur < self.hashes_at(k as int).len()) by {
                        vstd::arithmetic::power2::lemma_pow2_adds(
                            k as nat,
                            (self.height() - k) as nat,
                        );
                        vstd::arithmetic::div_mod::lemma_multiply_divide_lt(
                            j0 as int,
                            pow2(k as nat) as int,
                            pow2((self.height() - k) as nat) as int,
                        );
                    }
                    assert(self.hashes_at(k as int).len() % 2 == 0) by {
                        vstd::arithmetic::power2::lemma_pow2_unfold((self.height() - k) as nat);
                    }
                }
                let sib = if cur % 2 == 0 {
                    cur + 1
                } else {
                    cur - 1
                };
                let h = self.levels[k][sib];
                let ghost pre = out@;
                push_hash(&mut out, &h);
                proof {
                    let c0 = t * height + k;
                    assert(chunk32(out@, c0 as int) =~= h@);
                    assert(h@ == sibling(self.leaf_hashes(), j0 as int, k as nat));
                    assert forall|c: int| 0 <= c && 32 * c + 32 <= pre.len() implies #[trigger] chunk32(
                        out@,
                        c,
                    ) == chunk32(pre, c) by {
                        assert(chunk32(out@, c) =~= chunk32(pre, c));
                    }
                    assert forall|q: int, kk: int|
                        0 <= q < t && 0 <= kk < height implies 32 * #[trigger] (q * height + kk)
                        + 32 <= pre.len() by {
                        lemma_grid_bound(q, kk, t as int, height as int);
                    }
                    assert((j0 as int / pow2(k as nat) as int) / 2 == j0 as int / pow2(
                        (k + 1) as nat,
                    ) as int) by {
                        vstd::arithmetic::power2::lemma_pow2_adds(k as nat, 1);
                        vstd::arithmetic::power2::lemma2_to64();
                        vstd::arithmetic::div_mod::lemma_div_denominator(
                            j0 as int,
                            pow2(k as nat) as int,
                            2,
                        );
                    }
                }
                cur = cur / 2;
                k = k + 1;
            }
            t = t + 1;
            proof {
                assert(t * height == (t - 1) * height + height) by (nonlinear_arith);
            }
        }
        out
    }
}

/// In a grid of `t` rows of `height` chunks, the cell `(q, kk)` lies
/// strictly inside the first `t` rows.
proof fn lemma_grid_bound(q: int, kk: int, t: int, height: int)
    requires
        0 <= q < t,
        0 <= kk < height,
    ensures
        q * height + kk + 1 <= t * height,
{
    assert((q + 1) * height <= t * height && q * height + kk + 1 <= (q + 1) * height)
        by (nonlinear_arith)
        requires
            0 <= q < t,
            0 <= kk < height,
    ;
}

/// The digest of two digests, in order.
fn hash_two(a: &[u8; 32], b: &[u8; 32]) -> (r: [u8; 32])
    ensures
        r@ == hash_pair(a@, b@),
{
    let mut buf: Vec<u8> = Vec::new();
    push_hash(&mut buf, a);
    push_hash(&mut buf, b);
    proof {
        assert(buf@ =~= a@ + b@);
    }
    hash_bytes(&buf)
}

/// Appends the 32 bytes of a digest.
fn push_hash(out: &mut Vec<u8>, h: &[u8; 32])
    ensures
        final(out)@ == old(out)@ + h@,
{
    let mut b: usize = 0;
    while b < 32
        invariant
            b <= 32,
            out@ == old(out)@ + h@.subrange(0, b as int),
        decreases 32 - b,
    {
        out.push(h[b]);
        proof {
            assert(old(out)@ + h@.subrange(0, b + 1) =~= (old(out)@ + h@.subrange(0, b as int)).push(
                h@[b as int],
            ));
        }
        b = b + 1;
    }
    proof {
        assert(h@.subrange(0, 32) =~= h@);
    }
}

/// Compares two digests.
fn eq_hash(a: &[u8; 32], b: &[u8; 32]) -> (r: bool)
    ensures
        r == (a@ =~= b@),
{
    let mut i: usize = 0;
    while i < 32
        invariant
            i <= 32,
            forall|j: int| 0 <= j < i ==> a@[j] == b@[j],
        decreases 32 - i,
    {
        if a[i] != b[i] {
            return false;
        }
        i = i + 1;
    }
    true
}

impl MerkleTreeVerifier {
    /// The root the verifier holds.
    pub closed spec fn spec_root(self) -> Seq<u8> {
        self.root@
    }

    /// The leaf count the verifier holds.
    pub closed spec fn spec_leave_number(self) -> nat {
        self.leave_number as nat
    }

    /// The leaf count the verifier holds.
    pub fn leaf_count(&self) -> (r: usize)
        ensures
            r as nat == self.spec_leave_number(),
    {
        self.leave_number
    }

    /// Remembers the root and the leaf count of the committed tree.
    pub fn new(leave_number: usize, merkle_root: [u8; 32]) -> (r: MerkleTreeVerifier)
        ensures
            r.spec_leave_number() == leave_number,
            r.spec_root() == merkle_root@,
    {
        MerkleTreeVerifier { leave_number, root: merkle_root }
    }

    /// Checks an opening: refolds every claimed leaf against the
    /// sibling digests in the proof bytes and compares with the root.
    pub fn verify(&self, paths: &Vec<u8>, leaf_indices: &Vec<usize>, leaves: &Vec<Vec<u8>>) -> (r:
        bool)
        ensures
            r == verify_spec(
                self.spec_root(),
                self.spec_leave_number(),
                leaf_indices@,
                byte_views(leaves@),
                paths@,
            ),
    {
        let ghost lvs = byte_views(leaves@);
        let plen = paths.len();
        let height = log2_exec(self.leave_number);
        if leaves.len() != leaf_indices.len() {
            return false;
        }
        let total = match leaf_indices.len().checked_mul(height) {
            Some(c) => match c.checked_mul(32) {
                Some(c2) => c2,
                None => {
                    proof {
                        let ii = leaf_indices@.len() as int;
                        let hh = height as int;
                        assert(32 * ii * hh == 32 * (ii * hh)) by (nonlinear_arith);
                    }
                    return false;
                },
            },
            None => {
                proof {
                    let ii = leaf_indices@.len() as int;
                    let hh = height as int;
                    assert(32 * ii * hh >= ii * hh) by (nonlinear_arith)
                        requires
                            ii >= 0,
                            hh >= 0,
                    ;
                }
                return false;
            },
        };
        proof {
            let ii = leaf_indices@.len() as int;
            let hh = height as int;
            assert(total == 32 * ii * hh && total == 32 * (ii * hh)) by (nonlinear_arith)
                requires
                    total == ii * hh * 32,
            ;
        }
        if paths.len() != total {
            return false;
        }
        let mut t: usize = 0;
        while t < leaf_indices.len()
            invariant
                lvs == byte_views(leaves@),
                leaves@.len() == leaf_indices@.len(),
                height == log2_spec(self.spec_leave_number()),
                plen == paths@.len(),
                paths@.len() == 32 * (leaf_indices@.len() * height),
                paths@.len() == 32 * leaf_indices@.len() * height,
                t <= leaf_indices@.len(),
                forall|q: int| 0 <= q < t ==> #[trigger] leaf_indices@[q] < self.leave_number,
                forall|q: int|
                    0 <= q < t ==> #[trigger] fold_path(
                        digest_of(lvs[q]),
                        leaf_indices@[q] as int,
                        paths@,
                        q * height,
                        height as nat,
                    ) == self.spec_root(),
            decreases leaf_indices@.len() - t,
        {
            if leaf_indices[t] >= self.leave_number {
                return false;
            }
            let mut cur = hash_bytes(&leaves[t]);
            proof {
                assert(lvs[t as int] == leaves@[t as int]@);
                assert(t * height + height <= leaf_indices@.len() * height) by (nonlinear_arith)
                    requires
                        t < leaf_indices@.len(),
                        height >= 0,
                ;
            }
            let mut j = leaf_indices[t];
            let mut k: usize = 0;
            while k < height
                invariant
                    height == log2_spec(self.spec_leave_number()),
                    plen == paths@.len(),
                    paths@.len() == 32 * (leaf_indices@.len() * height),
                    t < leaf_indices@.len(),
                    t * height + height <= leaf_indices@.len() * height,
                    k <= height,
                    fold_path(cur@, j as int, paths@, t * height + k, (height - k) as nat)
                        == fold_path(
                        digest_of(lvs[t as int]),
                        leaf_indices@[t as int] as int,
                        paths@,
                        t * height,
                        height as nat,
                    ),
                decreases height - k,
            {
                let ghost hrem = (height - k) as nat;
                proof {
                    assert(32 * (t * height + k) + 32 <= paths@.len());
                }
                let base = t * height + k;
                let mut buf: Vec<u8> = Vec::new();
                if j % 2 == 0 {
                    push_hash_vec(&mut buf, &cur);
                    push_path_chunk(&mut buf, paths, base);
                    proof {
                        assert(buf@ =~= cur@ + chunk32(paths@, base as int));
                    }
                } else {
                    push_path_chunk(&mut buf, paths, base);
                    push_hash_vec(&mut buf, &cur);
                    proof {
                        assert(buf@ =~= chunk32(paths@, base as int) + cur@);
                    }
                }
                let ghost oldcur = cur@;
                let ghost oldj = j as int;
                cur = hash_bytes(&buf);
                proof {
                    assert(fold_path(oldcur, oldj, paths@, base as int, hrem) == fold_path(
                        cur@,
                        oldj / 2,
                        paths@,
                        base + 1,
                        (hrem - 1) as nat,
                    ));
                }
                j = j / 2;
                k = k + 1;
            }
            if !eq_hash(&cur, &self.root) {
                proof {
                    assert(fold_path(
                        digest_of(lvs[t as int]),
                        leaf_indices@[t as int] as int,
                        paths@,
                        t * height,
                        height as nat,
                    ) == cur@);
                }
                return false;
            }
            t = t + 1;
        }
        true
    }
}

/// Appends the 32 bytes of a digest to a scratch buffer.
fn push_hash_vec(out: &mut Vec<u8>, h: &[u8; 32])
    ensures
        final(out)@ == old(out)@ + h@,
{
    push_hash(out, h)
}

/// Appends the 32-byte chunk at position `c` of the proof bytes.
fn push_path_chunk(out: &mut Vec<u8>, paths: &Vec<u8>, c: usize)
    requires
        32 * c + 32 <= paths@.len(),
    ensures
        final(out)@ == old(out)@ + chunk32(paths@, c as int),
    decreases 0int,
{
    let plen = paths.len();
    let mut b: usize = 0;
    while b < 32
        invariant
            plen == paths@.len(),
            32 * c + 32 <= paths@.len(),
            b <= 32,
            out@ == old(out)@ + chunk32(paths@, c as int).subrange(0, b as int),
        decreases 32 - b,
    {
        out.push(paths[32 * c + b]);
        proof {
            assert(old(out)@ + chunk32(paths@, c as int).subrange(0, b + 1) =~= (old(out)@
                + chunk32(paths@, c as int).subrange(0, b as int)).push(paths@[32 * c + b]));
        }
        b = b + 1;
    }
    proof {
        assert(chunk32(paths@, c as int).subrange(0, 32) =~= chunk32(paths@, c as int));
    }
}

/// The floor of the base-two logarithm.
pub(crate) fn log2_exec(n: usize) -> (r: usize)
    ensures
        r == log2_spec(n as nat),
    decreases 0int,
{
    let mut m = n;
    let mut h: usize = 0;
    while m > 1
        invariant
            h + log2_spec(m as nat) == log2_spec(n as nat),
            m <= n,
            h + m <= n + 1,
        decreases m,
    {
        m = m / 2;
        h = h + 1;
    }
    h
}

/// Collapsing once and then `k` times is collapsing `k + 1` times.
proof fn lemma_level_k_commute(s: Seq<Seq<u8>>, k: nat)
    ensures
        level_k(s, (k + 1) as nat) == level_k(level_up(s), k),
    decreases k,
{
    if k == 0 {
        assert(level_k(s, 1nat) == level_up(level_k(s, 0nat)));
        assert(level_k(level_up(s), 0nat) == level_up(s));
    } else {
        lemma_level_k_commute(s, (k - 1) as nat);
        assert(level_k(s, (k + 1) as nat) == level_up(level_k(s, k)));
        assert(level_k(level_up(s), k) == level_up(level_k(level_up(s), (k - 1) as nat)));
    }
}

/// The base-two logarithm of a power of two.
pub proof fn lemma_log2_pow2(m: nat)
    ensures
        log2_spec(pow2(m)) == m,
    decreases m,
{
    vstd::arithmetic::power2::lemma2_to64();
    if m == 0 {
    } else {
        vstd::arithmetic::power2::lemma_pow2_unfold(m);
        vstd::arithmetic::power2::lemma_pow2_pos((m - 1) as nat);
        lemma_log2_pow2((m - 1) as nat);
    }
}

/// Refolding a leaf hash against its true sibling digests reproduces
/// the root of the tree.
pub proof fn lemma_fold_path_complete(s: Seq<Seq<u8>>, m: nat, j: int, pb: Seq<u8>, base: int)
    requires
        s.len() == pow2(m),
        0 <= j < s.len(),
        forall|k: int| 0 <= k < m ==> #[trigger] chunk32(pb, base + k) == sibling(s, j, k as nat),
    ensures
        fold_path(s[j], j, pb, base, m) == merkle_root(s, m),
    decreases m,
{
    vstd::arithmetic::power2::lemma2_to64();
    if m == 0 {
    } else {
        let s2 = level_up(s);
        vstd::arithmetic::power2::lemma_pow2_unfold(m);
        assert(s2.len() == pow2((m - 1) as nat));
        let sibh = chunk32(pb, base + 0);
        assert(sibh == sibling(s, j, 0));
        assert(j / pow2(0) as int == j);
        vstd::arithmetic::div_mod::lemma_fundamental_div_mod(j, 2);
        let h2 = if j % 2 == 0 {
            hash_pair(s[j], sibh)
        } else {
            hash_pair(sibh, s[j])
        };
        assert(h2 == s2[j / 2]);
        assert(0 <= j / 2 < s2.len());
        assert forall|k: int| 0 <= k < m - 1 implies #[trigger] chunk32(pb, (base + 1) + k)
            == sibling(s2, j / 2, k as nat) by {
            assert(chunk32(pb, base + (k + 1)) == sibling(s, j, (k + 1) as nat));
            lemma_level_k_commute(s, k as nat);
            vstd::arithmetic::power2::lemma_pow2_adds(1, k as nat);
            vstd::arithmetic::power2::lemma_pow2_pos(k as nat);
            vstd::arithmetic::div_mod::lemma_div_denominator(j, 2, pow2(k as nat) as int);
            assert((j / 2) / pow2(k as nat) as int == j / pow2((k + 1) as nat) as int);
        }
        lemma_fold_path_complete(s2, (m - 1) as nat, j / 2, pb, base + 1);
        lemma_level_k_commute(s, (m - 1) as nat);
        assert(fold_path(s[j], j, pb, base, m) == fold_path(h2, j / 2, pb, base + 1, (m - 1) as nat));
    }
}

/// An opening produced from the tree itself always verifies: the
/// provable half of commitment binding.
pub proof fn lemma_open_verifies(
    leafh: Seq<Seq<u8>>,
    m: nat,
    idxs: Seq<usize>,
    lvs: Seq<Seq<u8>>,
    pb: Seq<u8>,
)
    requires
        leafh.len() == pow2(m),
        lvs.len() == idxs.len(),
        forall|t: int| 0 <= t < idxs.len() ==> #[trigger] idxs[t] < leafh.len(),
        forall|t: int|
            0 <= t < idxs.len() ==> #[trigger] digest_of(lvs[t]) == leafh[idxs[t] as int],
        pb.len() == 32 * (idxs.len() * m),
        forall|t: int, k: int|
            0 <= t < idxs.len() && 0 <= k < m ==> #[trigger] chunk32(pb, t * m + k) == sibling(
                leafh,
                idxs[t] as int,
                k as nat,
            ),
    ensures
        verify_spec(merkle_root(leafh, m), pow2(m), idxs, lvs, pb),
{
    lemma_log2_pow2(m);
    assert(32 * idxs.len() * m == 32 * (idxs.len() * m)) by (nonlinear_arith);
    assert forall|t: int| 0 <= t < idxs.len() implies #[trigger] fold_path(
        digest_of(lvs[t]),
        idxs[t] as int,
        pb,
        t * m,
        m,
    ) == merkle_root(leafh, m) by {
        assert forall|k: int| 0 <= k < m implies #[trigger] chunk32(pb, t * m + k) == sibling(
            leafh,
            idxs[t] as int,
            k as nat,
        ) by {
            assert(chunk32(pb, t * m + k) == sibling(leafh, idxs[t] as int, k as nat));
        }
        lemma_fold_path_complete(leafh, m, idxs[t] as int, pb, t * (m as int));
    }
}

} // verus!
