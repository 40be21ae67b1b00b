use vstd::prelude::*;
use vstd::arithmetic::power2::pow2;

use crate::field::{f_add, f_mul, f_sub, FieldElement};
use crate::group::Radix2Group;
use crate::protocol::{
    batched, fold_layer, fold_val, folds_ok, gather, horner_at, mask_map, mod_map, query_entries,
    round_input, sorted_dedup, strictly_sorted, verify_rounds, vm_find, vmt_spec,
    InterpolateValue, QueryResult,
};
use crate::FriError;

verus! {

/// Index reduction consistency: masking an index by `m - 1` and
/// reducing it modulo `m` agree for a power-of-two `m`, so the
/// prover's reduced index set and the verifier's are the same
/// sequence, sorted and deduplicated alike.
pub proof fn lemma_index_reduction_consistent(s: Seq<usize>, m: usize, e: nat)
    requires
        m >= 1,
        m as nat == pow2(e),
        e < usize::BITS,
    ensures
        sorted_dedup(mask_map(s, m)) == sorted_dedup(mod_map(s, m)),
{
    assert forall|u: int| 0 <= u < s.len() implies mask_map(s, m)[u] == mod_map(s, m)[u] by {
        vstd::bits::lemma_usize_low_bits_mask_is_mod(s[u], e);
        vstd::bits::lemma_low_bits_mask_values();
        lemma_low_bits_mask_is_pow2_minus_one(e);
        assert((vstd::bits::low_bits_mask(e) as usize) == (m - 1) as usize);
    }
    assert(mask_map(s, m) =~= mod_map(s, m));
}

/// The mask of the low `e` bits is one less than the `e`-th power of
/// two.
proof fn lemma_low_bits_mask_is_pow2_minus_one(e: nat)
    ensures
        vstd::bits::low_bits_mask(e) == pow2(e) - 1,
    decreases e,
{
    if e == 0 {
        assert(vstd::bits::low_bits_mask(0) == 0) by {
            vstd::bits::lemma_low_bits_mask_values();
        }
        assert(pow2(0) == 1) by {
            vstd::arithmetic::power2::lemma2_to64();
        }
    } else {
        lemma_low_bits_mask_is_pow2_minus_one((e - 1) as nat);
        vstd::bits::lemma_low_bits_mask_unfold(e);
        vstd::arithmetic::power2::lemma_pow2_unfold(e);
    }
}

/// Batching any number of all-zero lanes gives zero at every domain
/// position, whatever the batching challenge.
pub proof fn lemma_batched_zero(v: Seq<int>, gs: nat, c: int, pn: nat)
    requires
        forall|u: int| 0 <= u < v.len() ==> #[trigger] v[u] == 0,
        forall|i: int, p: int| 0 <= i < gs && 0 <= p < pn ==> 0 <= #[trigger] (i + p * gs) < v.len(),
    ensures
        forall|i: int|
            0 <= i < gs ==> #[trigger] batched(v, gs, c, pn)[i] == 0,
{
    assert forall|i: int| 0 <= i < gs implies #[trigger] batched(v, gs, c, pn)[i] == 0 by {
        lemma_horner_zero(v, gs as int, c, i, pn, gs, pn);
    }
}

/// The Horner accumulation over all-zero lane values is zero.
proof fn lemma_horner_zero(v: Seq<int>, gs: int, c: int, i: int, p: nat, gsb: nat, pnb: nat)
    requires
        forall|u: int| 0 <= u < v.len() ==> #[trigger] v[u] == 0,
        forall|ii: int, pp: int| 0 <= ii < gsb && 0 <= pp < pnb ==> 0 <= #[trigger] (ii + pp * gsb) < v.len(),
        0 <= i < gsb,
        p <= pnb,
        gs == gsb,
    ensures
        horner_at(v, gs, c, i, p) == 0,
    decreases p,
{
    if p > 0 {
        lemma_horner_zero(v, gs, c, i, (p - 1) as nat, gsb, pnb);
        assert(0 <= i + (p - 1) * gs < v.len());
        assert(v[i + (p - 1) * gs] == 0);
        assert(f_mul(0, c) == 0) by {
            assert(0 * c == 0) by (nonlinear_arith);
        }
        assert(f_add(0, 0) == 0);
    }
}

/// Folding an all-zero layer gives an all-zero layer: every fold of a
/// zero pair is zero, under any challenge.
pub proof fn lemma_fold_layer_zero(v: Seq<int>, g: Radix2Group, c: int)
    requires
        forall|u: int| 0 <= u < v.len() ==> #[trigger] v[u] == 0,
    ensures
        forall|u: int|
            0 <= u < fold_layer(v, g, c).len() ==> #[trigger] fold_layer(v, g, c)[u] == 0,
{
    assert forall|u: int|
        0 <= u < fold_layer(v, g, c).len() implies #[trigger] fold_layer(v, g, c)[u] == 0 by {
        let w = g.inv_el(u);
        lemma_fold_val_zero(w, c);
        assert(f_mul(0, crate::field::INV_2 as int) == 0) by {
            assert(0 * (crate::field::INV_2 as int) == 0) by (nonlinear_arith);
        }
    }
}

/// The fold of a zero pair is zero.
proof fn lemma_fold_val_zero(w: int, c: int)
    ensures
        fold_val(0, 0, w, c) == 0,
{
    assert(f_add(0, 0) == 0);
    assert(f_sub(0, 0) == 0);
    assert(f_mul(0, w) == 0) by {
        assert(0 * w == 0) by (nonlinear_arith);
    }
    assert(f_mul(c, 0) == 0) by {
        assert(c * 0 == 0) by (nonlinear_arith);
    }
}

/// An all-zero batched vector stays all-zero through every fold
/// round, so the whole proof collapses to a zero final value.
pub proof fn lemma_zero_rounds(b: Seq<int>, gs: Seq<Radix2Group>, cs: Seq<int>, k: nat)
    requires
        forall|u: int| 0 <= u < b.len() ==> #[trigger] b[u] == 0,
    ensures
        forall|u: int|
            0 <= u < round_input(b, gs, cs, k).len() ==> #[trigger] round_input(b, gs, cs, k)[u]
                == 0,
    decreases k,
{
    if k > 0 {
        lemma_zero_rounds(b, gs, cs, (k - 1) as nat);
        lemma_fold_layer_zero(round_input(b, gs, cs, (k - 1) as nat), gs[k - 1], cs[k - 1]);
    }
}

/// Fold soundness: when a round's opening verifies but some surviving
/// index fails its fold-consistency check, the verifier rejects the
/// transcript with `ProofInvalid`. A fold challenge desynchronized
/// between prover and verifier that changes the relation at any
/// sampled index is therefore never accepted.
pub proof fn lemma_fold_soundness(
    qrs: Seq<QueryResult>,
    rviews: Seq<Seq<u8>>,
    root0: Seq<u8>,
    n0: nat,
    fin: FieldElement,
    groups: Seq<Radix2Group>,
    c0: int,
    cs: Seq<int>,
    pn: nat,
    idxs: Seq<usize>,
    i: nat,
)
    requires
        i < cs.len(),
        vmt_spec(
            qrs[i as int].entries(),
            qrs[i as int].spec_paths(),
            sorted_dedup(mod_map(idxs, (groups[i as int].spec_size() / 2) as usize)),
            if i == 0 {
                2 * pn
            } else {
                2
            },
            (n0 / pow2(i)) as nat,
            if i == 0 {
                root0
            } else {
                rviews[i - 1]
            },
        ) is Ok,
        !folds_ok(
            qrs[i as int],
            if i + 1 < cs.len() {
                Some(qrs[i as int + 1])
            } else {
                None
            },
            fin,
            i as int,
            sorted_dedup(mod_map(idxs, (groups[i as int].spec_size() / 2) as usize)),
            groups[i as int],
            c0,
            cs[i as int],
            pn,
        ),
    ensures
        verify_rounds(qrs, rviews, root0, n0, fin, groups, c0, cs, pn, idxs, i) == Err::<
            (),
            FriError,
        >(FriError::ProofInvalid),
{
}

/// A transcript is accepted only if, at every round, the opening
/// verifies and every surviving index passes its fold check.
pub proof fn lemma_accept_requires_folds(
    qrs: Seq<QueryResult>,
    rviews: Seq<Seq<u8>>,
    root0: Seq<u8>,
    n0: nat,
    fin: FieldElement,
    groups: Seq<Radix2Group>,
    c0: int,
    cs: Seq<int>,
    pn: nat,
    idxs: Seq<usize>,
    i: nat,
)
    requires
        i < cs.len(),
        verify_rounds(qrs, rviews, root0, n0, fin, groups, c0, cs, pn, idxs, i) is Ok,
    ensures
        folds_ok(
            qrs[i as int],
            if i + 1 < cs.len() {
                Some(qrs[i as int + 1])
            } else {
                None
            },
            fin,
            i as int,
            sorted_dedup(mod_map(idxs, (groups[i as int].spec_size() / 2) as usize)),
            groups[i as int],
            c0,
            cs[i as int],
            pn,
        ),
        verify_rounds(
            qrs,
            rviews,
            root0,
            n0,
            fin,
            groups,
            c0,
            cs,
            pn,
            sorted_dedup(mod_map(idxs, (groups[i as int].spec_size() / 2) as usize)),
            i + 1,
        ) is Ok,
{
}

/// Doubling invariant: doubling a stored fold-layer value recovers
/// exactly the fold of its pair of parent values. The prover halves
/// each folded value before committing it, and the verifier doubles
/// its recomputed fold for comparison: the round trip is lossless at
/// every position, so the comparison happens at matching scale.
pub proof fn lemma_doubling_invariant(v: Seq<int>, g: Radix2Group, c: int, p: int)
    requires
        0 <= p < fold_layer(v, g, c).len(),
    ensures
        f_add(fold_layer(v, g, c)[p], fold_layer(v, g, c)[p]) == fold_val(
            v[p],
            v[p + v.len() as int / 2],
            g.inv_el(p),
            c,
        ),
{
    let fv = fold_val(v[p], v[p + v.len() as int / 2], g.inv_el(p), c);
    assert(0 <= fv < crate::field::P as int) by {
        vstd::arithmetic::div_mod::lemma_mod_bound(
            {
                let sum = f_add(v[p], v[p + v.len() as int / 2]);
                sum + f_mul(
                    c,
                    crate::field::f_sub(
                        f_mul(crate::field::f_sub(v[p], v[p + v.len() as int / 2]), g.inv_el(p)),
                        sum,
                    ),
                )
            },
            crate::field::P as int,
        );
    }
    crate::field::lemma_halve_then_double(fv);
}

/// The first entry with the sought key decides the lookup.
proof fn lemma_vm_find_at(es: Seq<(usize, FieldElement)>, u0: int, key: usize)
    requires
        0 <= u0 < es.len(),
        es[u0].0 == key,
        forall|u: int| 0 <= u < u0 ==> (#[trigger] es[u]).0 != key,
    ensures
        vm_find(es, key) == Some(es[u0].1),
    decreases u0,
{
    if u0 > 0 {
        assert(es[0].0 != key);
        assert(forall|u: int|
            0 <= u < u0 - 1 ==> (#[trigger] es.drop_first()[u]).0 == es[u + 1].0);
        lemma_vm_find_at(es.drop_first(), u0 - 1, key);
    }
}

/// In an honest opening of a layer at distinct indices, the lookup at
/// flat position `idxs[q] + lane * n` finds exactly the layer's value
/// there.
proof fn lemma_query_entries_find(
    v: Seq<FieldElement>,
    n: int,
    ls: nat,
    idxs: Seq<usize>,
    lane: int,
    q: int,
)
    requires
        strictly_sorted(idxs),
        forall|t: int| 0 <= t < idxs.len() ==> #[trigger] idxs[t] < n,
        0 <= lane < ls,
        0 <= q < idxs.len(),
        forall|kk: int, ii: int|
            0 <= kk < ls && 0 <= ii < n ==> 0 <= #[trigger] (kk * n + ii) < v.len(),
        idxs[q] + lane * n <= usize::MAX,
    ensures
        vm_find(query_entries(v, n, ls, idxs), (idxs[q] + lane * n) as usize) == Some(
            v[idxs[q] + lane * n],
        ),
{
    let es = query_entries(v, n, ls, idxs);
    let key = (idxs[q] + lane * n) as usize;
    let u0 = lane * idxs.len() as int + q;
    assert(0 <= u0 < es.len()) by {
        assert((lane + 1) * idxs.len() as int <= ls * idxs.len()) by (nonlinear_arith)
            requires
                0 <= lane < ls,
                idxs.len() >= 0,
        ;
        assert(lane * idxs.len() as int + q + 1 <= (lane + 1) * idxs.len() as int)
            by (nonlinear_arith)
            requires
                q < idxs.len(),
        ;
    }
    assert(es[u0].0 == key && es[u0].1 == v[idxs[q] + lane * n]) by {
        vstd::arithmetic::div_mod::lemma_fundamental_div_mod_converse(
            u0,
            idxs.len() as int,
            lane,
            q,
        );
    }
    assert forall|u: int| 0 <= u < u0 implies (#[trigger] es[u]).0 != key by {
        let lane2 = u / idxs.len() as int;
        let q2 = u % idxs.len() as int;
        vstd::arithmetic::div_mod::lemma_fundamental_div_mod(u, idxs.len() as int);
        vstd::arithmetic::div_mod::lemma_mod_bound(u, idxs.len() as int);
        vstd::arithmetic::div_mod::lemma_mod_bound(u0, idxs.len() as int);
        assert(0 <= lane2 && 0 <= q2 < idxs.len());
        assert(lane2 <= lane) by {
            if lane2 > lane {
                assert(u >= lane2 * idxs.len() as int) by (nonlinear_arith)
                    requires
                        u == lane2 * idxs.len() as int + q2,
                        q2 >= 0,
                ;
                assert((lane + 1) * idxs.len() as int <= lane2 * idxs.len() as int)
                    by (nonlinear_arith)
                    requires
                        lane + 1 <= lane2,
                        idxs.len() >= 0,
                ;
                assert((lane + 1) * idxs.len() as int == lane * idxs.len() as int + idxs.len())
                    by (nonlinear_arith);
            }
        }
        assert(es[u].0 == (idxs[q2] + lane2 * n) as usize);
        if lane2 == lane {
            assert(q2 < q) by {
                assert(u == lane * idxs.len() as int + q2);
            }
            assert(idxs[q2] < idxs[q]);
            assert(idxs[q2] + lane2 * n < idxs[q] + lane * n);
        } else {
            assert(lane2 < lane);
            assert(idxs[q2] + lane2 * n < idxs[q] + lane * n) by (nonlinear_arith)
                requires
                    lane2 < lane,
                    idxs[q2] < n,
                    0 <= idxs[q],
                    n > 0,
            ;
        }
        assert(0 <= idxs[q2] + lane2 * n) by (nonlinear_arith)
            requires
                0 <= idxs[q2],
                0 <= lane2,
                n > 0,
        ;
    }
    lemma_vm_find_at(es, u0, key);
}

/// Commitment round trip, the provable half: an opening produced by
/// an honest layer at distinct in-range indices carries exactly the
/// layer's values, and checking it against the layer's own root
/// succeeds.
pub proof fn lemma_honest_opening_verifies(layer: InterpolateValue, idxs: Seq<usize>)
    requires
        layer.wf(),
        strictly_sorted(idxs),
        forall|t: int| 0 <= t < idxs.len() ==> #[trigger] idxs[t] < layer.spec_n(),
        layer.spec_leaf_size() * idxs.len() <= usize::MAX,
        layer.spec_value().len() <= usize::MAX,
    ensures
        forall|pb: Seq<u8>|
            pb.len() == 32 * (idxs.len() * crate::merkle::log2_spec(layer.spec_n())) && (forall|
                t: int,
                k: int,
            |
                0 <= t < idxs.len() && 0 <= k < crate::merkle::log2_spec(layer.spec_n())
                    ==> #[trigger] crate::merkle::chunk32(
                    pb,
                    t * crate::merkle::log2_spec(layer.spec_n()) + k,
                ) == crate::merkle::sibling(
                    layer.layer_leaf_hashes(),
                    idxs[t] as int,
                    k as nat,
                )) ==> #[trigger] vmt_spec(
                query_entries(
                    layer.spec_value(),
                    layer.spec_n() as int,
                    layer.spec_leaf_size(),
                    idxs,
                ),
                pb,
                idxs,
                layer.spec_leaf_size(),
                layer.spec_n(),
                crate::merkle::merkle_root(
                    layer.layer_leaf_hashes(),
                    crate::merkle::log2_spec(layer.spec_n()),
                ),
            ) is Ok,
{
    let v = layer.spec_value();
    let n = layer.spec_n() as int;
    let ls = layer.spec_leaf_size();
    let es = query_entries(v, n, ls, idxs);
    let m = crate::merkle::log2_spec(layer.spec_n());
    let leafh = layer.layer_leaf_hashes();
    assert(forall|kk: int, ii: int|
        0 <= kk < ls && 0 <= ii < n ==> 0 <= #[trigger] (kk * n + ii) < v.len()) by {
        assert forall|kk: int, ii: int|
            0 <= kk < ls && 0 <= ii < n implies 0 <= #[trigger] (kk * n + ii) < v.len() by {
            assert((kk + 1) * n <= ls * n && 0 <= kk * n && kk * n + ii + 1 <= (kk + 1) * n)
                by (nonlinear_arith)
                requires
                    0 <= kk < ls,
                    0 <= ii < n,
            ;
            assert(ls * n == n * ls) by (nonlinear_arith);
        }
    }
    assert forall|t: int| 0 <= t < idxs.len() implies #[trigger] gather(es, idxs[t] as int, n, ls)
        is Some && gather(es, idxs[t] as int, n, ls).unwrap() == crate::protocol::leaf_fields_of(
        v,
        n,
        ls,
        idxs[t] as int,
    ) by {
        lemma_gather_honest(v, n, ls, idxs, t, ls);
    }
    assert forall|t: int|
        0 <= t < idxs.len() implies crate::merkle::digest_of(
        #[trigger] crate::protocol::gathered_leaves(es, idxs, n, ls)[t],
    ) == leafh[idxs[t] as int] by {
        assert(crate::protocol::gathered_leaves(es, idxs, n, ls)[t] == crate::field::ser_fields(
            crate::protocol::leaf_fields_of(v, n, ls, idxs[t] as int),
        ));
        assert(leafh[idxs[t] as int] == crate::merkle::digest_of(
            layer.leaf_bytes(idxs[t] as int),
        ));
    }
    assert forall|pb: Seq<u8>|
        pb.len() == 32 * (idxs.len() * m) && (forall|t: int, k: int|
            0 <= t < idxs.len() && 0 <= k < m ==> #[trigger] crate::merkle::chunk32(pb, t * m + k)
                == crate::merkle::sibling(leafh, idxs[t] as int, k as nat)) implies #[trigger] vmt_spec(
        es,
        pb,
        idxs,
        ls,
        layer.spec_n(),
        crate::merkle::merkle_root(leafh, m),
    ) is Ok by {
        crate::merkle::lemma_open_verifies(
            leafh,
            m,
            idxs,
            crate::protocol::gathered_leaves(es, idxs, n, ls),
            pb,
        );
        assert(crate::merkle::verify_spec(
            crate::merkle::merkle_root(leafh, m),
            layer.spec_n(),
            idxs,
            crate::protocol::gathered_leaves(es, idxs, n, ls),
            pb,
        )) by {
            assert(pow2(m) == layer.spec_n());
        }
    }
}

/// Gathering the first `j` lanes of an honest opening yields exactly
/// the layer's leaf values.
proof fn lemma_gather_honest(
    v: Seq<FieldElement>,
    n: int,
    ls: nat,
    idxs: Seq<usize>,
    t: int,
    j: nat,
)
    requires
        strictly_sorted(idxs),
        forall|q: int| 0 <= q < idxs.len() ==> #[trigger] idxs[q] < n,
        0 <= t < idxs.len(),
        j <= ls,
        forall|kk: int, ii: int|
            0 <= kk < ls && 0 <= ii < n ==> 0 <= #[trigger] (kk * n + ii) < v.len(),
        v.len() <= usize::MAX,
    ensures
        gather(query_entries(v, n, ls, idxs), idxs[t] as int, n, j) is Some,
        gather(query_entries(v, n, ls, idxs), idxs[t] as int, n, j).unwrap() == Seq::new(
            j,
            |k: int| v[k * n + idxs[t]],
        ),
    decreases j,
{
    let es = query_entries(v, n, ls, idxs);
    if j > 0 {
        lemma_gather_honest(v, n, ls, idxs, t, (j - 1) as nat);
        assert(0 <= (j - 1) * n + idxs[t] < v.len());
        assert(idxs[t] + (j - 1) * n <= usize::MAX);
        lemma_query_entries_find(v, n, ls, idxs, j - 1, t);
        assert(gather(es, idxs[t] as int, n, j).unwrap() =~= Seq::new(
            j,
            |k: int| v[k * n + idxs[t]],
        ));
    } else {
        assert(gather(es, idxs[t] as int, n, 0).unwrap() =~= Seq::new(
            0,
            |k: int| v[k * n + idxs[t]],
        ));
    }
}

} // verus!
