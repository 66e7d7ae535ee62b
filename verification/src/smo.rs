use vstd::prelude::*;

use crate::cache::Cache;
use crate::kernel::Kernel;
use crate::scalar::Scalar;
use crate::support_vector::copy_vec;
use crate::support_vector::SupportVector;

verus! {

#[verifier::external_type_specification]
#[verifier::external_body]
pub struct ExStdRng(rand::rngs::StdRng);

/// The sequence that rand's Fisher-Yates shuffle, driven by the standard
/// generator seeded with `seed`, makes of `s`: a pure function of the
/// elements and the seed, since the seeded generator is deterministic.
pub uninterp spec fn shuffled_of(s: Seq<usize>, seed: u64) -> Seq<usize>;

/// Relies on rand's StdRng::from_entropy: builds a random generator seeded
/// from the system's entropy source. Aborts if that source fails - an
/// environmental condition no input can exclude.
#[verifier::external_body]
fn entropy_rng() -> rand::rngs::StdRng {
    <rand::rngs::StdRng as rand::SeedableRng>::from_entropy()
}

/// Relies on rand's SliceRandom::shuffle (a Fisher-Yates shuffle): it permutes
/// the slice in place by swaps, so the elements as a multiset are unchanged.
#[verifier::external_body]
fn shuffle_in_place(v: &mut Vec<usize>, rng: &mut rand::rngs::StdRng)
    ensures
        final(v)@.to_multiset() == old(v)@.to_multiset(),
{
    rand::seq::SliceRandom::shuffle(v.as_mut_slice(), rng)
}

/// Relies on rand's StdRng::seed_from_u64 and SliceRandom::shuffle: the
/// seeded standard generator is a deterministic function of the seed, and the
/// shuffle it drives permutes the slice in place by swaps - so the outcome is
/// the fixed permutation [`shuffled_of`] of the elements and the seed, and
/// the elements as a multiset are unchanged.
#[verifier::external_body]
fn shuffle_seeded(v: &mut Vec<usize>, seed: u64)
    ensures
        final(v)@ == shuffled_of(old(v)@, seed),
        final(v)@.to_multiset() == old(v)@.to_multiset(),
{
    let mut rng = <rand::rngs::StdRng as rand::SeedableRng>::seed_from_u64(seed);
    rand::seq::SliceRandom::shuffle(v.as_mut_slice(), &mut rng)
}

/// The multiplier can still move down from its lower bound's side: it sits
/// strictly above `cmin`.
pub open spec fn qual_min<V: Scalar>(v: SupportVector<V>) -> bool {
    v.cmin.s_lt(v.alpha)
}

/// The multiplier can still move up: it sits strictly below `cmax`.
pub open spec fn qual_max<V: Scalar>(v: SupportVector<V>) -> bool {
    v.alpha.s_lt(v.cmax)
}

/// Some entry of `s` carries global index `gi`.
pub open spec fn seq_has_index<V>(s: Seq<SupportVector<V>>, gi: usize) -> bool {
    exists|p: int| 0 <= p < s.len() && s[p].index == gi
}

/// Some entry of `s` carries global index `gi` and survives the shrink pass.
pub open spec fn seq_has_live_index<V: Scalar>(
    s: Seq<SupportVector<V>>,
    gi: usize,
    ming: V,
    maxg: V,
) -> bool {
    exists|p: int| 0 <= p < s.len() && s[p].index == gi && !drop_pred(s[p], ming, maxg)
}

/// Global indices are unique across the active set.
pub open spec fn sv_wf<V>(sv: Seq<SupportVector<V>>) -> bool {
    forall|p: int, q: int| 0 <= p < q < sv.len() ==> sv[p].index != sv[q].index
}

/// One pass over the first `n` active entries, tracking the minimum gradient
/// among entries above their lower bound and the maximum gradient among
/// entries below their upper bound, with the position of each; ties keep the
/// earlier entry.
pub open spec fn s_scan<V: Scalar>(sv: Seq<SupportVector<V>>, n: int) -> (V, int, V, int)
    decreases n,
{
    if n <= 0 {
        (V::s_huge(), 0, V::s_huge().s_neg(), 0)
    } else {
        let (mg, mi, xg, xi) = s_scan(sv, n - 1);
        let v = sv[n - 1];
        let (mg2, mi2) = if qual_min(v) && v.grad.s_lt(mg) {
            (v.grad, n - 1)
        } else {
            (mg, mi)
        };
        let (xg2, xi2) = if qual_max(v) && xg.s_lt(v.grad) {
            (v.grad, n - 1)
        } else {
            (xg, xi)
        };
        (mg2, mi2, xg2, xi2)
    }
}

/// The scan's results are the extrema they claim to be: nothing qualifying
/// sits below the minimum or above the maximum, and each result either is the
/// untouched sentinel or points at a qualifying entry carrying it.
pub proof fn lemma_scan_props<V: Scalar>(sv: Seq<SupportVector<V>>, n: int)
    requires
        0 <= n <= sv.len(),
    ensures
        ({
            let (mg, mi, xg, xi) = s_scan(sv, n);
            &&& (forall|i: int| #![trigger sv[i]]
                0 <= i < n && qual_min(sv[i]) ==> !sv[i].grad.s_lt(mg))
            &&& (forall|i: int| #![trigger sv[i]]
                0 <= i < n && qual_max(sv[i]) ==> !xg.s_lt(sv[i].grad))
            &&& (mg == V::s_huge() || (0 <= mi < n && qual_min(sv[mi]) && sv[mi].grad == mg))
            &&& (xg == V::s_huge().s_neg() || (0 <= xi < n && qual_max(sv[xi]) && sv[xi].grad
                == xg))
            &&& (n > 0 ==> 0 <= mi < n && 0 <= xi < n)
            &&& (n == 0 ==> mi == 0 && xi == 0)
        }),
    decreases n,
{
    if n > 0 {
        lemma_scan_props(sv, n - 1);
        let (mg, mi, xg, xi) = s_scan(sv, n - 1);
        let v = sv[n - 1];
        let (mg2, mi2, xg2, xi2) = s_scan(sv, n);
        assert forall|i: int| #![trigger sv[i]]
            0 <= i < n && qual_min(sv[i]) implies !sv[i].grad.s_lt(mg2) by {
            if i == n - 1 {
                if qual_min(v) && v.grad.s_lt(mg) {
                    V::lt_irrefl(v.grad);
                } else {
                }
            } else {
                if qual_min(v) && v.grad.s_lt(mg) {
                    if sv[i].grad.s_lt(mg2) {
                        V::lt_trans(sv[i].grad, mg2, mg);
                    }
                }
            }
        }
        assert forall|i: int| #![trigger sv[i]]
            0 <= i < n && qual_max(sv[i]) implies !xg2.s_lt(sv[i].grad) by {
            if i == n - 1 {
                if qual_max(v) && xg.s_lt(v.grad) {
                    V::lt_irrefl(v.grad);
                }
            } else {
                if qual_max(v) && xg.s_lt(v.grad) {
                    if xg2.s_lt(sv[i].grad) {
                        V::lt_trans(xg, xg2, sv[i].grad);
                    }
                }
            }
        }
    }
}

/// Whether `v` is the zero of the order: neither below nor above zero.
pub open spec fn s_is_zero<V: Scalar>(v: V) -> bool {
    !v.s_lt(V::s_zero()) && !V::s_zero().s_lt(v)
}

/// Shrinking removes an entry that sits at zero and, given the current
/// extremal gradients, cannot leave the bound it is at: its gradient is at or
/// above the maximum while it cannot move up, or at or below the minimum
/// while it cannot move down.
pub open spec fn drop_pred<V: Scalar>(v: SupportVector<V>, ming: V, maxg: V) -> bool {
    s_is_zero(v.alpha) && ((!v.grad.s_lt(maxg) && !V::s_zero().s_lt(v.cmax)) || (!ming.s_lt(v.grad)
        && !v.cmin.s_lt(V::s_zero())))
}

/// The entries a shrink pass keeps, in order.
pub open spec fn retained_of<V: Scalar>(s: Seq<SupportVector<V>>, ming: V, maxg: V) -> Seq<
    SupportVector<V>,
>
    decreases s.len(),
{
    if s.len() == 0 {
        Seq::empty()
    } else {
        let rest = retained_of(s.drop_last(), ming, maxg);
        if drop_pred(s.last(), ming, maxg) {
            rest
        } else {
            rest.push(s.last())
        }
    }
}

/// The indices of the entries a shrink pass removes, in order.
pub open spec fn dropped_of<V: Scalar>(s: Seq<SupportVector<V>>, ming: V, maxg: V) -> Seq<usize>
    decreases s.len(),
{
    if s.len() == 0 {
        Seq::empty()
    } else {
        let rest = dropped_of(s.drop_last(), ming, maxg);
        if drop_pred(s.last(), ming, maxg) {
            rest.push(s.last().index)
        } else {
            rest
        }
    }
}

/// How a shrink pass splits the active set: kept entries keep unique indices,
/// an entry is kept exactly when it is present and not condemned, and an
/// index is dropped exactly when its entry is condemned.
pub proof fn lemma_retained<V: Scalar>(s: Seq<SupportVector<V>>, ming: V, maxg: V)
    requires
        sv_wf(s),
    ensures
        sv_wf(retained_of(s, ming, maxg)),
        forall|v: SupportVector<V>| #[trigger]
            retained_of(s, ming, maxg).contains(v) <==> s.contains(v) && !drop_pred(v, ming, maxg),
        forall|gi: usize| #[trigger]
            dropped_of(s, ming, maxg).contains(gi) <==> exists|p: int|
                0 <= p < s.len() && s[p].index == gi && drop_pred(s[p], ming, maxg),
        forall|gi: usize| #[trigger]
            seq_has_index(retained_of(s, ming, maxg), gi) <==> seq_has_live_index(
                s,
                gi,
                ming,
                maxg,
            ),
    decreases s.len(),
{
    if s.len() > 0 {
        let butlast = s.drop_last();
        assert(sv_wf(butlast));
        lemma_retained(butlast, ming, maxg);
        let rest = retained_of(butlast, ming, maxg);
        let ret = retained_of(s, ming, maxg);
        let v = s.last();
        assert forall|w: SupportVector<V>| #[trigger]
            ret.contains(w) implies s.contains(w) && !drop_pred(w, ming, maxg) by {
            let q = choose|q: int| 0 <= q < ret.len() && ret[q] == w;
            if drop_pred(v, ming, maxg) || q < ret.len() - 1 {
                assert(rest.contains(w));
                let p = choose|p: int| 0 <= p < butlast.len() && butlast[p] == w;
                assert(s[p] == w);
            } else {
                assert(w == v);
                assert(s[s.len() - 1] == v);
            }
        }
        assert forall|w: SupportVector<V>|
            s.contains(w) && !drop_pred(w, ming, maxg) implies #[trigger] ret.contains(w) by {
            let p = choose|p: int| 0 <= p < s.len() && s[p] == w;
            if p < s.len() - 1 {
                assert(butlast[p] == w);
                assert(butlast.contains(w));
                assert(rest.contains(w));
                let q = choose|q: int| 0 <= q < rest.len() && rest[q] == w;
                assert(ret[q] == w);
            } else {
                assert(ret[ret.len() - 1] == w);
            }
        }
        assert forall|gi: usize| #[trigger]
            dropped_of(s, ming, maxg).contains(gi) implies exists|p: int|
            0 <= p < s.len() && s[p].index == gi && drop_pred(s[p], ming, maxg) by {
            let dr = dropped_of(s, ming, maxg);
            let restd = dropped_of(butlast, ming, maxg);
            let q = choose|q: int| 0 <= q < dr.len() && dr[q] == gi;
            if !drop_pred(v, ming, maxg) || q < dr.len() - 1 {
                assert(restd.contains(gi));
                let p = choose|p: int|
                    0 <= p < butlast.len() && butlast[p].index == gi && drop_pred(
                        butlast[p],
                        ming,
                        maxg,
                    );
                assert(s[p].index == gi && drop_pred(s[p], ming, maxg));
            } else {
                assert(s[s.len() - 1].index == gi);
            }
        }
        assert forall|gi: usize|
            (exists|p: int|
                0 <= p < s.len() && s[p].index == gi && drop_pred(
                    s[p],
                    ming,
                    maxg,
                )) implies #[trigger] dropped_of(s, ming, maxg).contains(gi) by {
            let dr = dropped_of(s, ming, maxg);
            let restd = dropped_of(butlast, ming, maxg);
            let p = choose|p: int|
                0 <= p < s.len() && s[p].index == gi && drop_pred(s[p], ming, maxg);
            if p < s.len() - 1 {
                assert(butlast[p].index == gi && drop_pred(butlast[p], ming, maxg));
                assert(restd.contains(gi));
                let q = choose|q: int| 0 <= q < restd.len() && restd[q] == gi;
                assert(dr[q] == gi);
            } else {
                assert(dr[dr.len() - 1] == gi);
            }
        }
        assert forall|gi: usize| #[trigger]
            seq_has_index(ret, gi) implies seq_has_live_index(s, gi, ming, maxg) by {
            let q = choose|q: int| 0 <= q < ret.len() && ret[q].index == gi;
            assert(ret.contains(ret[q]));
            let w = ret[q];
            let p = choose|p: int| 0 <= p < s.len() && s[p] == w;
            assert(0 <= p < s.len() && s[p].index == gi && !drop_pred(s[p], ming, maxg));
        }
        assert forall|gi: usize|
            seq_has_live_index(s, gi, ming, maxg) implies #[trigger] seq_has_index(ret, gi) by {
            let p = choose|p: int|
                0 <= p < s.len() && s[p].index == gi && !drop_pred(s[p], ming, maxg);
            assert(s.contains(s[p]));
            assert(ret.contains(s[p]));
            let q = choose|q: int| 0 <= q < ret.len() && ret[q] == s[p];
            assert(ret[q].index == gi);
        }
        assert forall|p: int, q: int| 0 <= p < q < ret.len() implies ret[p].index
            != ret[q].index by {
            assert(ret.contains(ret[p]));
            assert(ret.contains(ret[q]));
            if drop_pred(v, ming, maxg) || q < ret.len() - 1 {
                // both kept entries come from the prefix, whose claim holds
                assert(forall|a: int, b: int|
                    0 <= a < b < rest.len() ==> rest[a].index != rest[b].index);
                assert(ret[p] == rest[p] && ret[q] == rest[q]);
            } else {
                assert(ret[q] == v);
                assert(rest[p] == ret[p]);
                assert(rest.contains(rest[p]));
                let a = choose|a: int| 0 <= a < butlast.len() && butlast[a] == rest[p];
                assert(s[a] == rest[p]);
                assert(s[a].index != v.index);
            }
        }
    }
}

/// The multiplier of entry `i` after the two-variable step: `step` is taken
/// from the multiplier at `v1` and added to the one at `v2`.
pub open spec fn alpha_step<V: Scalar>(
    s: Seq<SupportVector<V>>,
    v1: int,
    v2: int,
    step: V,
    i: int,
) -> V {
    let base = s[i].alpha;
    let a1 = if i == v1 {
        base.s_sub(step)
    } else {
        base
    };
    if i == v2 {
        a1.s_add(step)
    } else {
        a1
    }
}

/// The active set after one two-variable update: the multipliers at `v1` and
/// `v2` move by `step` in opposite directions, and every entry's gradient
/// falls by `step` times the difference of its kernel values against the two
/// updated entries. Nothing else changes.
pub open spec fn updated_sv<V: Scalar, K: Kernel<V>>(
    s: Seq<SupportVector<V>>,
    v1: int,
    v2: int,
    step: V,
    k: K,
) -> Seq<SupportVector<V>> {
    Seq::new(
        s.len(),
        |i: int|
            {
                let base = s[i];
                SupportVector {
                    alpha: alpha_step(s, v1, v2, step, i),
                    grad: base.grad.s_sub(
                        step.s_mul(
                            k.s_compute(s[v2].x@, s[i].x@).s_sub(k.s_compute(s[v1].x@, s[i].x@)),
                        ),
                    ),
                    index: base.index,
                    x: base.x,
                    cmin: base.cmin,
                    cmax: base.cmax,
                    k: base.k,
                }
            },
    )
}

/// The starting gradient of a candidate sample: its label, minus each active
/// entry's multiplier times the kernel value between that entry and the
/// candidate, subtracted in order.
pub open spec fn s_grad_seed<V: Scalar, K: Kernel<V>>(
    label: V,
    sv: Seq<SupportVector<V>>,
    x: Seq<V>,
    k: K,
    n: int,
) -> V
    decreases n,
{
    if n <= 0 {
        label
    } else {
        s_grad_seed(label, sv, x, k, n - 1).s_sub(
            sv[n - 1].alpha.s_mul(k.s_compute(sv[n - 1].x@, x)),
        )
    }
}

/// The kernel value between the active entries at positions `f` and `i`.
pub open spec fn pair_kv<V: Scalar, K: Kernel<V>>(
    sv: Seq<SupportVector<V>>,
    f: int,
    i: int,
    k: K,
) -> V {
    k.s_compute(sv[f].x@, sv[i].x@)
}

/// The curvature between the entries at `f` and `i`, clamped to the small
/// positive `tau` when it is not strictly positive.
pub open spec fn pair_curv<V: Scalar, K: Kernel<V>>(
    sv: Seq<SupportVector<V>>,
    f: int,
    i: int,
    k: K,
) -> V {
    let kv = pair_kv(sv, f, i, k);
    let c0 = sv[f].k.s_add(sv[i].k).s_sub(kv.s_add(kv));
    if !V::s_zero().s_lt(c0) {
        V::s_tau()
    } else {
        c0
    }
}

/// The unconstrained step for candidate `i` when the first endpoint `f` is
/// fixed: the gradient difference oriented toward the candidate, divided by
/// the clamped curvature.
pub open spec fn second_mu<V: Scalar, K: Kernel<V>>(
    sv: Seq<SupportVector<V>>,
    f: int,
    i: int,
    k: K,
) -> V {
    sv[i].grad.s_sub(sv[f].grad).s_div(pair_curv(sv, f, i, k))
}

/// Whether candidate `i` can feasibly move in the direction of its step when
/// the first endpoint is fixed.
pub open spec fn second_qual<V: Scalar, K: Kernel<V>>(
    sv: Seq<SupportVector<V>>,
    f: int,
    i: int,
    k: K,
) -> bool {
    let mu = second_mu(sv, f, i, k);
    (V::s_zero().s_lt(mu) && qual_max(sv[i])) || (mu.s_lt(V::s_zero()) && qual_min(sv[i]))
}

/// The second-order gain of candidate `i` when the first endpoint is fixed.
pub open spec fn second_gain<V: Scalar, K: Kernel<V>>(
    sv: Seq<SupportVector<V>>,
    f: int,
    i: int,
    k: K,
) -> V {
    let mu = second_mu(sv, f, i, k);
    sv[i].grad.s_sub(sv[f].grad).s_mul(mu)
}

/// The unconstrained step for candidate `i` when the second endpoint `s` is
/// fixed.
pub open spec fn first_mu<V: Scalar, K: Kernel<V>>(
    sv: Seq<SupportVector<V>>,
    s: int,
    i: int,
    k: K,
) -> V {
    sv[s].grad.s_sub(sv[i].grad).s_div(pair_curv(sv, s, i, k))
}

/// Whether candidate `i` can feasibly move when the second endpoint is fixed.
pub open spec fn first_qual<V: Scalar, K: Kernel<V>>(
    sv: Seq<SupportVector<V>>,
    s: int,
    i: int,
    k: K,
) -> bool {
    let mu = first_mu(sv, s, i, k);
    (V::s_zero().s_lt(mu) && qual_min(sv[i])) || (mu.s_lt(V::s_zero()) && qual_max(sv[i]))
}

/// The second-order gain of candidate `i` when the second endpoint is fixed.
pub open spec fn first_gain<V: Scalar, K: Kernel<V>>(
    sv: Seq<SupportVector<V>>,
    s: int,
    i: int,
    k: K,
) -> V {
    let mu = first_mu(sv, s, i, k);
    sv[s].grad.s_sub(sv[i].grad).s_mul(mu)
}

/// What the scan for a second endpoint returns, the first being fixed at
/// `f`: nothing when no candidate qualifies with positive gain, otherwise the
/// pair `(f, b)` where `b` qualifies with positive gain and no qualifying
/// candidate's gain exceeds `b`'s.
pub open spec fn second_scan_ok<V: Scalar, K: Kernel<V>>(
    sv: Seq<SupportVector<V>>,
    f: int,
    r: Option<(usize, usize, V)>,
    k: K,
) -> bool {
    match r {
        Option::None => forall|i: int|
            0 <= i < sv.len() && #[trigger] second_qual(sv, f, i, k) ==> !V::s_zero().s_lt(
                second_gain(sv, f, i, k),
            ),
        Option::Some((a, b, kv)) => {
            &&& a == f
            &&& b < sv.len()
            &&& second_qual(sv, f, b as int, k)
            &&& V::s_zero().s_lt(second_gain(sv, f, b as int, k))
            &&& (forall|i: int|
                0 <= i < sv.len() && #[trigger] second_qual(sv, f, i, k) ==> !second_gain(
                    sv,
                    f,
                    b as int,
                    k,
                ).s_lt(second_gain(sv, f, i, k)))
            &&& (forall|i: int|
                0 <= i < b && #[trigger] second_qual(sv, f, i, k) ==> second_gain(
                    sv,
                    f,
                    i,
                    k,
                ).s_lt(second_gain(sv, f, b as int, k)))
        },
    }
}

/// What the scan for a first endpoint returns, the second being fixed at `s`.
pub open spec fn first_scan_ok<V: Scalar, K: Kernel<V>>(
    sv: Seq<SupportVector<V>>,
    s: int,
    r: Option<(usize, usize, V)>,
    k: K,
) -> bool {
    match r {
        Option::None => forall|i: int|
            0 <= i < sv.len() && #[trigger] first_qual(sv, s, i, k) ==> !V::s_zero().s_lt(
                first_gain(sv, s, i, k),
            ),
        Option::Some((a, b, kv)) => {
            &&& b == s
            &&& a < sv.len()
            &&& first_qual(sv, s, a as int, k)
            &&& V::s_zero().s_lt(first_gain(sv, s, a as int, k))
            &&& (forall|i: int|
                0 <= i < sv.len() && #[trigger] first_qual(sv, s, i, k) ==> !first_gain(
                    sv,
                    s,
                    a as int,
                    k,
                ).s_lt(first_gain(sv, s, i, k)))
            &&& (forall|i: int|
                0 <= i < a && #[trigger] first_qual(sv, s, i, k) ==> first_gain(
                    sv,
                    s,
                    i,
                    k,
                ).s_lt(first_gain(sv, s, a as int, k)))
        },
    }
}

/// The clipped step of one decomposition update on the pair `(a, b)`: the
/// raw step is the gradient difference over the clamped curvature, then a
/// non-negative step is capped by how far `a`'s multiplier may fall and `b`'s
/// may rise, and a negative step by the opposite pair of bounds.
pub open spec fn s_smo_step<V: Scalar, K: Kernel<V>>(
    sv: Seq<SupportVector<V>>,
    a: int,
    b: int,
    k: K,
) -> V {
    let curv = pair_curv(sv, a, b, k);
    let raw = sv[b].grad.s_sub(sv[a].grad).s_div(curv);
    if !raw.s_lt(V::s_zero()) {
        let down_a = sv[a].alpha.s_sub(sv[a].cmin);
        let s1 = if down_a.s_lt(raw) {
            down_a
        } else {
            raw
        };
        let up_b = sv[b].cmax.s_sub(sv[b].alpha);
        if up_b.s_lt(s1) {
            up_b
        } else {
            s1
        }
    } else {
        let down_b = sv[b].cmin.s_sub(sv[b].alpha);
        let s1 = if raw.s_lt(down_b) {
            down_b
        } else {
            raw
        };
        let up_a = sv[a].alpha.s_sub(sv[a].cmax);
        if s1.s_lt(up_a) {
            up_a
        } else {
            s1
        }
    }
}

/// The shape of the active set right after admitting a candidate: the new
/// record sits at the front with multiplier zero, its starting gradient, its
/// self-kernel value, and box bounds fixed by its label's sign; the previous
/// entries follow unchanged.
pub open spec fn inserted_shape<V: Scalar, K: Kernel<V>>(
    ins: Seq<SupportVector<V>>,
    base: Seq<SupportVector<V>>,
    i: usize,
    x: Seq<V>,
    g: V,
    k: K,
) -> bool {
    &&& ins.len() == base.len() + 1
    &&& ins.skip(1) == base
    &&& ins[0].index == i
    &&& ins[0].x@ == x
    &&& ins[0].alpha == V::s_zero()
    &&& ins[0].grad == g
    &&& ins[0].k == k.s_compute(x, x)
}

/// The extremal gradients and their owners as a scan now would find them: the
/// stored values when the flag is clear, a fresh scan's result when it is
/// dirty.
pub open spec fn refreshed_scan<V: Scalar>(s: SMO<V>) -> (V, int, V, int) {
    if !s.recalculate_min_max {
        (s.min_grad, s.min_sv as int, s.max_grad, s.max_sv as int)
    } else {
        s_scan(s.sv@, s.sv@.len() as int)
    }
}

/// The extremal gradients as a scan now would find them.
pub open spec fn refreshed_extrema<V: Scalar>(s: SMO<V>) -> (V, V) {
    let t = refreshed_scan(s);
    (t.0, t.2)
}

/// What working-set selection returns on the solver state `pre` whose extrema
/// have just been refreshed. With both endpoints unset, nothing on an empty
/// set; otherwise the side with the larger violation fixes one endpoint at
/// its refreshed extremal owner and the other is scanned. With one endpoint
/// given, that endpoint is fixed. With both given, the pair itself with its
/// kernel value.
pub open spec fn selected_ok<V: Scalar, K: Kernel<V>>(
    pre: SMO<V>,
    idx_1: Option<usize>,
    idx_2: Option<usize>,
    r: Option<(usize, usize, V)>,
    k: K,
) -> bool {
    match (idx_1, idx_2) {
        (Option::None, Option::None) => {
            let (mg, mi, xg, xi) = refreshed_scan(pre);
            if pre.sv@.len() == 0 {
                r is None
            } else if mg.s_neg().s_lt(xg) {
                first_scan_ok(pre.sv@, xi, r, k)
            } else {
                second_scan_ok(pre.sv@, mi, r, k)
            }
        },
        (Option::Some(i1), Option::None) => second_scan_ok(pre.sv@, i1 as int, r, k),
        (Option::None, Option::Some(i2)) => first_scan_ok(pre.sv@, i2 as int, r, k),
        (Option::Some(i1), Option::Some(i2)) => r == Option::Some(
            (i1, i2, k.s_compute(pre.sv@[i1 as int].x@, pre.sv@[i2 as int].x@)),
        ),
    }
}

/// How many entries of `s` were admitted on top of `base` (their index has no
/// entry there) and carry a sample whose label matches `positive`.
pub open spec fn count_admitted<V: Scalar>(
    s: Seq<SupportVector<V>>,
    base: Seq<SupportVector<V>>,
    y: Seq<i32>,
    positive: bool,
) -> int
    decreases s.len(),
{
    if s.len() == 0 {
        0
    } else {
        (if !seq_has_index(base, s[0].index) && s[0].index < y.len() && ((y[s[0].index as int]
            == 1) == positive) {
            1int
        } else {
            0int
        }) + count_admitted(s.drop_first(), base, y, positive)
    }
}

/// The admission count reads only each entry's index, so it is the same for
/// any two sets whose entries carry the same indices position by position.
pub proof fn lemma_count_admitted_pointwise<V: Scalar>(
    s1: Seq<SupportVector<V>>,
    s2: Seq<SupportVector<V>>,
    base: Seq<SupportVector<V>>,
    y: Seq<i32>,
    positive: bool,
)
    requires
        s1.len() == s2.len(),
        forall|p: int| 0 <= p < s1.len() ==> s1[p].index == s2[p].index,
    ensures
        count_admitted(s1, base, y, positive) == count_admitted(s2, base, y, positive),
    decreases s1.len(),
{
    if s1.len() > 0 {
        assert(forall|p: int|
            0 <= p < s1.drop_first().len() ==> s1.drop_first()[p].index
                == s2.drop_first()[p].index);
        lemma_count_admitted_pointwise(s1.drop_first(), s2.drop_first(), base, y, positive);
    }
}

/// A set admits nothing on top of a base that already covers its indices.
pub proof fn lemma_count_admitted_zero<V: Scalar>(
    s: Seq<SupportVector<V>>,
    base: Seq<SupportVector<V>>,
    y: Seq<i32>,
    positive: bool,
)
    requires
        forall|p: int| 0 <= p < s.len() ==> #[trigger] seq_has_index(base, s[p].index),
    ensures
        count_admitted(s, base, y, positive) == 0,
    decreases s.len(),
{
    if s.len() > 0 {
        assert(seq_has_index(base, s[0].index));
        assert forall|p: int|
            0 <= p < s.drop_first().len() implies #[trigger] seq_has_index(
            base,
            s.drop_first()[p].index,
        ) by {
            assert(s.drop_first()[p] == s[p + 1]);
        }
        lemma_count_admitted_zero(s.drop_first(), base, y, positive);
    }
}

/// An entry is rooted in `base` and the dataset when it either keeps the
/// index and feature vector of some entry of `base`, or carries the full
/// feature row of its own dataset index.
pub open spec fn entry_rooted<V: Scalar>(
    e: SupportVector<V>,
    base: Seq<SupportVector<V>>,
    x: Seq<Vec<V>>,
) -> bool {
    (exists|q: int| 0 <= q < base.len() && base[q].index == e.index && base[q].x == e.x) || (
    e.index < x.len() && e.x@ == x[e.index as int]@)
}

/// At most `n` steps of the relation `step` lead from `a` to `b`.
pub open spec fn chain_of<V: Scalar>(
    step: spec_fn(SMO<V>, SMO<V>) -> bool,
    a: SMO<V>,
    b: SMO<V>,
    n: nat,
) -> bool
    decreases n,
{
    if n == 0 {
        a == b
    } else {
        a == b || exists|m: SMO<V>| #[trigger] step(a, m) && chain_of(step, m, b, (n - 1) as nat)
    }
}

/// A chain extends by one step at its end.
pub proof fn lemma_chain_snoc<V: Scalar>(
    step: spec_fn(SMO<V>, SMO<V>) -> bool,
    a: SMO<V>,
    b: SMO<V>,
    c: SMO<V>,
    n: nat,
)
    requires
        chain_of(step, a, b, n),
        step(b, c),
    ensures
        chain_of(step, a, c, n + 1),
    decreases n,
{
    if n == 0 {
        assert(step(a, c));
        assert(chain_of(step, c, c, 0nat));
    } else if a == b {
        assert(step(a, c));
        assert(chain_of(step, c, c, n));
    } else {
        let m = choose|m: SMO<V>| #[trigger] step(a, m) && chain_of(step, m, b, (n - 1) as nat);
        lemma_chain_snoc(step, m, b, c, (n - 1) as nat);
        assert(step(a, m) && chain_of(step, m, c, n));
    }
}

/// A chain within `n` steps is also a chain within any larger bound.
pub proof fn lemma_chain_mono<V: Scalar>(
    step: spec_fn(SMO<V>, SMO<V>) -> bool,
    a: SMO<V>,
    b: SMO<V>,
    n: nat,
    m: nat,
)
    requires
        chain_of(step, a, b, n),
        n <= m,
    ensures
        chain_of(step, a, b, m),
    decreases n,
{
    if n == 0 || a == b {
    } else {
        let mid = choose|mid: SMO<V>| #[trigger] step(a, mid) && chain_of(
            step,
            mid,
            b,
            (n - 1) as nat,
        );
        lemma_chain_mono(step, mid, b, (n - 1) as nat, (m - 1) as nat);
        assert(step(a, mid) && chain_of(step, mid, b, (m - 1) as nat));
    }
}

/// One convergence sweep: a decomposition step on the globally most violating
/// pair, with some reported outcome.
pub open spec fn sweep_step<V: Scalar, K: Kernel<V>>(tol: V, k: K) -> spec_fn(
    SMO<V>,
    SMO<V>,
) -> bool {
    |a: SMO<V>, b: SMO<V>|
        exists|rr: bool|
            #[trigger] SMO::smo_ens(
                a,
                b,
                Option::<usize>::None,
                Option::<usize>::None,
                tol,
                k,
                rr,
            )
}

/// Two chains joined end to end form a chain within the summed bound.
pub proof fn lemma_chain_concat<V: Scalar>(
    step: spec_fn(SMO<V>, SMO<V>) -> bool,
    a: SMO<V>,
    b: SMO<V>,
    c: SMO<V>,
    n: nat,
    m: nat,
)
    requires
        chain_of(step, a, b, n),
        chain_of(step, b, c, m),
    ensures
        chain_of(step, a, c, n + m),
    decreases n,
{
    if n == 0 || a == b {
        lemma_chain_mono(step, b, c, m, n + m);
    } else {
        let mid = choose|mid: SMO<V>| #[trigger] step(a, mid) && chain_of(
            step,
            mid,
            b,
            (n - 1) as nat,
        );
        lemma_chain_concat(step, mid, b, c, (n - 1) as nat, m);
        assert(step(a, mid) && chain_of(step, mid, c, ((n - 1) + m) as nat));
    }
}

/// One step a training run makes on the solver state: an admission of some
/// dataset sample, a decomposition sweep on the most violating pair, a shrink
/// pass, or an extrema refresh.
pub open spec fn solver_step<V: Scalar, K: Kernel<V>>(
    x: Seq<Vec<V>>,
    y: Seq<i32>,
    k: K,
    a: SMO<V>,
    b: SMO<V>,
) -> bool {
    ||| exists|i: usize, r: bool|
        i < x.len() && #[trigger] SMO::process_ens(a, b, i, x[i as int]@, y[i as int], k, r)
    ||| exists|r: bool|
        #[trigger] SMO::smo_ens(a, b, Option::<usize>::None, Option::<usize>::None, a.tol, k, r)
    ||| SMO::clean_ens(a, b)
    ||| SMO::refresh_ens(a, b)
}

/// The training-run step relation over a fixed dataset and kernel.
pub open spec fn run_step<V: Scalar, K: Kernel<V>>(x: Seq<Vec<V>>, y: Seq<i32>, k: K) -> spec_fn(
    SMO<V>,
    SMO<V>,
) -> bool {
    |a: SMO<V>, b: SMO<V>| solver_step(x, y, k, a, b)
}

/// Some finite number of training-run steps leads from `a` to `b`.
pub open spec fn run_reachable<V: Scalar, K: Kernel<V>>(
    x: Seq<Vec<V>>,
    y: Seq<i32>,
    k: K,
    a: SMO<V>,
    b: SMO<V>,
) -> bool {
    exists|n: nat| #[trigger] chain_of(run_step(x, y, k), a, b, n)
}

/// Reachability is reflexive.
pub proof fn lemma_reach_refl<V: Scalar, K: Kernel<V>>(x: Seq<Vec<V>>, y: Seq<i32>, k: K, a: SMO<V>)
    ensures
        run_reachable(x, y, k, a, a),
{
    assert(chain_of(run_step(x, y, k), a, a, 0nat));
}

/// Reachability extends by one training-run step.
pub proof fn lemma_reach_step<V: Scalar, K: Kernel<V>>(
    x: Seq<Vec<V>>,
    y: Seq<i32>,
    k: K,
    a: SMO<V>,
    b: SMO<V>,
    c: SMO<V>,
)
    requires
        run_reachable(x, y, k, a, b),
        solver_step(x, y, k, b, c),
    ensures
        run_reachable(x, y, k, a, c),
{
    let n = choose|n: nat| #[trigger] chain_of(run_step(x, y, k), a, b, n);
    assert(run_step(x, y, k)(b, c));
    lemma_chain_snoc(run_step(x, y, k), a, b, c, n);
}

/// Reachability composes.
pub proof fn lemma_reach_trans<V: Scalar, K: Kernel<V>>(
    x: Seq<Vec<V>>,
    y: Seq<i32>,
    k: K,
    a: SMO<V>,
    b: SMO<V>,
    c: SMO<V>,
)
    requires
        run_reachable(x, y, k, a, b),
        run_reachable(x, y, k, b, c),
    ensures
        run_reachable(x, y, k, a, c),
{
    let n = choose|n: nat| #[trigger] chain_of(run_step(x, y, k), a, b, n);
    let m = choose|m: nat| #[trigger] chain_of(run_step(x, y, k), b, c, m);
    lemma_chain_concat(run_step(x, y, k), a, b, c, n, m);
}

/// A chain of convergence sweeps at the tolerance the solver carries is a
/// chain of training-run steps.
pub proof fn lemma_sweep_chain_to_run<V: Scalar, K: Kernel<V>>(
    x: Seq<Vec<V>>,
    y: Seq<i32>,
    k: K,
    tol: V,
    a: SMO<V>,
    b: SMO<V>,
    n: nat,
)
    requires
        chain_of(sweep_step(tol, k), a, b, n),
        a.tol == tol,
    ensures
        chain_of(run_step(x, y, k), a, b, n),
    decreases n,
{
    if n == 0 || a == b {
    } else {
        let mid = choose|mid: SMO<V>| #[trigger] sweep_step(tol, k)(a, mid) && chain_of(
            sweep_step(tol, k),
            mid,
            b,
            (n - 1) as nat,
        );
        let rr = choose|rr: bool|
            #[trigger] SMO::smo_ens(
                a,
                mid,
                Option::<usize>::None,
                Option::<usize>::None,
                tol,
                k,
                rr,
            );
        assert(solver_step(x, y, k, a, mid));
        assert(run_step(x, y, k)(a, mid));
        lemma_sweep_chain_to_run(x, y, k, tol, mid, b, (n - 1) as nat);
    }
}

/// Every active entry carries the full feature row of its own dataset index.
pub open spec fn rows_rooted<V: Scalar>(s: SMO<V>, x: Seq<Vec<V>>) -> bool {
    forall|p: int| #![trigger s.sv@[p]]
        0 <= p < s.sv@.len() ==> s.sv@[p].index < x.len() && s.sv@[p].x@ == x[s.sv@[p].index as int]@
}

/// Every kind of training-run step keeps the active entries rooted in the
/// dataset: admissions insert the candidate's own row, sweeps keep every
/// entry's index and vector, shrinking keeps a subset of the entries, and a
/// refresh does not touch them.
pub proof fn lemma_rooted_step<V: Scalar, K: Kernel<V>>(
    x: Seq<Vec<V>>,
    y: Seq<i32>,
    k: K,
    a: SMO<V>,
    b: SMO<V>,
)
    requires
        solver_step(x, y, k, a, b),
        rows_rooted(a, x),
    ensures
        rows_rooted(b, x),
{
    if exists|i: usize, r: bool|
        i < x.len() && #[trigger] SMO::process_ens(a, b, i, x[i as int]@, y[i as int], k, r) {
        let (i, r) = choose|i: usize, r: bool|
            i < x.len() && #[trigger] SMO::process_ens(a, b, i, x[i as int]@, y[i as int], k, r);
        assert forall|p: int| #![trigger b.sv@[p]]
            0 <= p < b.sv@.len() implies b.sv@[p].index < x.len() && b.sv@[p].x@
            == x[b.sv@[p].index as int]@ by {
            if !(b.sv@[p].index == i && b.sv@[p].x@ == x[i as int]@) {
                let q = choose|q: int|
                    0 <= q < a.sv@.len() && b.sv@[p].index == a.sv@[q].index && b.sv@[p].x
                        == a.sv@[q].x;
            }
        }
    } else if exists|r: bool|
        #[trigger] SMO::smo_ens(
            a,
            b,
            Option::<usize>::None,
            Option::<usize>::None,
            a.tol,
            k,
            r,
        ) {
        let r = choose|r: bool|
            #[trigger] SMO::smo_ens(
                a,
                b,
                Option::<usize>::None,
                Option::<usize>::None,
                a.tol,
                k,
                r,
            );
        assert forall|p: int| #![trigger b.sv@[p]]
            0 <= p < b.sv@.len() implies b.sv@[p].index < x.len() && b.sv@[p].x@
            == x[b.sv@[p].index as int]@ by {
            assert(b.sv@[p].index == a.sv@[p].index && b.sv@[p].x == a.sv@[p].x);
        }
    } else if SMO::clean_ens(a, b) {
        assert forall|p: int| #![trigger b.sv@[p]]
            0 <= p < b.sv@.len() implies b.sv@[p].index < x.len() && b.sv@[p].x@
            == x[b.sv@[p].index as int]@ by {
            assert(a.sv@.contains(b.sv@[p]));
            let q = choose|q: int| 0 <= q < a.sv@.len() && a.sv@[q] == b.sv@[p];
        }
    } else {
        assert(SMO::refresh_ens(a, b));
    }
}

/// Rootedness carries along any chain of training-run steps.
pub proof fn lemma_rooted_chain<V: Scalar, K: Kernel<V>>(
    x: Seq<Vec<V>>,
    y: Seq<i32>,
    k: K,
    a: SMO<V>,
    b: SMO<V>,
    n: nat,
)
    requires
        chain_of(run_step(x, y, k), a, b, n),
        rows_rooted(a, x),
    ensures
        rows_rooted(b, x),
    decreases n,
{
    if n == 0 || a == b {
    } else {
        let mid = choose|mid: SMO<V>| #[trigger] run_step(x, y, k)(a, mid) && chain_of(
            run_step(x, y, k),
            mid,
            b,
            (n - 1) as nat,
        );
        lemma_rooted_step(x, y, k, a, mid);
        lemma_rooted_chain(x, y, k, mid, b, (n - 1) as nat);
    }
}

/// The decomposition solver: the kernel-value cache, the active
/// support-vector set, the amortized gradient extrema, and the
/// hyperparameters of one training run.
pub struct SMO<V> {
    /// Regularization constant.
    pub c: V,
    /// Numerical tolerance on the gradient gap.
    pub tol: V,
    /// Number of training passes over the permuted dataset.
    pub epochs: usize,
    /// Seed for the permutations; entropy-seeded when absent.
    pub seed: Option<usize>,
    /// Kernel values between pairs of active samples, keyed by global index.
    pub cache: Cache<V>,
    /// The active support-vector set.
    pub sv: Vec<SupportVector<V>>,
    /// Smallest gradient among entries above their lower bound, when clean.
    pub min_grad: V,
    /// Largest gradient among entries below their upper bound, when clean.
    pub max_grad: V,
    /// Position of the entry carrying `min_grad`.
    pub min_sv: usize,
    /// Position of the entry carrying `max_grad`.
    pub max_sv: usize,
    /// Whether the active set changed structurally since the extrema were
    /// last computed; they are refreshed only then, never per micro-update.
    pub recalculate_min_max: bool,
}

/// Cache consistency only reads each entry's index and feature vector, so it
/// carries over to any solver state with the same cache whose entries keep
/// their indices and vectors.
pub proof fn lemma_cache_ok_transfer<V: Scalar, K: Kernel<V>>(a: SMO<V>, b: SMO<V>, k: K)
    requires
        a.cache_ok(k),
        b.cache@ == a.cache@,
        b.sv@.len() == a.sv@.len(),
        forall|j: int| #![trigger b.sv@[j]]
            0 <= j < a.sv@.len() ==> b.sv@[j].index == a.sv@[j].index && b.sv@[j].x == a.sv@[j].x,
    ensures
        b.cache_ok(k),
        forall|key: (usize, usize)| #[trigger]
            b.cache@.contains_key(key) ==> b.has_index(key.0) && b.has_index(key.1),
{
    assert forall|key: (usize, usize)| #[trigger] b.cache@.contains_key(key) implies exists|
        p: int,
        q: int,
    |
        0 <= p < b.sv@.len() && 0 <= q < b.sv@.len() && b.sv@[p].index == key.0 && b.sv@[q].index
            == key.1 && b.cache@[key] == k.s_compute(b.sv@[p].x@, b.sv@[q].x@) by {
        assert(a.cache@.contains_key(key));
        let (p, q) = choose|p: int, q: int|
            0 <= p < a.sv@.len() && 0 <= q < a.sv@.len() && a.sv@[p].index == key.0
                && a.sv@[q].index == key.1 && a.cache@[key] == k.s_compute(
                a.sv@[p].x@,
                a.sv@[q].x@,
            );
        assert(0 <= p < b.sv@.len() && 0 <= q < b.sv@.len() && b.sv@[p].index == key.0
            && b.sv@[q].index == key.1 && b.cache@[key] == k.s_compute(
            b.sv@[p].x@,
            b.sv@[q].x@,
        ));
    }
    assert forall|key: (usize, usize)| #[trigger]
        b.cache@.contains_key(key) implies b.has_index(key.0) && b.has_index(key.1) by {
        let (p, q) = choose|p: int, q: int|
            0 <= p < b.sv@.len() && 0 <= q < b.sv@.len() && b.sv@[p].index == key.0
                && b.sv@[q].index == key.1 && b.cache@[key] == k.s_compute(
                b.sv@[p].x@,
                b.sv@[q].x@,
            );
    }
}

/// Cache consistency survives a shrink pass: every surviving key's entries
/// survive with their vectors, so the cached value still describes them.
pub proof fn lemma_cache_ok_after_clean<V: Scalar, K: Kernel<V>>(
    mid: SMO<V>,
    post: SMO<V>,
    k: K,
    ming: V,
    maxg: V,
)
    requires
        mid.wf(),
        mid.cache_ok(k),
        post.sv@ == retained_of(mid.sv@, ming, maxg),
        forall|key: (usize, usize)| #[trigger]
            post.cache@.contains_key(key) ==> mid.cache@.contains_key(key) && post.has_index(
                key.0,
            ) && post.has_index(key.1),
        forall|key: (usize, usize)| #[trigger]
            post.cache@.contains_key(key) ==> post.cache@[key] == mid.cache@[key],
    ensures
        post.cache_ok(k),
{
    lemma_retained(mid.sv@, ming, maxg);
    let ret = retained_of(mid.sv@, ming, maxg);
    assert forall|key: (usize, usize)| #[trigger] post.cache@.contains_key(key) implies exists|
        p: int,
        q: int,
    |
        0 <= p < post.sv@.len() && 0 <= q < post.sv@.len() && post.sv@[p].index == key.0
            && post.sv@[q].index == key.1 && post.cache@[key] == k.s_compute(
            post.sv@[p].x@,
            post.sv@[q].x@,
        ) by {
        let (p, q) = choose|p: int, q: int|
            0 <= p < mid.sv@.len() && 0 <= q < mid.sv@.len() && mid.sv@[p].index == key.0
                && mid.sv@[q].index == key.1 && mid.cache@[key] == k.s_compute(
                mid.sv@[p].x@,
                mid.sv@[q].x@,
            );
        let p0 = choose|p0: int| 0 <= p0 < post.sv@.len() && post.sv@[p0].index == key.0;
        let q0 = choose|q0: int| 0 <= q0 < post.sv@.len() && post.sv@[q0].index == key.1;
        assert(ret.contains(ret[p0]));
        assert(mid.sv@.contains(ret[p0]));
        let pm = choose|pm: int| 0 <= pm < mid.sv@.len() && mid.sv@[pm] == ret[p0];
        assert(pm == p) by {
            if pm < p {
                assert(mid.sv@[pm].index != mid.sv@[p].index);
            }
            if p < pm {
                assert(mid.sv@[p].index != mid.sv@[pm].index);
            }
        }
        assert(ret.contains(ret[q0]));
        assert(mid.sv@.contains(ret[q0]));
        let qm = choose|qm: int| 0 <= qm < mid.sv@.len() && mid.sv@[qm] == ret[q0];
        assert(qm == q) by {
            if qm < q {
                assert(mid.sv@[qm].index != mid.sv@[q].index);
            }
            if q < qm {
                assert(mid.sv@[q].index != mid.sv@[qm].index);
            }
        }
        assert(post.sv@[p0].x == mid.sv@[p].x && post.sv@[q0].x == mid.sv@[q].x);
    }
}

impl<V: Scalar> SMO<V> {
    /// Some active entry carries global index `gi`.
    pub open spec fn has_index(self, gi: usize) -> bool {
        seq_has_index(self.sv@, gi)
    }

    /// A uniformly random permutation of `0..n`, seeded when a seed is given.
    pub fn permutate(n: usize, seed: Option<usize>) -> (r: Vec<usize>)
        ensures
            r@.len() == n,
            forall|i: int| 0 <= i < r@.len() ==> r@[i] < n,
            r@.to_multiset() == Seq::new(n as nat, |i: int| i as usize).to_multiset(),
            seed matches Some(sd) ==> r@ == shuffled_of(
                Seq::new(n as nat, |i: int| i as usize),
                sd as u64,
            ),
    {
        let mut perm: Vec<usize> = Vec::new();
        let mut i: usize = 0;
        while i < n
            invariant
                i <= n,
                perm@.len() == i,
                forall|j: int| 0 <= j < i ==> perm@[j] == j,
            decreases n - i,
        {
            perm.push(i);
            i += 1;
        }
        proof {
            assert(perm@ =~= Seq::new(n as nat, |i: int| i as usize));
        }
        let ghost base = perm@;
        match seed {
            Some(s) => shuffle_seeded(&mut perm, s as u64),
            None => {
                let mut rng = entropy_rng();
                shuffle_in_place(&mut perm, &mut rng);
            }
        }
        proof {
            broadcast use vstd::seq_lib::group_to_multiset_ensures;

            assert forall|i: int| 0 <= i < perm@.len() implies perm@[i] < n by {
                let x = perm@[i];
                assert(perm@.contains(x));
                assert(perm@.to_multiset().count(x) > 0);
                assert(base.to_multiset().count(x) > 0);
                assert(base.contains(x));
                let j = choose|j: int| 0 <= j < base.len() && base[j] == x;
                assert(base[j] < n);
            }
            assert(perm@.len() == perm@.to_multiset().len());
            assert(base.len() == base.to_multiset().len());
        }
        perm
    }


    /// The extremal gradients and their owners describe the current active
    /// set: no qualifying entry beats them, and each is either the untouched
    /// sentinel or carried by the qualifying entry it points at.
    pub open spec fn extrema_props(self) -> bool {
        &&& (forall|i: int| #![trigger self.sv@[i]]
            0 <= i < self.sv@.len() && qual_min(self.sv@[i]) ==> !self.sv@[i].grad.s_lt(
                self.min_grad,
            ))
        &&& (forall|i: int| #![trigger self.sv@[i]]
            0 <= i < self.sv@.len() && qual_max(self.sv@[i]) ==> !self.max_grad.s_lt(
                self.sv@[i].grad,
            ))
        &&& (self.min_grad == V::s_huge() || (self.min_sv < self.sv@.len() && qual_min(
            self.sv@[self.min_sv as int],
        ) && self.sv@[self.min_sv as int].grad == self.min_grad))
        &&& (self.max_grad == V::s_huge().s_neg() || (self.max_sv < self.sv@.len() && qual_max(
            self.sv@[self.max_sv as int],
        ) && self.sv@[self.max_sv as int].grad == self.max_grad))
    }

    /// Solver well-formedness: unique indices, a well-formed cache whose keys
    /// all reference active entries, extrema positions in range, and extrema
    /// that describe the set whenever the dirty flag is clear.
    pub open spec fn wf(self) -> bool {
        &&& sv_wf(self.sv@)
        &&& self.cache.wf()
        &&& (forall|k: (usize, usize)| #[trigger]
            self.cache@.contains_key(k) ==> self.has_index(k.0) && self.has_index(k.1))
        &&& (self.sv@.len() > 0 ==> self.min_sv < self.sv@.len() && self.max_sv
            < self.sv@.len())
        &&& (self.sv@.len() == 0 ==> self.min_sv == 0 && self.max_sv == 0)
        &&& (!self.recalculate_min_max ==> self.extrema_props())
    }

    /// Every cached value is the kernel value of the two active entries its
    /// key names.
    pub open spec fn cache_ok<K: Kernel<V>>(self, k: K) -> bool {
        forall|key: (usize, usize)| #[trigger]
            self.cache@.contains_key(key) ==> exists|p: int, q: int|
                0 <= p < self.sv@.len() && 0 <= q < self.sv@.len() && self.sv@[p].index == key.0
                    && self.sv@[q].index == key.1 && self.cache@[key] == k.s_compute(
                    self.sv@[p].x@,
                    self.sv@[q].x@,
                )
    }

    /// The hyperparameters `a` and `b` agree.
    pub open spec fn same_config(a: Self, b: Self) -> bool {
        a.c == b.c && a.tol == b.tol && a.epochs == b.epochs && a.seed == b.seed
    }

    /// What one extrema refresh guarantees: everything but the extrema
    /// bookkeeping is untouched, and the extrema now describe the set.
    pub open spec fn refresh_ens(pre: Self, post: Self) -> bool {
        &&& post.wf()
        &&& post.sv == pre.sv
        &&& post.cache == pre.cache
        &&& Self::same_config(post, pre)
        &&& !post.recalculate_min_max
        &&& post.min_grad == refreshed_scan(pre).0
        &&& post.min_sv as int == refreshed_scan(pre).1
        &&& post.max_grad == refreshed_scan(pre).2
        &&& post.max_sv as int == refreshed_scan(pre).3
    }

    /// A freshly reset solver: the configuration of `pre`, no active entries,
    /// an empty cache, and extrema pending their first scan.
    pub open spec fn fresh_like(s0: Self, pre: Self) -> bool {
        &&& s0.wf()
        &&& s0.sv@.len() == 0
        &&& s0.cache@ == Map::<(usize, usize), V>::empty()
        &&& Self::same_config(s0, pre)
        &&& s0.recalculate_min_max
    }

    /// `post`'s cache still holds every entry of `pre`'s, with its value:
    /// the only cache mutation was memoizing further kernel values.
    pub open spec fn cache_extends(post: Self, pre: Self) -> bool {
        forall|key: (usize, usize)| #[trigger]
            pre.cache@.contains_key(key) ==> post.cache@.contains_key(key) && post.cache@[key]
                == pre.cache@[key]
    }

    pub fn new(c: V, tol: V, epochs: usize) -> (r: Self)
        ensures
            r.wf(),
            r.c == c,
            r.tol == tol,
            r.epochs == epochs,
            r.seed == Option::<usize>::None,
            r.sv@.len() == 0,
            r.cache@ == Map::<(usize, usize), V>::empty(),
            r.recalculate_min_max,
            r.min_grad == V::s_huge(),
            r.max_grad == V::s_huge().s_neg(),
            r.min_sv == 0,
            r.max_sv == 0,
    {
        SMO {
            c,
            tol,
            epochs,
            cache: Cache::new(),
            seed: None,
            sv: Vec::new(),
            min_grad: V::huge(),
            max_grad: V::huge().neg(),
            min_sv: 0,
            max_sv: 0,
            recalculate_min_max: true,
        }
    }

    pub fn with_c(&mut self, c: V) -> (r: &mut Self)
        ensures
            *r == (SMO { c, ..*old(self) }),
            *final(self) == *final(r),
    {
        self.c = c;
        self
    }

    pub fn with_tol(&mut self, tol: V) -> (r: &mut Self)
        ensures
            *r == (SMO { tol, ..*old(self) }),
            *final(self) == *final(r),
    {
        self.tol = tol;
        self
    }

    pub fn with_epochs(&mut self, epochs: usize) -> (r: &mut Self)
        ensures
            *r == (SMO { epochs, ..*old(self) }),
            *final(self) == *final(r),
    {
        self.epochs = epochs;
        self
    }

    pub fn with_seed(&mut self, seed: Option<usize>) -> (r: &mut Self)
        ensures
            *r == (SMO { seed, ..*old(self) }),
            *final(self) == *final(r),
    {
        self.seed = seed;
        self
    }

    /// Refresh the gradient extrema by one scan over the active set - but
    /// only when the set changed structurally since the last scan; otherwise
    /// this is a no-op. This is the amortization the solver relies on.
    pub fn find_min_max_gradient(&mut self)
        requires
            old(self).wf(),
        ensures
            final(self).wf(),
            !final(self).recalculate_min_max,
            final(self).sv == old(self).sv,
            final(self).cache == old(self).cache,
            Self::same_config(*final(self), *old(self)),
            !old(self).recalculate_min_max ==> *final(self) == *old(self),
            old(self).recalculate_min_max ==> ({
                let (mg, mi, xg, xi) = s_scan(old(self).sv@, old(self).sv@.len() as int);
                &&& final(self).min_grad == mg
                &&& final(self).min_sv as int == mi
                &&& final(self).max_grad == xg
                &&& final(self).max_sv as int == xi
            }),
    {
        if !self.recalculate_min_max {
            return ;
        }
        let ghost pre = *self;
        let mut ming = V::huge();
        let mut maxg = V::huge().neg();
        let mut mini: usize = 0;
        let mut maxi: usize = 0;
        let mut i: usize = 0;
        while i < self.sv.len()
            invariant
                *self == pre,
                i <= self.sv@.len(),
                ({
                    let (mg, mi, xg, xi) = s_scan(self.sv@, i as int);
                    ming == mg && mini as int == mi && maxg == xg && maxi as int == xi
                }),
            decreases self.sv@.len() - i,
        {
            proof {
                lemma_scan_props(self.sv@, i as int);
            }
            let qmin = self.sv[i].cmin.lt(self.sv[i].alpha);
            let qmax = self.sv[i].alpha.lt(self.sv[i].cmax);
            let grad = self.sv[i].grad;
            if qmin && grad.lt(ming) {
                ming = grad;
                mini = i;
            }
            if qmax && maxg.lt(grad) {
                maxg = grad;
                maxi = i;
            }
            i += 1;
        }
        self.min_grad = ming;
        self.max_grad = maxg;
        self.min_sv = mini;
        self.max_sv = maxi;
        self.recalculate_min_max = false;
        proof {
            lemma_scan_props(self.sv@, self.sv@.len() as int);
        }
    }

    /// The kernel value between the active entries at positions `a` and `b`:
    /// from the cache when present, computed and cached otherwise. Either
    /// way, the caller gets the true kernel value of the two entries -
    /// caching is semantically invisible.
    pub fn cached_kernel<K: Kernel<V>>(&mut self, a: usize, b: usize, kernel: &K) -> (r: V)
        requires
            old(self).wf(),
            old(self).cache_ok(*kernel),
            a < old(self).sv@.len(),
            b < old(self).sv@.len(),
        ensures
            final(self).wf(),
            final(self).cache_ok(*kernel),
            final(self).sv == old(self).sv,
            Self::same_config(*final(self), *old(self)),
            final(self).min_grad == old(self).min_grad,
            final(self).max_grad == old(self).max_grad,
            final(self).min_sv == old(self).min_sv,
            final(self).max_sv == old(self).max_sv,
            final(self).recalculate_min_max == old(self).recalculate_min_max,
            Self::cache_extends(*final(self), *old(self)),
            r == kernel.s_compute(old(self).sv@[a as int].x@, old(self).sv@[b as int].x@),
    {
        let ia = self.sv[a].index;
        let ib = self.sv[b].index;
        let xa = copy_vec(&self.sv[a].x);
        let xb = copy_vec(&self.sv[b].x);
        let ghost pre = *self;
        let compute = || -> (r: V)
            ensures
                r == kernel.s_compute(xa@, xb@),
            { kernel.compute(&xa, &xb) };
        let r = self.cache.get_or_insert((ia, ib), compute);
        proof {
            if pre.cache@.contains_key((ia, ib)) {
                let (p, q) = choose|p: int, q: int|
                    0 <= p < pre.sv@.len() && 0 <= q < pre.sv@.len() && pre.sv@[p].index == ia
                        && pre.sv@[q].index == ib && pre.cache@[((ia, ib))] == kernel.s_compute(
                        pre.sv@[p].x@,
                        pre.sv@[q].x@,
                    );
                assert(p == a) by {
                    if p < a {
                        assert(pre.sv@[p].index != pre.sv@[a as int].index);
                    }
                    if a < p {
                        assert(pre.sv@[a as int].index != pre.sv@[p].index);
                    }
                }
                assert(q == b) by {
                    if q < b {
                        assert(pre.sv@[q].index != pre.sv@[b as int].index);
                    }
                    if b < q {
                        assert(pre.sv@[b as int].index != pre.sv@[q].index);
                    }
                }
            } else {
                assert forall|key: (usize, usize)| #[trigger]
                    self.cache@.contains_key(key) implies (self.has_index(key.0)
                    && self.has_index(key.1)) by {
                    if key != ((ia, ib)) {
                        assert(pre.cache@.contains_key(key));
                    } else {
                        assert(self.sv@[a as int].index == key.0);
                        assert(self.sv@[b as int].index == key.1);
                    }
                }
                assert forall|key: (usize, usize)| #[trigger]
                    self.cache@.contains_key(key) implies exists|p: int, q: int|
                    0 <= p < self.sv@.len() && 0 <= q < self.sv@.len() && self.sv@[p].index
                        == key.0 && self.sv@[q].index == key.1 && self.cache@[key]
                        == kernel.s_compute(self.sv@[p].x@, self.sv@[q].x@) by {
                    if key != ((ia, ib)) {
                        assert(pre.cache@.contains_key(key));
                        let (p, q) = choose|p: int, q: int|
                            0 <= p < pre.sv@.len() && 0 <= q < pre.sv@.len() && pre.sv@[p].index
                                == key.0 && pre.sv@[q].index == key.1 && pre.cache@[key]
                                == kernel.s_compute(pre.sv@[p].x@, pre.sv@[q].x@);
                        assert(0 <= p < self.sv@.len() && 0 <= q < self.sv@.len()
                            && self.sv@[p].index == key.0 && self.sv@[q].index == key.1
                            && self.cache@[key] == kernel.s_compute(
                            self.sv@[p].x@,
                            self.sv@[q].x@,
                        ));
                    } else {
                        assert(0 <= a < self.sv@.len() && 0 <= b < self.sv@.len()
                            && self.sv@[a as int].index == key.0 && self.sv@[b as int].index
                            == key.1 && self.cache@[key] == kernel.s_compute(
                            self.sv@[a as int].x@,
                            self.sv@[b as int].x@,
                        ));
                    }
                }
            }
        }
        r
    }

    /// Apply the two-variable step: move the multipliers at `v1` and `v2` by
    /// `step` in opposite directions, refresh every entry's gradient by its
    /// closed-form increment using cached kernel values, and recompute the
    /// extrema.
    pub fn update<K: Kernel<V>>(&mut self, v1: usize, v2: usize, step: V, kernel: &K)
        requires
            old(self).wf(),
            old(self).cache_ok(*kernel),
            v1 < old(self).sv@.len(),
            v2 < old(self).sv@.len(),
        ensures
            final(self).wf(),
            final(self).cache_ok(*kernel),
            Self::same_config(*final(self), *old(self)),
            !final(self).recalculate_min_max,
            final(self).sv@ == updated_sv(old(self).sv@, v1 as int, v2 as int, step, *kernel),
            forall|gi: usize| #[trigger] final(self).has_index(gi) ==> old(self).has_index(gi),
            Self::cache_extends(*final(self), *old(self)),
            ({
                let (mg, mi, xg, xi) = s_scan(final(self).sv@, final(self).sv@.len() as int);
                &&& final(self).min_grad == mg
                &&& final(self).min_sv as int == mi
                &&& final(self).max_grad == xg
                &&& final(self).max_sv as int == xi
            }),
    {
        let ghost osv = old(self).sv@;
        let n = self.sv.len();
        self.recalculate_min_max = true;
        let a1 = self.sv[v1].alpha;
        self.sv[v1].alpha = a1.sub(step);
        let a2 = self.sv[v2].alpha;
        self.sv[v2].alpha = a2.add(step);
        proof {
            lemma_cache_ok_transfer(*old(self), *self, *kernel);
            assert forall|j: int| 0 <= j < n implies #[trigger] self.sv@[j].alpha == alpha_step(
                osv,
                v1 as int,
                v2 as int,
                step,
                j,
            ) by {}
        }
        let mut k1v: Vec<V> = Vec::new();
        let mut k2v: Vec<V> = Vec::new();
        let mut i: usize = 0;
        while i < n
            invariant
                self.wf(),
                self.cache_ok(*kernel),
                self.recalculate_min_max,
                Self::same_config(*self, *old(self)),
                Self::cache_extends(*self, *old(self)),
                n == self.sv@.len(),
                n == osv.len(),
                v1 < n,
                v2 < n,
                i <= n,
                forall|j: int| #![trigger self.sv@[j]]
                    0 <= j < n ==> self.sv@[j].index == osv[j].index && self.sv@[j].x == osv[j].x
                        && self.sv@[j].grad == osv[j].grad && self.sv@[j].cmin == osv[j].cmin
                        && self.sv@[j].cmax == osv[j].cmax && self.sv@[j].k == osv[j].k
                        && self.sv@[j].alpha == alpha_step(osv, v1 as int, v2 as int, step, j),
                k1v@.len() == i,
                k2v@.len() == i,
                forall|j: int| #![trigger k2v@[j]]
                    0 <= j < i ==> k2v@[j] == kernel.s_compute(osv[v2 as int].x@, osv[j].x@),
                forall|j: int| #![trigger k1v@[j]]
                    0 <= j < i ==> k1v@[j] == kernel.s_compute(osv[v1 as int].x@, osv[j].x@),
            decreases n - i,
        {
            let k2 = self.cached_kernel(v2, i, kernel);
            k2v.push(k2);
            let k1 = self.cached_kernel(v1, i, kernel);
            k1v.push(k1);
            i += 1;
        }
        let ghost mid = *self;
        i = 0;
        while i < n
            invariant
                mid.wf(),
                mid.cache_ok(*kernel),
                self.cache == mid.cache,
                Self::cache_extends(mid, *old(self)),
                Self::same_config(*self, *old(self)),
                self.recalculate_min_max,
                self.min_sv == mid.min_sv,
                self.max_sv == mid.max_sv,
                n == self.sv@.len(),
                n == osv.len(),
                n == mid.sv@.len(),
                v1 < n,
                v2 < n,
                i <= n,
                k1v@.len() == n,
                k2v@.len() == n,
                forall|j: int| #![trigger k2v@[j]]
                    0 <= j < n ==> k2v@[j] == kernel.s_compute(osv[v2 as int].x@, osv[j].x@),
                forall|j: int| #![trigger k1v@[j]]
                    0 <= j < n ==> k1v@[j] == kernel.s_compute(osv[v1 as int].x@, osv[j].x@),
                forall|j: int| #![trigger self.sv@[j]]
                    0 <= j < n ==> self.sv@[j].index == osv[j].index && self.sv@[j].x == osv[j].x
                        && self.sv@[j].cmin == osv[j].cmin && self.sv@[j].cmax == osv[j].cmax
                        && self.sv@[j].k == osv[j].k && self.sv@[j].alpha == alpha_step(
                        osv,
                        v1 as int,
                        v2 as int,
                        step,
                        j,
                    ),
                forall|j: int| #![trigger self.sv@[j]]
                    i <= j < n ==> self.sv@[j].grad == osv[j].grad,
                forall|j: int| #![trigger self.sv@[j]]
                    0 <= j < i ==> self.sv@[j].grad == osv[j].grad.s_sub(
                        step.s_mul(
                            kernel.s_compute(osv[v2 as int].x@, osv[j].x@).s_sub(
                                kernel.s_compute(osv[v1 as int].x@, osv[j].x@),
                            ),
                        ),
                    ),
            decreases n - i,
        {
            let g = self.sv[i].grad;
            let k2 = k2v[i];
            let k1 = k1v[i];
            self.sv[i].grad = g.sub(step.mul(k2.sub(k1)));
            i += 1;
        }
        proof {
            assert(sv_wf(self.sv@)) by {
                assert forall|p: int, q: int| 0 <= p < q < n implies self.sv@[p].index
                    != self.sv@[q].index by {
                    assert(osv[p].index != osv[q].index);
                }
            }
            lemma_cache_ok_transfer(mid, *self, *kernel);
        }
        self.find_min_max_gradient();
        proof {
            lemma_cache_ok_transfer(mid, *self, *kernel);
            assert forall|j: int|
                0 <= j < n implies self.sv@[j] == updated_sv(
                osv,
                v1 as int,
                v2 as int,
                step,
                *kernel,
            )[j] by {}
            assert(self.sv@ =~= updated_sv(osv, v1 as int, v2 as int, step, *kernel));
            assert forall|gi: usize| #[trigger] self.has_index(gi) implies old(self).has_index(
                gi,
            ) by {
                let p = choose|p: int| 0 <= p < self.sv@.len() && self.sv@[p].index == gi;
                assert(osv[p].index == gi);
            }
        }
    }

    /// Working-set selection. With both endpoints unset, the side with the
    /// larger violation picks the fixed endpoint; with one endpoint fixed,
    /// every active entry is scanned as the other, keeping the feasible
    /// candidate with the best second-order gain (ties keep the first found);
    /// with both fixed there is no search. Returns the pair's positions and
    /// their kernel value, or nothing when no candidate qualifies.
    pub fn select_pair<K: Kernel<V>>(
        &mut self,
        idx_1: Option<usize>,
        idx_2: Option<usize>,
        kernel: &K,
    ) -> (r: Option<(usize, usize, V)>)
        requires
            old(self).wf(),
            old(self).cache_ok(*kernel),
            crate::kernel::symmetric(*kernel),
            idx_1 matches Some(i) ==> i < old(self).sv@.len(),
            idx_2 matches Some(i) ==> i < old(self).sv@.len(),
        ensures
            final(self).wf(),
            final(self).cache_ok(*kernel),
            final(self).sv == old(self).sv,
            Self::same_config(*final(self), *old(self)),
            final(self).min_grad == old(self).min_grad,
            final(self).max_grad == old(self).max_grad,
            final(self).min_sv == old(self).min_sv,
            final(self).max_sv == old(self).max_sv,
            final(self).recalculate_min_max == old(self).recalculate_min_max,
            Self::cache_extends(*final(self), *old(self)),
            r matches Some((a, b, kv)) ==> a < old(self).sv@.len() && b < old(self).sv@.len()
                && kv == kernel.s_compute(old(self).sv@[a as int].x@, old(self).sv@[b as int].x@),
            idx_1 matches Some(i1) ==> (idx_2 is None ==> second_scan_ok(
                old(self).sv@,
                i1 as int,
                r,
                *kernel,
            )),
            idx_2 matches Some(i2) ==> (idx_1 is None ==> first_scan_ok(
                old(self).sv@,
                i2 as int,
                r,
                *kernel,
            )),
            idx_1 is None && idx_2 is None && old(self).sv@.len() == 0 ==> r is None,
            idx_1 is None && idx_2 is None && old(self).sv@.len() > 0 ==> (if old(
                self,
            ).min_grad.s_neg().s_lt(old(self).max_grad) {
                first_scan_ok(old(self).sv@, old(self).max_sv as int, r, *kernel)
            } else {
                second_scan_ok(old(self).sv@, old(self).min_sv as int, r, *kernel)
            }),
            idx_1 matches Some(i1) ==> (idx_2 matches Some(i2) ==> r == Some(
                (
                    i1,
                    i2,
                    kernel.s_compute(old(self).sv@[i1 as int].x@, old(self).sv@[i2 as int].x@),
                ),
            )),
        decreases (if idx_1 is Some { 0int } else { 1int }) + (if idx_2 is Some { 0int } else {
            1int
        }),
    {
        match (idx_1, idx_2) {
            (None, None) => {
                if self.sv.len() == 0 {
                    return None;
                }
                if self.min_grad.neg().lt(self.max_grad) {
                    let m = self.max_sv;
                    self.select_pair(None, Some(m), kernel)
                } else {
                    let m = self.min_sv;
                    self.select_pair(Some(m), None, kernel)
                }
            }
            (Some(i1), None) => {
                let km = self.sv[i1].k;
                let gm = self.sv[i1].grad;
                let zero = V::zero();
                let tau = V::tau();
                let mut best = V::zero();
                let mut chosen: Option<usize> = None;
                let mut kv12: Option<V> = None;
                let mut i: usize = 0;
                while i < self.sv.len()
                    invariant
                        self.wf(),
                        self.cache_ok(*kernel),
                        self.sv == old(self).sv,
                        Self::same_config(*self, *old(self)),
                        self.min_grad == old(self).min_grad,
                        self.max_grad == old(self).max_grad,
                        self.min_sv == old(self).min_sv,
                        self.max_sv == old(self).max_sv,
                        self.recalculate_min_max == old(self).recalculate_min_max,
                        Self::cache_extends(*self, *old(self)),
                        i1 < self.sv@.len(),
                        i <= self.sv@.len(),
                        chosen matches Some(c) ==> c < self.sv@.len(),
                        chosen.is_some() == kv12.is_some(),
                        chosen matches Some(c) ==> kv12->Some_0 == kernel.s_compute(
                            self.sv@[i1 as int].x@,
                            self.sv@[c as int].x@,
                        ),
                        km == self.sv@[i1 as int].k,
                        gm == self.sv@[i1 as int].grad,
                        zero == V::s_zero(),
                        tau == V::s_tau(),
                        chosen is None ==> best == V::s_zero(),
                        chosen matches Some(c) ==> second_qual(self.sv@, i1 as int, c as int, *kernel)
                            && best == second_gain(self.sv@, i1 as int, c as int, *kernel)
                            && V::s_zero().s_lt(best),
                        chosen matches Some(c) ==> forall|p: int|
                            0 <= p < c && #[trigger] second_qual(self.sv@, i1 as int, p, *kernel)
                                ==> second_gain(self.sv@, i1 as int, p, *kernel).s_lt(best),
                        forall|p: int|
                            0 <= p < i && #[trigger] second_qual(self.sv@, i1 as int, p, *kernel)
                                ==> !best.s_lt(second_gain(self.sv@, i1 as int, p, *kernel)),
                    decreases self.sv@.len() - i,
                {
                    let ghost best0 = best;
                    let z = self.sv[i].grad.sub(gm);
                    let k = self.cached_kernel(i1, i, kernel);
                    let mut curv = km.add(self.sv[i].k).sub(k.add(k));
                    if !zero.lt(curv) {
                        curv = tau;
                    }
                    let mu = z.div(curv);
                    proof {
                        assert(curv == pair_curv(self.sv@, i1 as int, i as int, *kernel));
                        assert(mu == second_mu(self.sv@, i1 as int, i as int, *kernel));
                    }
                    let up = zero.lt(mu) && self.sv[i].alpha.lt(self.sv[i].cmax);
                    let down = mu.lt(zero) && self.sv[i].cmin.lt(self.sv[i].alpha);
                    proof {
                        assert((up || down) == second_qual(self.sv@, i1 as int, i as int, *kernel));
                    }
                    if up || down {
                        let gain = z.mul(mu);
                        proof {
                            assert(gain == second_gain(self.sv@, i1 as int, i as int, *kernel));
                        }
                        if best.lt(gain) {
                            proof {
                                if V::s_zero().s_lt(best0) {
                                    V::lt_trans(V::s_zero(), best0, gain);
                                }
                            }
                            best = gain;
                            chosen = Some(i);
                            kv12 = Some(k);
                        }
                    }
                    proof {
                        let sv = self.sv@;
                        let f = i1 as int;
                        assert forall|p: int|
                            0 <= p < i + 1 && #[trigger] second_qual(sv, f, p, *kernel)
                                implies !best.s_lt(second_gain(sv, f, p, *kernel)) by {
                            let gp = second_gain(sv, f, p, *kernel);
                            if p < i {
                                if best != best0 && best.s_lt(gp) {
                                    V::lt_trans(best0, best, gp);
                                }
                            } else {
                                if best == second_gain(sv, f, i as int, *kernel) {
                                    V::lt_irrefl(best);
                                }
                            }
                        }
                        if chosen matches Some(c) && c == i {
                            assert forall|p: int|
                                0 <= p < i && #[trigger] second_qual(sv, f, p, *kernel)
                                    implies second_gain(sv, f, p, *kernel).s_lt(best) by {
                                let gp = second_gain(sv, f, p, *kernel);
                                if !gp.s_lt(best) {
                                    V::lt_neg_trans(best0, gp, best);
                                }
                            }
                        }
                    }
                    i += 1;
                }
                match chosen {
                    Some(i2) => {
                        let kv = match kv12 {
                            Some(kv) => kv,
                            None => kernel.compute(&self.sv[i1].x, &self.sv[i2].x),
                        };
                        Some((i1, i2, kv))
                    }
                    None => None,
                }
            }
            (None, Some(i2)) => {
                let km = self.sv[i2].k;
                let gm = self.sv[i2].grad;
                let zero = V::zero();
                let tau = V::tau();
                let mut best = V::zero();
                let mut chosen: Option<usize> = None;
                let mut kv12: Option<V> = None;
                let mut i: usize = 0;
                while i < self.sv.len()
                    invariant
                        self.wf(),
                        self.cache_ok(*kernel),
                        self.sv == old(self).sv,
                        Self::same_config(*self, *old(self)),
                        self.min_grad == old(self).min_grad,
                        self.max_grad == old(self).max_grad,
                        self.min_sv == old(self).min_sv,
                        self.max_sv == old(self).max_sv,
                        self.recalculate_min_max == old(self).recalculate_min_max,
                        Self::cache_extends(*self, *old(self)),
                        i2 < self.sv@.len(),
                        i <= self.sv@.len(),
                        chosen matches Some(c) ==> c < self.sv@.len(),
                        chosen.is_some() == kv12.is_some(),
                        chosen matches Some(c) ==> kv12->Some_0 == kernel.s_compute(
                            self.sv@[i2 as int].x@,
                            self.sv@[c as int].x@,
                        ),
                        km == self.sv@[i2 as int].k,
                        gm == self.sv@[i2 as int].grad,
                        zero == V::s_zero(),
                        tau == V::s_tau(),
                        chosen is None ==> best == V::s_zero(),
                        chosen matches Some(c) ==> first_qual(self.sv@, i2 as int, c as int, *kernel)
                            && best == first_gain(self.sv@, i2 as int, c as int, *kernel)
                            && V::s_zero().s_lt(best),
                        chosen matches Some(c) ==> forall|p: int|
                            0 <= p < c && #[trigger] first_qual(self.sv@, i2 as int, p, *kernel)
                                ==> first_gain(self.sv@, i2 as int, p, *kernel).s_lt(best),
                        forall|p: int|
                            0 <= p < i && #[trigger] first_qual(self.sv@, i2 as int, p, *kernel)
                                ==> !best.s_lt(first_gain(self.sv@, i2 as int, p, *kernel)),
                    decreases self.sv@.len() - i,
                {
                    let ghost best0 = best;
                    let z = gm.sub(self.sv[i].grad);
                    let k = self.cached_kernel(i2, i, kernel);
                    let mut curv = km.add(self.sv[i].k).sub(k.add(k));
                    if !zero.lt(curv) {
                        curv = tau;
                    }
                    let mu = z.div(curv);
                    proof {
                        assert(curv == pair_curv(self.sv@, i2 as int, i as int, *kernel));
                        assert(mu == first_mu(self.sv@, i2 as int, i as int, *kernel));
                    }
                    let down = zero.lt(mu) && self.sv[i].cmin.lt(self.sv[i].alpha);
                    let up = mu.lt(zero) && self.sv[i].alpha.lt(self.sv[i].cmax);
                    proof {
                        assert((down || up) == first_qual(self.sv@, i2 as int, i as int, *kernel));
                    }
                    if down || up {
                        let gain = z.mul(mu);
                        proof {
                            assert(gain == first_gain(self.sv@, i2 as int, i as int, *kernel));
                        }
                        if best.lt(gain) {
                            proof {
                                if V::s_zero().s_lt(best0) {
                                    V::lt_trans(V::s_zero(), best0, gain);
                                }
                            }
                            best = gain;
                            chosen = Some(i);
                            kv12 = Some(k);
                        }
                    }
                    proof {
                        let sv = self.sv@;
                        let f = i2 as int;
                        assert forall|p: int|
                            0 <= p < i + 1 && #[trigger] first_qual(sv, f, p, *kernel)
                                implies !best.s_lt(first_gain(sv, f, p, *kernel)) by {
                            let gp = first_gain(sv, f, p, *kernel);
                            if p < i {
                                if best != best0 && best.s_lt(gp) {
                                    V::lt_trans(best0, best, gp);
                                }
                            } else {
                                if best == first_gain(sv, f, i as int, *kernel) {
                                    V::lt_irrefl(best);
                                }
                            }
                        }
                        if chosen matches Some(c) && c == i {
                            assert forall|p: int|
                                0 <= p < i && #[trigger] first_qual(sv, f, p, *kernel)
                                    implies first_gain(sv, f, p, *kernel).s_lt(best) by {
                                let gp = first_gain(sv, f, p, *kernel);
                                if !gp.s_lt(best) {
                                    V::lt_neg_trans(best0, gp, best);
                                }
                            }
                        }
                    }
                    i += 1;
                }
                match chosen {
                    Some(i1) => {
                        let kv = match kv12 {
                            Some(kv) => kv,
                            None => kernel.compute(&self.sv[i1].x, &self.sv[i2].x),
                        };
                        Some((i1, i2, kv))
                    }
                    None => None,
                }
            }
            (Some(i1), Some(i2)) => {
                let r = kernel.compute(&self.sv[i1].x, &self.sv[i2].x);
                Some((i1, i2, r))
            }
        }
    }

    /// Everything one decomposition step guarantees, relating the solver
    /// before (`pre`) and after (`post`): selection went by [`selected_ok`]
    /// on the refreshed extrema; with no pair the state is only refreshed,
    /// the result false; with a pair the active set is exactly the
    /// two-variable update by the clipped step [`s_smo_step`], the extrema
    /// are a fresh scan of it, and the result reports whether the gradient
    /// gap still exceeds `tol`. Either way the set's indices and length are
    /// kept and the cache only memoizes further kernel values.
    pub open spec fn smo_ens<K: Kernel<V>>(
        pre: Self,
        post: Self,
        idx_1: Option<usize>,
        idx_2: Option<usize>,
        tol: V,
        k: K,
        r: bool,
    ) -> bool {
        &&& post.wf()
        &&& post.cache_ok(k)
        &&& Self::same_config(post, pre)
        &&& Self::cache_extends(post, pre)
        &&& (forall|gi: usize| #[trigger] post.has_index(gi) ==> pre.has_index(gi))
        &&& post.sv@.len() == pre.sv@.len()
        &&& (forall|p: int| #![trigger post.sv@[p]]
            0 <= p < post.sv@.len() ==> post.sv@[p].index == pre.sv@[p].index && post.sv@[p].x
                == pre.sv@[p].x)
        &&& (exists|picked: Option<(usize, usize, V)>|
            #[trigger] selected_ok(pre, idx_1, idx_2, picked, k) && (match picked {
                Option::None => {
                    &&& r == false
                    &&& post.sv@ == pre.sv@
                    &&& !post.recalculate_min_max
                    &&& post.min_grad == refreshed_scan(pre).0
                    &&& post.min_sv as int == refreshed_scan(pre).1
                    &&& post.max_grad == refreshed_scan(pre).2
                    &&& post.max_sv as int == refreshed_scan(pre).3
                },
                Option::Some((a, b, kv)) => {
                    &&& a < pre.sv@.len()
                    &&& b < pre.sv@.len()
                    &&& kv == k.s_compute(pre.sv@[a as int].x@, pre.sv@[b as int].x@)
                    &&& post.sv@ == updated_sv(
                        pre.sv@,
                        a as int,
                        b as int,
                        s_smo_step(pre.sv@, a as int, b as int, k),
                        k,
                    )
                    &&& !post.recalculate_min_max
                    &&& ({
                        let (mg, mi, xg, xi) = s_scan(post.sv@, post.sv@.len() as int);
                        post.min_grad == mg && post.min_sv as int == mi && post.max_grad == xg
                            && post.max_sv as int == xi
                    })
                    &&& r == tol.s_lt(post.max_grad.s_sub(post.min_grad))
                },
            }))
    }

    /// One decomposition step: refresh the extrema, resolve the working pair,
    /// clamp degenerate curvature, clip the raw step to both box constraints,
    /// apply it, and report whether the gradient gap still exceeds `tol`.
    pub fn smo<K: Kernel<V>>(
        &mut self,
        idx_1: Option<usize>,
        idx_2: Option<usize>,
        tol: V,
        kernel: &K,
    ) -> (r: bool)
        requires
            old(self).wf(),
            old(self).cache_ok(*kernel),
            crate::kernel::symmetric(*kernel),
            idx_1 matches Some(i) ==> i < old(self).sv@.len(),
            idx_2 matches Some(i) ==> i < old(self).sv@.len(),
        ensures
            Self::smo_ens(*old(self), *final(self), idx_1, idx_2, tol, *kernel, r),
    {
        self.find_min_max_gradient();
        proof {
            let rs = refreshed_scan(*old(self));
            assert(self.min_grad == rs.0 && self.min_sv as int == rs.1 && self.max_grad == rs.2
                && self.max_sv as int == rs.3);
        }
        let picked = self.select_pair(idx_1, idx_2, kernel);
        proof {
            assert(selected_ok(*old(self), idx_1, idx_2, picked, *kernel));
        }
        match picked {
            Some((a, b, k_v_12)) => {
                let zero = V::zero();
                let tau = V::tau();
                let mut curv = self.sv[a].k.add(self.sv[b].k).sub(k_v_12.add(k_v_12));
                if !zero.lt(curv) {
                    curv = tau;
                }
                let mut step = self.sv[b].grad.sub(self.sv[a].grad).div(curv);
                if !step.lt(zero) {
                    let mut ostep = self.sv[a].alpha.sub(self.sv[a].cmin);
                    if ostep.lt(step) {
                        step = ostep;
                    }
                    ostep = self.sv[b].cmax.sub(self.sv[b].alpha);
                    if ostep.lt(step) {
                        step = ostep;
                    }
                } else {
                    let mut ostep = self.sv[b].cmin.sub(self.sv[b].alpha);
                    if step.lt(ostep) {
                        step = ostep;
                    }
                    ostep = self.sv[a].alpha.sub(self.sv[a].cmax);
                    if step.lt(ostep) {
                        step = ostep;
                    }
                }
                proof {
                    assert(step == s_smo_step(self.sv@, a as int, b as int, *kernel));
                }
                self.update(a, b, step, kernel);
                let gap = self.max_grad.sub(self.min_grad);
                tol.lt(gap)
            }
            None => false,
        }
    }

    /// Everything one shrink pass guarantees: the surviving entries are
    /// exactly the old ones not condemned under the refreshed extremal
    /// gradients, in order and unchanged as records, and a cache entry
    /// survives exactly when both its indices still have an active entry.
    pub open spec fn clean_ens(pre: Self, post: Self) -> bool {
        &&& post.wf()
        &&& Self::same_config(post, pre)
        &&& post.recalculate_min_max
        &&& post.min_grad == refreshed_extrema(pre).0
        &&& post.max_grad == refreshed_extrema(pre).1
        &&& post.sv@ == retained_of(pre.sv@, refreshed_extrema(pre).0, refreshed_extrema(pre).1)
        &&& (forall|p: int| 0 <= p < post.sv@.len() ==> pre.sv@.contains(#[trigger] post.sv@[p]))
        &&& (forall|key: (usize, usize)| #[trigger]
            post.cache@.contains_key(key) <==> pre.cache@.contains_key(key) && post.has_index(
                key.0,
            ) && post.has_index(key.1))
        &&& (forall|key: (usize, usize)| #[trigger]
            post.cache@.contains_key(key) ==> post.cache@[key] == pre.cache@[key])
    }

    /// Shrink: after refreshing the extrema, remove every entry whose
    /// multiplier sits at zero and cannot improve the objective given the
    /// current extremal gradients, and invalidate every cache entry that
    /// references a removed index, in one batch.
    pub fn clean(&mut self)
        requires
            old(self).wf(),
        ensures
            Self::clean_ens(*old(self), *final(self)),
    {
        self.find_min_max_gradient();
        let ming = self.min_grad;
        let maxg = self.max_grad;
        let zero = V::zero();
        let mut rest: Vec<SupportVector<V>> = Vec::new();
        core::mem::swap(&mut self.sv, &mut rest);
        let ghost svpre = rest@;
        let mut dropped: Vec<usize> = Vec::new();
        let ghost consumed = 0int;
        while rest.len() > 0
            invariant
                0 <= consumed,
                consumed + rest@.len() == svpre.len(),
                rest@ == svpre.skip(consumed),
                self.sv@ == retained_of(svpre.take(consumed), ming, maxg),
                dropped@ == dropped_of(svpre.take(consumed), ming, maxg),
                self.cache == old(self).cache,
                Self::same_config(*self, *old(self)),
                self.min_grad == ming,
                self.max_grad == maxg,
                zero == V::s_zero(),
            decreases rest@.len(),
        {
            let ghost c0 = consumed;
            let e = rest.remove(0);
            proof {
                assert(svpre.skip(c0).remove(0) =~= svpre.skip(c0 + 1));
                assert(e == svpre.skip(c0)[0]);
                assert(e == svpre[c0]);
            }
            let at_zero = !e.alpha.lt(zero) && !zero.lt(e.alpha);
            let stuck_high = !e.grad.lt(maxg) && !zero.lt(e.cmax);
            let stuck_low = !ming.lt(e.grad) && !e.cmin.lt(zero);
            let condemned = at_zero && (stuck_high || stuck_low);
            proof {
                assert(at_zero == s_is_zero(e.alpha));
                assert(stuck_high == (!e.grad.s_lt(maxg) && !V::s_zero().s_lt(e.cmax)));
                assert(stuck_low == (!ming.s_lt(e.grad) && !e.cmin.s_lt(V::s_zero())));
                assert(condemned == drop_pred(e, ming, maxg));
            }
            if condemned {
                dropped.push(e.index);
            } else {
                self.sv.push(e);
            }
            proof {
                consumed = consumed + 1;
                let t = svpre.take(c0 + 1);
                assert(t.drop_last() =~= svpre.take(c0));
                assert(t.last() == svpre[c0]);
                assert(retained_of(t, ming, maxg) == if drop_pred(svpre[c0], ming, maxg) {
                    retained_of(svpre.take(c0), ming, maxg)
                } else {
                    retained_of(svpre.take(c0), ming, maxg).push(svpre[c0])
                });
                assert(dropped_of(t, ming, maxg) == if drop_pred(svpre[c0], ming, maxg) {
                    dropped_of(svpre.take(c0), ming, maxg).push(svpre[c0].index)
                } else {
                    dropped_of(svpre.take(c0), ming, maxg)
                });
            }
        }
        proof {
            assert(svpre.take(consumed) =~= svpre);
        }
        self.cache.drop_all(&dropped);
        self.recalculate_min_max = true;
        self.min_sv = 0;
        self.max_sv = 0;
        proof {
            lemma_retained(svpre, ming, maxg);
            let ret = retained_of(svpre, ming, maxg);
            assert forall|p: int| 0 <= p < self.sv@.len() implies svpre.contains(
                #[trigger] self.sv@[p],
            ) by {
                assert(ret.contains(ret[p]));
            }
            assert forall|key: (usize, usize)| #[trigger]
                self.cache@.contains_key(key) implies old(self).cache@.contains_key(key)
                && self.has_index(key.0) && self.has_index(key.1) by {
                assert(old(self).has_index(key.0) && old(self).has_index(key.1));
                assert forall|gi: usize|
                    old(self).has_index(gi) && !dropped@.contains(gi) implies self.has_index(
                    gi,
                ) by {
                    let p = choose|p: int| 0 <= p < svpre.len() && svpre[p].index == gi;
                    assert(!drop_pred(svpre[p], ming, maxg));
                    assert(svpre.contains(svpre[p]));
                    assert(ret.contains(svpre[p]));
                    let q = choose|q: int| 0 <= q < ret.len() && ret[q] == svpre[p];
                }
            }
            assert forall|key: (usize, usize)|
                old(self).cache@.contains_key(key) && self.has_index(key.0) && self.has_index(
                    key.1,
                ) implies #[trigger] self.cache@.contains_key(key) by {
                assert forall|gi: usize| self.has_index(gi) implies !dropped@.contains(gi) by {
                    let q = choose|q: int| 0 <= q < ret.len() && ret[q].index == gi;
                    if dropped@.contains(gi) {
                        let p = choose|p: int|
                            0 <= p < svpre.len() && svpre[p].index == gi && drop_pred(
                                svpre[p],
                                ming,
                                maxg,
                            );
                        let p2 = choose|p2: int|
                            0 <= p2 < svpre.len() && svpre[p2].index == gi && !drop_pred(
                                svpre[p2],
                                ming,
                                maxg,
                            );
                        assert(p == p2);
                    }
                }
            }
        }
    }

    /// Whether a candidate with starting gradient `g` and label `y` is turned
    /// away: only when the extremal gradients are valid, and the candidate
    /// cannot be the most violating entry on its label's side.
    pub open spec fn admission_rejected(pre: Self, g: V, y: i32) -> bool {
        let ming = refreshed_extrema(pre).0;
        let maxg = refreshed_extrema(pre).1;
        ming.s_lt(maxg) && ((y == 1 && g.s_lt(ming)) || (y == -1 && maxg.s_lt(g)))
    }

    /// Everything one `process` call guarantees, relating the solver before
    /// (`pre`) and after (`post`) admitting candidate `i` with features `x`
    /// and label `y`, where `r` is the reported admission outcome.
    pub open spec fn process_ens<K: Kernel<V>>(
        pre: Self,
        post: Self,
        i: usize,
        x: Seq<V>,
        y: i32,
        k: K,
        r: bool,
    ) -> bool {
        &&& post.wf()
        &&& post.cache_ok(k)
        &&& Self::same_config(post, pre)
        &&& (forall|gi: usize| #[trigger] post.has_index(gi) ==> gi == i || pre.has_index(gi))
        &&& Self::cache_extends(post, pre)
        &&& (forall|gi: usize| #[trigger] pre.has_index(gi) ==> post.has_index(gi))
        &&& (forall|p: int| #![trigger post.sv@[p]]
            0 <= p < post.sv@.len() ==> (post.sv@[p].index == i && post.sv@[p].x@ == x) || exists|
                q: int,
            |
                0 <= q < pre.sv@.len() && post.sv@[p].index == pre.sv@[q].index && post.sv@[p].x
                    == pre.sv@[q].x)
        &&& (pre.has_index(i) ==> r == true && post == pre)
        &&& (!r ==> post.sv@ == pre.sv@ && post.cache@ == pre.cache@
            && !post.recalculate_min_max && post.min_grad == refreshed_extrema(pre).0
            && post.max_grad == refreshed_extrema(pre).1)
        &&& (pre.has_index(i) || !r ==> post.sv@.len() == pre.sv@.len())
        &&& (!pre.has_index(i) && r ==> post.sv@.len() == pre.sv@.len() + 1)
        &&& (!pre.has_index(i) ==> ({
            let g = s_grad_seed(V::s_label(y == 1), pre.sv@, x, k, pre.sv@.len() as int);
            &&& r == !Self::admission_rejected(pre, g, y)
            &&& (r ==> exists|ins: Seq<SupportVector<V>>, mid: Self|
                #![trigger inserted_shape(ins, pre.sv@, i, x, g, k), mid.sv@]
                inserted_shape(ins, pre.sv@, i, x, g, k) && (y == 1 ==> ins[0].cmin == V::s_zero()
                    && ins[0].cmax == pre.c) && (y == -1 ==> ins[0].cmin == pre.c.s_neg()
                    && ins[0].cmax == V::s_zero()) && mid.sv@ == ins && mid.recalculate_min_max
                    && (y == 1 ==> exists|rr: bool|
                    #[trigger] Self::smo_ens(
                        mid,
                        post,
                        Option::None,
                        Option::Some(0usize),
                        V::s_zero(),
                        k,
                        rr,
                    )) && (y == -1 ==> exists|rr: bool|
                    #[trigger] Self::smo_ens(
                        mid,
                        post,
                        Option::Some(0usize),
                        Option::None,
                        V::s_zero(),
                        k,
                        rr,
                    )))
        }))
    }

    /// Admission of one candidate sample. Re-processing an already active
    /// index succeeds trivially and changes nothing. Otherwise the
    /// candidate's starting gradient is computed against every active entry;
    /// if the refreshed extrema are valid and disqualify the candidate from
    /// being most violating on its label's side, admission fails and leaves
    /// the set and the cache untouched. On acceptance the computed kernel
    /// values are committed to the cache, the new entry joins at the front,
    /// and one decomposition step seeded with it integrates it. A rejection
    /// discards the scanned values: the cache only ever names active entries,
    /// which is what makes bulk invalidation on shrink complete.
    #[verifier::rlimit(60)]
    pub fn process<K: Kernel<V>>(&mut self, i: usize, x: &Vec<V>, y: i32, kernel: &K) -> (r: bool)
        requires
            old(self).wf(),
            old(self).cache_ok(*kernel),
            crate::kernel::symmetric(*kernel),
            y == 1 || y == -1,
        ensures
            Self::process_ens(*old(self), *final(self), i, x@, y, *kernel, r),
    {
        let ghost osv = old(self).sv@;
        let mut j: usize = 0;
        while j < self.sv.len()
            invariant
                *self == *old(self),
                self.wf(),
                self.cache_ok(*kernel),
                j <= self.sv@.len(),
                forall|p: int| 0 <= p < j ==> self.sv@[p].index != i,
            decreases self.sv@.len() - j,
        {
            if self.sv[j].index == i {
                proof {
                    assert(old(self).has_index(i));
                }
                return true;
            }
            j += 1;
        }
        let label_pos = y == 1;
        let mut g = V::label(label_pos);
        let mut cache_vals: Vec<((usize, usize), V)> = Vec::new();
        j = 0;
        while j < self.sv.len()
            invariant
                *self == *old(self),
                osv == self.sv@,
                j <= self.sv@.len(),
                g == s_grad_seed(V::s_label(label_pos), osv, x@, *kernel, j as int),
                cache_vals@.len() == j,
                forall|p: int| #![trigger cache_vals@[p]]
                    0 <= p < j ==> cache_vals@[p].0 == ((i, osv[p].index)) && cache_vals@[p].1
                        == kernel.s_compute(osv[p].x@, x@),
            decreases self.sv@.len() - j,
        {
            let kj = kernel.compute(&self.sv[j].x, x);
            cache_vals.push(((i, self.sv[j].index), kj));
            g = g.sub(self.sv[j].alpha.mul(kj));
            proof {
                assert(s_grad_seed(V::s_label(label_pos), osv, x@, *kernel, j + 1) == s_grad_seed(
                    V::s_label(label_pos),
                    osv,
                    x@,
                    *kernel,
                    j as int,
                ).s_sub(osv[j as int].alpha.s_mul(kernel.s_compute(osv[j as int].x@, x@))));
                assert(cache_vals@[j as int].0 == ((i, osv[j as int].index)));
                assert(cache_vals@[j as int].1 == kernel.s_compute(osv[j as int].x@, x@));
            }
            j += 1;
        }
        self.find_min_max_gradient();
        let rejected = if self.min_grad.lt(self.max_grad) {
            if label_pos {
                g.lt(self.min_grad)
            } else {
                self.max_grad.lt(g)
            }
        } else {
            false
        };
        if rejected {
            return false;
        }
        let k_v = kernel.compute(x, x);
        let xc = copy_vec(x);
        let entry = SupportVector::new(i, xc, V::label(label_pos), g, self.c, k_v);
        proof {
            V::label_sign(label_pos);
            if !label_pos && V::s_zero().s_lt(V::s_label(label_pos)) {
                V::lt_trans(V::s_label(label_pos), V::s_zero(), V::s_label(label_pos));
                V::lt_irrefl(V::s_label(label_pos));
            }
        }
        let ghost pre_insert = *self;
        self.sv.insert(0, entry);
        self.recalculate_min_max = true;
        let ghost ins = self.sv@;
        proof {
            assert(forall|p: int| 0 <= p < osv.len() ==> ins[p + 1] == osv[p]);
            assert(ins.skip(1) =~= osv);
            assert(sv_wf(ins)) by {
                assert forall|p: int, q: int| 0 <= p < q < ins.len() implies ins[p].index
                    != ins[q].index by {
                    if p == 0 {
                        assert(ins[q] == osv[q - 1]);
                        assert(osv[q - 1].index != i);
                    } else {
                        assert(ins[p] == osv[p - 1] && ins[q] == osv[q - 1]);
                        assert(osv[p - 1].index != osv[q - 1].index);
                    }
                }
            }
            assert(inserted_shape(ins, osv, i, x@, g, *kernel));
            assert forall|key: (usize, usize)| #[trigger]
                self.cache@.contains_key(key) implies exists|p: int, q: int|
                0 <= p < ins.len() && 0 <= q < ins.len() && ins[p].index == key.0 && ins[q].index
                    == key.1 && self.cache@[key] == kernel.s_compute(ins[p].x@, ins[q].x@) by {
                let (p, q) = choose|p: int, q: int|
                    0 <= p < osv.len() && 0 <= q < osv.len() && osv[p].index == key.0
                        && osv[q].index == key.1 && pre_insert.cache@[key] == kernel.s_compute(
                        osv[p].x@,
                        osv[q].x@,
                    );
                assert(ins[p + 1] == osv[p] && ins[q + 1] == osv[q]);
            }
            assert forall|key: (usize, usize)| #[trigger]
                self.cache@.contains_key(key) implies self.has_index(key.0) && self.has_index(
                key.1,
            ) by {
                let (p, q) = choose|p: int, q: int|
                    0 <= p < ins.len() && 0 <= q < ins.len() && ins[p].index == key.0
                        && ins[q].index == key.1 && self.cache@[key] == kernel.s_compute(
                        ins[p].x@,
                        ins[q].x@,
                    );
            }
        }
        j = 0;
        while j < cache_vals.len()
            invariant
                self.wf(),
                self.cache_ok(*kernel),
                crate::kernel::symmetric(*kernel),
                self.recalculate_min_max,
                Self::same_config(*self, *old(self)),
                Self::cache_extends(*self, *old(self)),
                !old(self).has_index(i),
                forall|key: (usize, usize)| #[trigger]
                    old(self).cache@.contains_key(key) ==> key.0 != i,
                self.sv@ == ins,
                ins.len() == osv.len() + 1,
                ins[0].index == i,
                ins[0].x@ == x@,
                forall|p: int| 0 <= p < osv.len() ==> ins[p + 1] == osv[p],
                cache_vals@.len() == osv.len(),
                forall|p: int| #![trigger cache_vals@[p]]
                    0 <= p < osv.len() ==> cache_vals@[p].0 == ((i, osv[p].index))
                        && cache_vals@[p].1 == kernel.s_compute(osv[p].x@, x@),
                j <= cache_vals@.len(),
            decreases cache_vals@.len() - j,
        {
            let (key, val) = cache_vals[j];
            let ghost prec = *self;
            self.cache.insert(key, val);
            proof {
                assert(val == kernel.s_compute(x@, osv[j as int].x@));
                assert forall|ky: (usize, usize)| #[trigger]
                    self.cache@.contains_key(ky) implies exists|p: int, q: int|
                    0 <= p < ins.len() && 0 <= q < ins.len() && ins[p].index == ky.0
                        && ins[q].index == ky.1 && self.cache@[ky] == kernel.s_compute(
                        ins[p].x@,
                        ins[q].x@,
                    ) by {
                    if ky == key {
                        assert(ins[0].index == ky.0);
                        assert(ins[j + 1].index == ky.1);
                        assert(self.cache@[ky] == kernel.s_compute(ins[0].x@, ins[j + 1].x@));
                    } else {
                        assert(prec.cache@.contains_key(ky));
                        let (p, q) = choose|p: int, q: int|
                            0 <= p < ins.len() && 0 <= q < ins.len() && ins[p].index == ky.0
                                && ins[q].index == ky.1 && prec.cache@[ky] == kernel.s_compute(
                                ins[p].x@,
                                ins[q].x@,
                            );
                    }
                }
                assert forall|ky: (usize, usize)| #[trigger]
                    self.cache@.contains_key(ky) implies self.has_index(ky.0) && self.has_index(
                    ky.1,
                ) by {
                    let (p, q) = choose|p: int, q: int|
                        0 <= p < ins.len() && 0 <= q < ins.len() && ins[p].index == ky.0
                            && ins[q].index == ky.1 && self.cache@[ky] == kernel.s_compute(
                            ins[p].x@,
                            ins[q].x@,
                        );
                }
            }
            j += 1;
        }
        let ghost pre_smo = *self;
        let rr = if label_pos {
            self.smo(None, Some(0), V::zero(), kernel)
        } else {
            self.smo(Some(0), None, V::zero(), kernel)
        };
        proof {
            assert forall|gi: usize| #[trigger] self.has_index(gi) implies gi == i
                || old(self).has_index(gi) by {
                let p = choose|p: int| 0 <= p < self.sv@.len() && self.sv@[p].index == gi;
                assert(seq_has_index(ins, gi));
                let p2 = choose|p2: int| 0 <= p2 < ins.len() && ins[p2].index == gi;
                if p2 > 0 {
                    assert(ins[p2] == osv[p2 - 1]);
                }
            }
            assert forall|gi: usize| #[trigger] old(self).has_index(gi) implies self.has_index(
                gi,
            ) by {
                let q = choose|q: int| 0 <= q < osv.len() && osv[q].index == gi;
                assert(ins[q + 1] == osv[q]);
                assert(self.sv@[q + 1].index == ins[q + 1].index);
            }
            assert(self.sv@.len() == osv.len() + 1);
            let g_spec = s_grad_seed(
                V::s_label(y == 1),
                old(self).sv@,
                x@,
                *kernel,
                old(self).sv@.len() as int,
            );
            assert(g_spec == g);
            assert(inserted_shape(ins, old(self).sv@, i, x@, g_spec, *kernel));
            assert(y == 1 ==> ins[0].cmin == V::s_zero() && ins[0].cmax == old(self).c);
            assert(y == -1 ==> ins[0].cmin == old(self).c.s_neg() && ins[0].cmax == V::s_zero());
            assert(pre_smo.sv@ == ins && pre_smo.recalculate_min_max);
            assert(y == 1 ==> Self::smo_ens(
                pre_smo,
                *self,
                Option::None,
                Option::Some(0usize),
                V::s_zero(),
                *kernel,
                rr,
            ));
            assert(y == -1 ==> Self::smo_ens(
                pre_smo,
                *self,
                Option::Some(0usize),
                Option::None,
                V::s_zero(),
                *kernel,
                rr,
            ));
            assert forall|p: int| #![trigger self.sv@[p]]
                0 <= p < self.sv@.len() implies (self.sv@[p].index == i && self.sv@[p].x@ == x@)
                || exists|q: int|
                0 <= q < osv.len() && self.sv@[p].index == osv[q].index && self.sv@[p].x
                    == osv[q].x by {
                assert(self.sv@[p].index == ins[p].index && self.sv@[p].x == ins[p].x);
                if p > 0 {
                    assert(ins[p] == osv[p - 1]);
                    assert(0 <= p - 1 < osv.len() && self.sv@[p].index == osv[p - 1].index
                        && self.sv@[p].x == osv[p - 1].x);
                }
            }
        }
        true
    }

    /// Law: admission is idempotent. Whatever one `process` call did with a
    /// candidate, a second call with the same global index, features, and
    /// label reports success or failure the same way and leaves the size of
    /// the active set unchanged.
    pub proof fn lemma_admission_idempotent<K: Kernel<V>>(
        pre: Self,
        mid: Self,
        post: Self,
        i: usize,
        x: Seq<V>,
        y: i32,
        k: K,
        r1: bool,
        r2: bool,
    )
        requires
            y == 1 || y == -1,
            Self::process_ens(pre, mid, i, x, y, k, r1),
            Self::process_ens(mid, post, i, x, y, k, r2),
        ensures
            r2 == r1,
            post.sv@.len() == mid.sv@.len(),
    {
        if pre.has_index(i) {
            assert(mid == pre);
            assert(mid.has_index(i));
        } else if r1 {
            // the first call admitted the candidate, so its index is active now
            let g0 = s_grad_seed(V::s_label(y == 1), pre.sv@, x, k, pre.sv@.len() as int);
            let (ins, ms) = choose|ins: Seq<SupportVector<V>>, ms: Self|
                #![trigger inserted_shape(ins, pre.sv@, i, x, g0, k), ms.sv@]
                inserted_shape(ins, pre.sv@, i, x, g0, k) && (y == 1 ==> ins[0].cmin
                    == V::s_zero() && ins[0].cmax == pre.c) && (y == -1 ==> ins[0].cmin
                    == pre.c.s_neg() && ins[0].cmax == V::s_zero()) && ms.sv@ == ins
                    && ms.recalculate_min_max && (y == 1 ==> exists|rr: bool|
                    #[trigger] Self::smo_ens(
                        ms,
                        mid,
                        Option::None,
                        Option::Some(0usize),
                        V::s_zero(),
                        k,
                        rr,
                    )) && (y == -1 ==> exists|rr: bool|
                    #[trigger] Self::smo_ens(
                        ms,
                        mid,
                        Option::Some(0usize),
                        Option::None,
                        V::s_zero(),
                        k,
                        rr,
                    ));
            if y == 1 {
                let rr = choose|rr: bool|
                    #[trigger] Self::smo_ens(
                        ms,
                        mid,
                        Option::None,
                        Option::Some(0usize),
                        V::s_zero(),
                        k,
                        rr,
                    );
                assert(mid.sv@[0].index == ms.sv@[0].index);
            } else {
                let rr = choose|rr: bool|
                    #[trigger] Self::smo_ens(
                        ms,
                        mid,
                        Option::Some(0usize),
                        Option::None,
                        V::s_zero(),
                        k,
                        rr,
                    );
                assert(mid.sv@[0].index == ms.sv@[0].index);
            }
            assert(mid.sv@[0].index == i);
            assert(mid.has_index(i));
        } else {
            // the first call rejected: the set, the starting gradient, and the
            // extremal gradients all read the same the second time around
            assert(!mid.has_index(i)) by {
                if mid.has_index(i) {
                    let p = choose|p: int| 0 <= p < mid.sv@.len() && mid.sv@[p].index == i;
                    assert(pre.sv@[p].index == i);
                    assert(pre.has_index(i));
                }
            }
            let g1 = s_grad_seed(V::s_label(y == 1), pre.sv@, x, k, pre.sv@.len() as int);
            let g2 = s_grad_seed(V::s_label(y == 1), mid.sv@, x, k, mid.sv@.len() as int);
            assert(g2 == g1);
            assert(refreshed_extrema(mid) == refreshed_extrema(pre));
            assert(Self::admission_rejected(mid, g2, y) == Self::admission_rejected(pre, g1, y));
        }
    }

    /// One steady-state sweep: a decomposition step on the globally most
    /// violating pair, then a shrink pass.
    pub fn reprocess<K: Kernel<V>>(&mut self, kernel: &K) -> (r: bool)
        requires
            old(self).wf(),
            old(self).cache_ok(*kernel),
            crate::kernel::symmetric(*kernel),
        ensures
            final(self).wf(),
            final(self).cache_ok(*kernel),
            Self::same_config(*final(self), *old(self)),
            final(self).recalculate_min_max,
            forall|gi: usize| #[trigger] final(self).has_index(gi) ==> old(self).has_index(gi),
            exists|mid: Self|
                #[trigger] Self::smo_ens(
                    *old(self),
                    mid,
                    Option::None,
                    Option::None,
                    old(self).tol,
                    *kernel,
                    r,
                ) && Self::clean_ens(mid, *final(self)),
    {
        let t = self.tol;
        let status = self.smo(None, None, t, kernel);
        let ghost mid = *self;
        self.clean();
        proof {
            lemma_cache_ok_after_clean(
                mid,
                *self,
                *kernel,
                refreshed_extrema(mid).0,
                refreshed_extrema(mid).1,
            );
            lemma_retained(mid.sv@, refreshed_extrema(mid).0, refreshed_extrema(mid).1);
            assert forall|gi: usize| #[trigger] self.has_index(gi) implies old(self).has_index(
                gi,
            ) by {
                let p = choose|p: int| 0 <= p < self.sv@.len() && self.sv@[p].index == gi;
                assert(self.sv@.contains(self.sv@[p]));
                assert(mid.sv@.contains(self.sv@[p]));
                let q = choose|q: int| 0 <= q < mid.sv@.len() && mid.sv@[q] == self.sv@[p];
                assert(mid.has_index(gi));
            }
        }
        status
    }

    /// Converge the retained working set: run decomposition steps on the most
    /// violating pair while progress is reported, bounded by the active-set
    /// size, then shrink once.
    pub fn finish<K: Kernel<V>>(&mut self, kernel: &K)
        requires
            old(self).wf(),
            old(self).cache_ok(*kernel),
            crate::kernel::symmetric(*kernel),
        ensures
            final(self).wf(),
            final(self).cache_ok(*kernel),
            Self::same_config(*final(self), *old(self)),
            final(self).recalculate_min_max,
            forall|gi: usize| #[trigger] final(self).has_index(gi) ==> old(self).has_index(gi),
            exists|mid: Self|
                #[trigger] chain_of(
                    sweep_step(old(self).tol, *kernel),
                    *old(self),
                    mid,
                    (old(self).sv@.len() + 1) as nat,
                ) && Self::clean_ens(mid, *final(self)),
    {
        let ghost stepf = sweep_step::<V, K>(old(self).tol, *kernel);
        let ghost bound = (old(self).sv@.len() + 1) as nat;
        let mut max_iter = self.sv.len();
        let t = self.tol;
        let first = self.smo(None, None, t, kernel);
        proof {
            assert(stepf(*old(self), *self));
            assert(chain_of(stepf, *old(self), *old(self), 0nat));
            lemma_chain_snoc(stepf, *old(self), *old(self), *self, 0nat);
        }
        let ghost steps: nat = 1nat;
        let mut cont = first && max_iter > 0;
        while cont
            invariant
                self.wf(),
                self.cache_ok(*kernel),
                crate::kernel::symmetric(*kernel),
                Self::same_config(*self, *old(self)),
                t == self.tol,
                t == old(self).tol,
                stepf == sweep_step::<V, K>(old(self).tol, *kernel),
                forall|gi: usize| #[trigger] self.has_index(gi) ==> old(self).has_index(gi),
                cont ==> max_iter > 0,
                chain_of(stepf, *old(self), *self, steps),
                steps + max_iter <= bound,
            decreases max_iter,
        {
            max_iter -= 1;
            let ghost before = *self;
            cont = self.smo(None, None, t, kernel) && max_iter > 0;
            proof {
                assert(stepf(before, *self));
                lemma_chain_snoc(stepf, *old(self), before, *self, steps);
                steps = steps + 1;
            }
        }
        proof {
            lemma_chain_mono(stepf, *old(self), *self, steps, bound);
        }
        let ghost mid = *self;
        self.clean();
        proof {
            lemma_cache_ok_after_clean(
                mid,
                *self,
                *kernel,
                refreshed_extrema(mid).0,
                refreshed_extrema(mid).1,
            );
            lemma_retained(mid.sv@, refreshed_extrema(mid).0, refreshed_extrema(mid).1);
            assert forall|gi: usize| #[trigger] self.has_index(gi) implies old(self).has_index(
                gi,
            ) by {
                let p = choose|p: int| 0 <= p < self.sv@.len() && self.sv@[p].index == gi;
                assert(self.sv@.contains(self.sv@[p]));
                assert(mid.sv@.contains(self.sv@[p]));
                let q = choose|q: int| 0 <= q < mid.sv@.len() && mid.sv@[q] == self.sv@[p];
                assert(mid.has_index(gi));
            }
        }
    }

    /// Everything the warm start guarantees: it reaches `post` from `pre` by
    /// admission steps alone; it admits at most five samples per class (and
    /// nothing already admitted), so the set grows by at most ten; on a
    /// nonempty dataset it admits at least one sample into an empty set (the
    /// first candidate is always accepted while no extrema are valid); every
    /// entry either comes from `pre` or carries the full feature row of its
    /// own dataset index; and `pre`'s entries all survive.
    pub open spec fn init_ens<K: Kernel<V>>(
        pre: Self,
        post: Self,
        x: Seq<Vec<V>>,
        y: Seq<i32>,
        k: K,
    ) -> bool {
        &&& post.wf()
        &&& post.cache_ok(k)
        &&& Self::same_config(post, pre)
        &&& (forall|gi: usize| #[trigger] post.has_index(gi) ==> gi < x.len() || pre.has_index(gi))
        &&& (forall|gi: usize| #[trigger] seq_has_index(pre.sv@, gi) ==> post.has_index(gi))
        &&& post.sv@.len() <= pre.sv@.len() + 10
        &&& count_admitted(post.sv@, pre.sv@, y, true) <= 5
        &&& count_admitted(post.sv@, pre.sv@, y, false) <= 5
        &&& (pre.sv@.len() == 0 && x.len() > 0 ==> post.sv@.len() > 0)
        &&& (forall|p: int|
            0 <= p < post.sv@.len() ==> entry_rooted(#[trigger] post.sv@[p], pre.sv@, x))
        &&& run_reachable(x, y, k, pre, post)
    }

    /// Warm-start: visit the samples in a random permutation and admit up to
    /// a small fixed quota of positive and negative samples, stopping early
    /// once both quotas are met.
    pub fn initialize<K: Kernel<V>>(&mut self, x: &Vec<Vec<V>>, y: &Vec<i32>, kernel: &K)
        requires
            old(self).wf(),
            old(self).cache_ok(*kernel),
            crate::kernel::symmetric(*kernel),
            x@.len() == y@.len(),
            forall|j: int| 0 <= j < y@.len() ==> y@[j] == 1 || y@[j] == -1,
        ensures
            Self::init_ens(*old(self), *final(self), x@, y@, *kernel),
    {
        let n = x.len();
        let few: usize = 5;
        let mut cp: usize = 0;
        let mut cn: usize = 0;
        let perm = Self::permutate(n, self.seed);
        proof {
            assert forall|p: int|
                0 <= p < self.sv@.len() implies #[trigger] seq_has_index(
                self.sv@,
                self.sv@[p].index,
            ) by {}
            lemma_count_admitted_zero(self.sv@, old(self).sv@, y@, true);
            lemma_count_admitted_zero(self.sv@, old(self).sv@, y@, false);
            lemma_reach_refl(x@, y@, *kernel, *self);
        }
        let mut t: usize = 0;
        while t < perm.len() && !(cp >= few && cn >= few)
            invariant
                self.wf(),
                self.cache_ok(*kernel),
                crate::kernel::symmetric(*kernel),
                Self::same_config(*self, *old(self)),
                perm@.len() == n,
                n == x@.len(),
                n == y@.len(),
                forall|j: int| 0 <= j < n ==> perm@[j] < n,
                forall|j: int| 0 <= j < y@.len() ==> y@[j] == 1 || y@[j] == -1,
                t <= n,
                few == 5,
                cp <= few,
                cn <= few,
                t == 0 ==> cp == 0 && cn == 0,
                self.sv@.len() <= old(self).sv@.len() + cp + cn,
                forall|gi: usize| #[trigger]
                    self.has_index(gi) ==> gi < n || old(self).has_index(gi),
                forall|gi: usize| #[trigger]
                    seq_has_index(old(self).sv@, gi) ==> self.has_index(gi),
                count_admitted(self.sv@, old(self).sv@, y@, true) <= cp as int,
                count_admitted(self.sv@, old(self).sv@, y@, false) <= cn as int,
                old(self).sv@.len() == 0 && t > 0 ==> self.sv@.len() > 0,
                old(self).sv@.len() == 0 && t == 0 ==> self.sv@.len() == 0,
                forall|p: int|
                    0 <= p < self.sv@.len() ==> entry_rooted(
                        #[trigger] self.sv@[p],
                        old(self).sv@,
                        x@,
                    ),
                run_reachable(x@, y@, *kernel, *old(self), *self),
            decreases perm@.len() - t,
        {
            let idx = perm[t];
            let xi = copy_vec(&x[idx]);
            let yi = y[idx];
            let ghost pre_p = *self;
            let mut admitted = false;
            if yi == 1 && cp < few {
                admitted = self.process(idx, &xi, yi, kernel);
                proof {
                    assert(xi@ == x@[idx as int]@);
                    assert(Self::process_ens(
                        pre_p,
                        *self,
                        idx,
                        x@[idx as int]@,
                        y@[idx as int],
                        *kernel,
                        admitted,
                    ));
                    assert(solver_step(x@, y@, *kernel, pre_p, *self));
                    lemma_reach_step(x@, y@, *kernel, *old(self), pre_p, *self);
                }
                if admitted {
                    cp += 1;
                }
            } else if yi == -1 && cn < few {
                admitted = self.process(idx, &xi, yi, kernel);
                proof {
                    assert(xi@ == x@[idx as int]@);
                    assert(Self::process_ens(
                        pre_p,
                        *self,
                        idx,
                        x@[idx as int]@,
                        y@[idx as int],
                        *kernel,
                        admitted,
                    ));
                    assert(solver_step(x@, y@, *kernel, pre_p, *self));
                    lemma_reach_step(x@, y@, *kernel, *old(self), pre_p, *self);
                }
                if admitted {
                    cn += 1;
                }
            }
            proof {
                Self::lemma_initialize_step(pre_p, *self, old(self).sv@, x@, y@, idx, yi, *kernel, admitted);
                if pre_p.sv@.len() == 0 {
                    assert(old(self).sv@.len() == 0) by {
                        if old(self).sv@.len() > 0 {
                            assert(seq_has_index(old(self).sv@, old(self).sv@[0].index));
                        }
                    }
                    assert(t == 0);
                    V::huge_is_max(refreshed_extrema(pre_p).1);
                    assert(!pre_p.has_index(idx));
                    assert(refreshed_extrema(pre_p).0 == V::s_huge()) by {
                        if !pre_p.recalculate_min_max {
                            assert(pre_p.min_grad == V::s_huge());
                        }
                    }
                    let g0 = s_grad_seed(
                        V::s_label(yi == 1),
                        pre_p.sv@,
                        xi@,
                        *kernel,
                        pre_p.sv@.len() as int,
                    );
                    assert(!Self::admission_rejected(pre_p, g0, yi));
                    assert(admitted);
                    assert(self.sv@.len() > 0);
                }
            }
            t += 1;
        }
    }

    /// One admission during the warm start, seen from the warm start's own
    /// base set: counts move only with a genuinely new admission of the
    /// matching label, every entry stays rooted, and the base set's indices
    /// survive.
    proof fn lemma_initialize_step<K: Kernel<V>>(
        pre: Self,
        post: Self,
        base: Seq<SupportVector<V>>,
        x: Seq<Vec<V>>,
        y: Seq<i32>,
        i: usize,
        yi: i32,
        k: K,
        r: bool,
    )
        requires
            pre == post || Self::process_ens(pre, post, i, x[i as int]@, yi, k, r),
            yi == 1 || yi == -1,
            i < x.len(),
            x.len() == y.len(),
            y[i as int] == yi,
            forall|gi: usize| #[trigger] seq_has_index(base, gi) ==> pre.has_index(gi),
            forall|p: int| 0 <= p < pre.sv@.len() ==> entry_rooted(#[trigger] pre.sv@[p], base, x),
        ensures
            count_admitted(post.sv@, base, y, true) <= count_admitted(pre.sv@, base, y, true) + (
            if r && yi == 1 {
                1int
            } else {
                0int
            }),
            count_admitted(post.sv@, base, y, false) <= count_admitted(pre.sv@, base, y, false) + (
            if r && yi == -1 {
                1int
            } else {
                0int
            }),
            forall|p: int|
                0 <= p < post.sv@.len() ==> entry_rooted(#[trigger] post.sv@[p], base, x),
            forall|gi: usize| #[trigger] seq_has_index(base, gi) ==> post.has_index(gi),
            pre.sv@.len() <= post.sv@.len(),
            !pre.has_index(i) && !r ==> post.sv@ == pre.sv@,
    {
        if pre == post {
        } else if pre.has_index(i) {
            assert(post == pre);
        } else if !r {
            assert(post.sv@ == pre.sv@);
        } else {
            let g0 = s_grad_seed(V::s_label(yi == 1), pre.sv@, x[i as int]@, k, pre.sv@.len() as int);
            let (ins, ms) = choose|ins: Seq<SupportVector<V>>, ms: Self|
                #![trigger inserted_shape(ins, pre.sv@, i, x[i as int]@, g0, k), ms.sv@]
                inserted_shape(ins, pre.sv@, i, x[i as int]@, g0, k) && (yi == 1 ==> ins[0].cmin
                    == V::s_zero() && ins[0].cmax == pre.c) && (yi == -1 ==> ins[0].cmin
                    == pre.c.s_neg() && ins[0].cmax == V::s_zero()) && ms.sv@ == ins
                    && ms.recalculate_min_max && (yi == 1 ==> exists|rr: bool|
                    #[trigger] Self::smo_ens(
                        ms,
                        post,
                        Option::None,
                        Option::Some(0usize),
                        V::s_zero(),
                        k,
                        rr,
                    )) && (yi == -1 ==> exists|rr: bool|
                    #[trigger] Self::smo_ens(
                        ms,
                        post,
                        Option::Some(0usize),
                        Option::None,
                        V::s_zero(),
                        k,
                        rr,
                    ));
            if yi == 1 {
                let rr = choose|rr: bool|
                    #[trigger] Self::smo_ens(
                        ms,
                        post,
                        Option::None,
                        Option::Some(0usize),
                        V::s_zero(),
                        k,
                        rr,
                    );
            } else {
                let rr = choose|rr: bool|
                    #[trigger] Self::smo_ens(
                        ms,
                        post,
                        Option::Some(0usize),
                        Option::None,
                        V::s_zero(),
                        k,
                        rr,
                    );
            }
            // counts: the post set carries ins's indices position by position
            assert(post.sv@.len() == ins.len());
            assert(forall|p: int| 0 <= p < post.sv@.len() ==> post.sv@[p].index == ins[p].index);
            lemma_count_admitted_pointwise(post.sv@, ins, base, y, true);
            lemma_count_admitted_pointwise(post.sv@, ins, base, y, false);
            assert(ins.drop_first() =~= pre.sv@);
            assert(!seq_has_index(base, i)) by {
                if seq_has_index(base, i) {
                    assert(pre.has_index(i));
                }
            }
            assert(count_admitted(ins, base, y, true) == count_admitted(pre.sv@, base, y, true) + (
            if yi == 1 {
                1int
            } else {
                0int
            }));
            assert(count_admitted(ins, base, y, false) == count_admitted(pre.sv@, base, y, false)
                + (if yi == -1 {
                1int
            } else {
                0int
            }));
            // rootedness and base survival through the insertion and the step
            assert forall|p: int|
                0 <= p < post.sv@.len() implies entry_rooted(#[trigger] post.sv@[p], base, x) by {
                assert(post.sv@[p].index == ins[p].index && post.sv@[p].x == ins[p].x);
                if p == 0 {
                    assert(ins[0].index == i && ins[0].x@ == x[i as int]@);
                } else {
                    assert(ins[p] == pre.sv@[p - 1]);
                    assert(entry_rooted(pre.sv@[p - 1], base, x));
                }
            }
            assert forall|gi: usize| #[trigger] seq_has_index(base, gi) implies post.has_index(
                gi,
            ) by {
                let q = choose|q: int| 0 <= q < pre.sv@.len() && pre.sv@[q].index == gi;
                assert(ins[q + 1] == pre.sv@[q]);
                assert(post.sv@[q + 1].index == ins[q + 1].index);
            }
        }
    }
}

impl<V: Scalar, K: Kernel<V>> crate::optimizer::Optimizer<V, K> for SMO<V> {
    /// Training starts from a well-formed solver on equally many samples and
    /// labels, every label one of the two classes, with a symmetric kernel.
    open spec fn optimize_req(self, x: Seq<Vec<V>>, y: Seq<i32>, kernel: K) -> bool {
        &&& self.wf()
        &&& crate::kernel::symmetric(kernel)
        &&& x.len() == y.len()
        &&& (forall|j: int| 0 <= j < y.len() ==> y[j] == 1 || y[j] == -1)
    }

    /// Training returns exactly the surviving active set: one feature vector
    /// and one weight per retained entry, in order, each entry's index drawn
    /// from the dataset, the bias halfway between the extremal gradients, and
    /// a cache still consistent with the kernel.
    open spec fn optimize_ens(
        pre: Self,
        post: Self,
        x: Seq<Vec<V>>,
        y: Seq<i32>,
        kernel: K,
        r: (Vec<Vec<V>>, Vec<V>, V),
    ) -> bool {
        &&& post.wf()
        &&& post.cache_ok(kernel)
        &&& Self::same_config(post, pre)
        &&& r.0@.len() == post.sv@.len()
        &&& r.1@.len() == post.sv@.len()
        &&& (forall|j: int| #![trigger post.sv@[j]]
            0 <= j < post.sv@.len() ==> r.0@[j]@ == post.sv@[j].x@ && r.1@[j]
                == post.sv@[j].alpha && post.sv@[j].index < x.len() && r.0@[j]@
                == x[post.sv@[j].index as int]@)
        &&& r.2 == post.min_grad.s_add(post.max_grad).s_half()
        &&& rows_rooted(post, x)
        &&& (exists|s0: Self, s1: Self| #![trigger s0.sv@, s1.sv@]
            Self::fresh_like(s0, pre) && Self::init_ens(s0, s1, x, y, kernel) && run_reachable(
                x,
                y,
                kernel,
                s1,
                post,
            ))
    }

    /// The top-level driver: fresh cache and active set, warm-start, then for
    /// each epoch process every sample in a fresh random permutation and
    /// sweep until the gradient gap falls below a coarse threshold (bounded
    /// by the active-set size, so per-sample work stays bounded), and finally
    /// converge the retained set.
    fn optimize(&mut self, x: &Vec<Vec<V>>, y: &Vec<i32>, kernel: &K) -> (r: (
        Vec<Vec<V>>,
        Vec<V>,
        V,
    )) {
        let n = x.len();
        self.cache = Cache::new();
        self.sv = Vec::new();
        self.recalculate_min_max = true;
        self.min_sv = 0;
        self.max_sv = 0;
        let ghost s0 = *self;
        proof {
            assert(Self::fresh_like(s0, *old(self)));
            lemma_reach_refl(x@, y@, *kernel, s0);
        }
        self.initialize(x, y, kernel);
        let ghost s1 = *self;
        proof {
            lemma_reach_refl(x@, y@, *kernel, s1);
            assert forall|p: int| #![trigger self.sv@[p]]
                0 <= p < self.sv@.len() implies self.sv@[p].index < x@.len() && self.sv@[p].x@
                == x@[self.sv@[p].index as int]@ by {
                assert(entry_rooted(self.sv@[p], s0.sv@, x@));
            }
            assert(rows_rooted(*self, x@));
        }
        let good = V::coarse();
        let mut e: usize = 0;
        while e < self.epochs
            invariant
                self.wf(),
                self.cache_ok(*kernel),
                crate::kernel::symmetric(*kernel),
                Self::same_config(*self, *old(self)),
                Self::fresh_like(s0, *old(self)),
                Self::init_ens(s0, s1, x@, y@, *kernel),
                run_reachable(x@, y@, *kernel, s1, *self),
                rows_rooted(*self, x@),
                n == x@.len(),
                n == y@.len(),
                forall|j: int| 0 <= j < y@.len() ==> y@[j] == 1 || y@[j] == -1,
                forall|gi: usize| #[trigger] self.has_index(gi) ==> gi < n,
                e <= self.epochs,
            decreases self.epochs - e,
        {
            let perm = Self::permutate(n, self.seed);
            let mut t: usize = 0;
            while t < perm.len()
                invariant
                    self.wf(),
                    self.cache_ok(*kernel),
                    crate::kernel::symmetric(*kernel),
                    Self::same_config(*self, *old(self)),
                    Self::fresh_like(s0, *old(self)),
                    Self::init_ens(s0, s1, x@, y@, *kernel),
                    run_reachable(x@, y@, *kernel, s1, *self),
                    rows_rooted(*self, x@),
                    n == x@.len(),
                    n == y@.len(),
                    perm@.len() == n,
                    forall|j: int| 0 <= j < n ==> perm@[j] < n,
                    forall|j: int| 0 <= j < y@.len() ==> y@[j] == 1 || y@[j] == -1,
                    forall|gi: usize| #[trigger] self.has_index(gi) ==> gi < n,
                    t <= n,
                decreases perm@.len() - t,
            {
                let idx = perm[t];
                let xi = copy_vec(&x[idx]);
                let ghost pre_p = *self;
                let admitted = self.process(idx, &xi, y[idx], kernel);
                proof {
                    assert(xi@ == x@[idx as int]@);
                    assert(Self::process_ens(
                        pre_p,
                        *self,
                        idx,
                        x@[idx as int]@,
                        y@[idx as int],
                        *kernel,
                        admitted,
                    ));
                    assert(solver_step(x@, y@, *kernel, pre_p, *self));
                    lemma_reach_step(x@, y@, *kernel, s1, pre_p, *self);
                    lemma_rooted_step(x@, y@, *kernel, pre_p, *self);
                }
                let mut cap = self.sv.len();
                let mut go = true;
                while go
                    invariant
                        self.wf(),
                        self.cache_ok(*kernel),
                        crate::kernel::symmetric(*kernel),
                        Self::same_config(*self, *old(self)),
                        Self::fresh_like(s0, *old(self)),
                        Self::init_ens(s0, s1, x@, y@, *kernel),
                        run_reachable(x@, y@, *kernel, s1, *self),
                        rows_rooted(*self, x@),
                        n == x@.len(),
                        n == y@.len(),
                        forall|j: int| 0 <= j < y@.len() ==> y@[j] == 1 || y@[j] == -1,
                        forall|gi: usize| #[trigger] self.has_index(gi) ==> gi < n,
                    decreases (if go {
                        cap as int + 1
                    } else {
                        0int
                    }),
                {
                    let ghost top = *self;
                    let rr = self.reprocess(kernel);
                    let ghost mid = *self;
                    self.find_min_max_gradient();
                    proof {
                        assert forall|gi: usize| #[trigger] self.has_index(gi) implies gi < n by {
                            assert(self.sv@ == mid.sv@);
                            assert(mid.has_index(gi));
                            assert(top.has_index(gi));
                        }
                        let sm = choose|sm: Self|
                            #[trigger] Self::smo_ens(
                                top,
                                sm,
                                Option::None,
                                Option::None,
                                top.tol,
                                *kernel,
                                rr,
                            ) && Self::clean_ens(sm, mid);
                        assert(solver_step(x@, y@, *kernel, top, sm));
                        lemma_reach_step(x@, y@, *kernel, s1, top, sm);
                        lemma_rooted_step(x@, y@, *kernel, top, sm);
                        assert(solver_step(x@, y@, *kernel, sm, mid));
                        lemma_reach_step(x@, y@, *kernel, s1, sm, mid);
                        lemma_rooted_step(x@, y@, *kernel, sm, mid);
                        assert(Self::refresh_ens(mid, *self));
                        assert(solver_step(x@, y@, *kernel, mid, *self));
                        lemma_reach_step(x@, y@, *kernel, s1, mid, *self);
                        lemma_rooted_step(x@, y@, *kernel, mid, *self);
                    }
                    let gap = self.max_grad.sub(self.min_grad);
                    if gap.lt(good) {
                        go = false;
                    } else if cap == 0 {
                        go = false;
                    } else {
                        cap -= 1;
                    }
                }
                t += 1;
            }
            e += 1;
        }
        let ghost pre_fin = *self;
        self.finish(kernel);
        proof {
            let fm = choose|fm: Self|
                #[trigger] chain_of(
                    sweep_step(pre_fin.tol, *kernel),
                    pre_fin,
                    fm,
                    (pre_fin.sv@.len() + 1) as nat,
                ) && Self::clean_ens(fm, *self);
            lemma_sweep_chain_to_run(
                x@,
                y@,
                *kernel,
                pre_fin.tol,
                pre_fin,
                fm,
                (pre_fin.sv@.len() + 1) as nat,
            );
            assert(run_reachable(x@, y@, *kernel, pre_fin, fm));
            lemma_reach_trans(x@, y@, *kernel, s1, pre_fin, fm);
            lemma_rooted_chain(
                x@,
                y@,
                *kernel,
                pre_fin,
                fm,
                (pre_fin.sv@.len() + 1) as nat,
            );
            assert(solver_step(x@, y@, *kernel, fm, *self));
            lemma_reach_step(x@, y@, *kernel, s1, fm, *self);
            lemma_rooted_step(x@, y@, *kernel, fm, *self);
        }
        let mut svs: Vec<Vec<V>> = Vec::new();
        let mut w: Vec<V> = Vec::new();
        let mut j: usize = 0;
        while j < self.sv.len()
            invariant
                self.wf(),
                self.cache_ok(*kernel),
                Self::same_config(*self, *old(self)),
                Self::fresh_like(s0, *old(self)),
                Self::init_ens(s0, s1, x@, y@, *kernel),
                run_reachable(x@, y@, *kernel, s1, *self),
                rows_rooted(*self, x@),
                forall|gi: usize| #[trigger] self.has_index(gi) ==> gi < n,
                n == x@.len(),
                j <= self.sv@.len(),
                svs@.len() == j,
                w@.len() == j,
                forall|p: int| #![trigger svs@[p]] 0 <= p < j ==> svs@[p]@ == self.sv@[p].x@,
                forall|p: int| #![trigger w@[p]] 0 <= p < j ==> w@[p] == self.sv@[p].alpha,
            decreases self.sv@.len() - j,
        {
            svs.push(copy_vec(&self.sv[j].x));
            w.push(self.sv[j].alpha);
            j += 1;
        }
        let b = self.min_grad.add(self.max_grad).half();
        proof {
            assert forall|p: int| 0 <= p < self.sv@.len() implies #[trigger] self.sv@[p].index
                < x@.len() by {
                assert(self.has_index(self.sv@[p].index));
            }
        }
        (svs, w, b)
    }
}

} // verus!
