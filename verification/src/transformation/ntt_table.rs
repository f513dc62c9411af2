//! The tables of the transform, and the transform itself.

use crate::field::{canonical, fval, Field, FieldCore};
use crate::reduce::MulReduce;
use crate::transformation::convolution::{
    lemma_convolution, lemma_monomial_identity, monomial, negacyclic,
};
use crate::transformation::evaluation::{evaluation, lemma_ntt_is_evaluation, roots_of};
use crate::transformation::laws::{lemma_monomial_negacyclic, lemma_round_trip, roots_paired};
use crate::transformation::spec::hadamard;
use crate::transformation::spec::{lemma_backward_len, lemma_forward_len};
use crate::modulus::ShoupFactor;
use crate::primitive::{Bits, Widening, Word, WrappingOps};
use crate::transformation::spec::{
    backward,
    ct_entry,
    forward,
    gs_entry,
    intt,
    inv_offset,
    ntt,
    reduced,
};
use crate::utils::gcd::{coprime, divides, lemma_divides_combination};
use crate::utils::reverse::{brv, lemma_brv_bound, lemma_brv_pair, ReverseLsbs};
use vstd::arithmetic::power::pow;
use vstd::arithmetic::power2::{lemma2_to64, lemma_pow2_pos, lemma_pow2_unfold, pow2};
use vstd::prelude::*;
use vstd::slice::SliceAdditionalExecFns;

verus! {

/// The numbers that a sequence of field elements stands for.
pub open spec fn vals<F: FieldCore>(s: Seq<F>) -> Seq<int> {
    Seq::new(s.len(), |j: int| fval(s[j]) as int)
}

/// The factors of a sequence of Shoup factors.
pub open spec fn factors<T: Word>(s: Seq<ShoupFactor<T>>) -> Seq<int> {
    Seq::new(s.len(), |j: int| s[j].spec_value().val() as int)
}

/// Every element is below `bound` times the modulus.
pub open spec fn all_below<F: FieldCore>(s: Seq<F>, bound: nat) -> bool {
    forall|j: int| 0 <= j < s.len() ==> fval(#[trigger] s[j]) < bound * F::spec_modulus()
}

/// `a - 2p` where `a >= 2p`, else `a`: brings `[0, 4p)` into `[0, 2p)`.
fn guard<F: FieldCore>(a: F) -> (r: F)
    requires
        fval(a) < 4 * F::spec_modulus(),
    ensures
        fval(r) < 2 * F::spec_modulus(),
        fval(r) % F::spec_modulus() == fval(a) % F::spec_modulus(),
{
    let twice = F::twice_modulus_inner();
    if a.get().at_least(twice) {
        proof {
            crate::lemmas::lemma_sub_multiple(fval(a) as int, 2, F::spec_modulus() as int);
        }
        F::new(a.get().minus(twice))
    } else {
        a
    }
}

/// `a + b`, not reduced.
fn add_no_reduce<F: FieldCore>(a: F, b: F) -> (r: F)
    requires
        fval(a) + fval(b) < 4 * F::spec_modulus(),
    ensures
        fval(r) == fval(a) + fval(b),
{
    proof {
        F::lemma_modulus();
    }
    F::new(a.get().plus(b.get()))
}

/// `a + b` for `a, b < 2p`, brought below `2p`.
fn add_fast<F: FieldCore>(a: F, b: F) -> (r: F)
    requires
        fval(a) < 2 * F::spec_modulus(),
        fval(b) < 2 * F::spec_modulus(),
    ensures
        fval(r) < 2 * F::spec_modulus(),
        fval(r) % F::spec_modulus() == (fval(a) + fval(b)) % F::spec_modulus(),
{
    proof {
        F::lemma_modulus();
    }
    let r = a.get().plus(b.get());
    let twice = F::twice_modulus_inner();
    if r.at_least(twice) {
        proof {
            crate::lemmas::lemma_sub_multiple(
                (fval(a) + fval(b)) as int,
                2,
                F::spec_modulus() as int,
            );
        }
        F::new(r.minus(twice))
    } else {
        F::new(r)
    }
}

/// `a + 2p - b` for `a, b < 2p`: congruent to `a - b`, positive, and below `4p`.
fn sub_fast<F: FieldCore>(a: F, b: F) -> (r: F)
    requires
        fval(a) < 2 * F::spec_modulus(),
        fval(b) < 2 * F::spec_modulus(),
    ensures
        fval(r) == fval(a) + 2 * F::spec_modulus() - fval(b),
        fval(r) < 4 * F::spec_modulus(),
        fval(r) % F::spec_modulus() == (fval(a) - fval(b)) % (F::spec_modulus() as int),
{
    proof {
        F::lemma_modulus();
        crate::lemmas::lemma_sub_multiple(fval(a) - fval(b), -2, F::spec_modulus() as int);
    }
    F::new(a.get().plus(F::twice_modulus_inner()).minus(b.get()))
}

/// `a · root` up to one extra modulus, for any word `a`.
fn mul_root_fast<F: FieldCore>(a: F, root: ShoupFactor<F::Value>) -> (r: F)
    requires
        root.wf(F::spec_modulus()),
    ensures
        fval(r) < 2 * F::spec_modulus(),
        fval(r) % F::spec_modulus() == (fval(a) * root.spec_value().val()) % F::spec_modulus(),
{
    proof {
        F::lemma_modulus();
        assert(fval(a) * root.spec_value().val() == root.spec_value().val() * fval(a))
            by (nonlinear_arith);
    }
    F::new(root.mul_reduce_lazy(a.get(), F::modulus_value()))
}

/// Brings an element of `[0, 4p)` into `[0, p)`.
fn ntt_normalize<F: FieldCore>(a: F) -> (r: F)
    requires
        fval(a) < 4 * F::spec_modulus(),
    ensures
        fval(r) == fval(a) % F::spec_modulus(),
{
    let g = guard(a);
    proof {
        crate::lemmas::lemma_normalize(
            fval(g) as int,
            fval(a) as int,
            F::spec_modulus() as int,
        );
    }
    let p = F::modulus_value();
    if g.get().at_least(p) {
        F::new(g.get().minus(p))
    } else {
        g
    }
}

/// The butterflies of one group of a forward layer: the pairs `(j, j + gap)`
/// for `start <= j < start + gap`, with the root of the group.
fn forward_group<F: FieldCore>(
    values: &mut [F],
    start: usize,
    gap: usize,
    root: ShoupFactor<F::Value>,
)
    requires
        start + 2 * gap <= old(values)@.len(),
        all_below(old(values)@, 4),
        root.wf(F::spec_modulus()),
    ensures
        final(values)@.len() == old(values)@.len(),
        all_below(final(values)@, 4),
        forall|j: int|
            0 <= j < start || start + 2 * gap <= j < old(values)@.len() ==> final(values)@[j]
                == old(values)@[j],
        forall|j: int|
            start <= j < start + gap ==> fval(#[trigger] final(values)@[j]) % F::spec_modulus()
                == (fval(old(values)@[j]) + root.spec_value().val() * fval(
                old(values)@[j + gap],
            )) % F::spec_modulus(),
        forall|j: int|
            start + gap <= j < start + 2 * gap ==> fval(#[trigger] final(values)@[j])
                % F::spec_modulus() == (fval(old(values)@[j - gap]) - root.spec_value().val()
                * fval(old(values)@[j])) % (F::spec_modulus() as int),
{
    let ghost before = values@;
    let n = values.len();
    let mut t: usize = 0;
    while t < gap
        invariant
            t <= gap,
            n == before.len(),
            start + 2 * gap <= before.len(),
            values@.len() == before.len(),
            all_below(before, 4),
            all_below(values@, 4),
            root.wf(F::spec_modulus()),
            forall|j: int|
                0 <= j < start || start + 2 * gap <= j < before.len() ==> values@[j] == before[j],
            forall|j: int| start + t <= j < start + gap ==> values@[j] == before[j],
            forall|j: int| start + gap + t <= j < start + 2 * gap ==> values@[j] == before[j],
            forall|j: int|
                start <= j < start + t ==> fval(#[trigger] values@[j]) % F::spec_modulus() == (
                fval(before[j]) + root.spec_value().val() * fval(before[j + gap]))
                    % F::spec_modulus(),
            forall|j: int|
                start + gap <= j < start + gap + t ==> fval(#[trigger] values@[j])
                    % F::spec_modulus() == (fval(before[j - gap]) - root.spec_value().val() * fval(
                    before[j],
                )) % (F::spec_modulus() as int),
        decreases gap - t,
    {
        let i = start + t;
        let j = i + gap;
        let ghost p = F::spec_modulus() as int;
        let ghost x = fval(before[i as int]) as int;
        let ghost y = fval(before[j as int]) as int;
        let ghost w = root.spec_value().val() as int;
        assert(values@[i as int] == before[i as int]);
        assert(values@[j as int] == before[j as int]);
        let u = guard(values[i]);
        let v = mul_root_fast(values[j], root);
        let hi = add_no_reduce(u, v);
        let lo = sub_fast(u, v);
        proof {
            // hi ≡ x + w·y and lo ≡ x - w·y
            assert(y * w == w * y) by (nonlinear_arith);
            vstd::arithmetic::div_mod::lemma_add_mod_noop(fval(u) as int, fval(v) as int, p);
            vstd::arithmetic::div_mod::lemma_add_mod_noop(x, w * y, p);
            vstd::arithmetic::div_mod::lemma_sub_mod_noop(fval(u) as int, fval(v) as int, p);
            vstd::arithmetic::div_mod::lemma_sub_mod_noop(x, w * y, p);
        }
        values[i] = hi;
        values[j] = lo;
        t = t + 1;
    }
}

/// Every factor of the sequence is well formed for the modulus of `F`.
pub open spec fn all_factors_wf<F: FieldCore>(s: Seq<ShoupFactor<F::Value>>) -> bool {
    forall|j: int| 0 <= j < s.len() ==> (#[trigger] s[j]).wf(F::spec_modulus())
}

/// The place `j` lies in the group `k` of length `2·gap` that begins at `start`.
pub proof fn lemma_group_index(j: int, k: int, gap: int, start: int)
    requires
        gap > 0,
        k >= 0,
        start == k * (2 * gap),
        start <= j < start + 2 * gap,
    ensures
        j / (2 * gap) == k,
        j % (2 * gap) == j - start,
{
    crate::lemmas::lemma_mod_unique(j, j - start, k, 2 * gap);
}

/// An entry of a forward layer depends on the entries only modulo `p`.
pub proof fn lemma_ct_entry_congruent(
    s: Seq<int>,
    s2: Seq<int>,
    m: int,
    gap: int,
    roots: Seq<int>,
    p: int,
    j: int,
)
    requires
        p > 0,
        gap > 0,
        s.len() == s2.len(),
        0 <= j < s.len(),
        (s.len() as int) % (2 * gap) == 0,
        forall|i: int| 0 <= i < s.len() ==> #[trigger] s[i] % p == s2[i] % p,
    ensures
        ct_entry(s, m, gap, roots, p, j) == ct_entry(s2, m, gap, roots, p, j),
{
    let k = j / (2 * gap);
    let t = j % (2 * gap);
    let r = roots[m + k];
    vstd::arithmetic::div_mod::lemma_fundamental_div_mod(j, 2 * gap);
    vstd::arithmetic::div_mod::lemma_mod_bound(j, 2 * gap);
    let groups = (s.len() as int) / (2 * gap);
    vstd::arithmetic::div_mod::lemma_fundamental_div_mod(s.len() as int, 2 * gap);
    assert(k < groups) by (nonlinear_arith)
        requires
            j == (2 * gap) * k + t,
            t >= 0,
            s.len() == (2 * gap) * groups,
            j < s.len(),
            gap > 0,
    ;
    assert((2 * gap) * k + 2 * gap <= s.len()) by (nonlinear_arith)
        requires
            k + 1 <= groups,
            s.len() == (2 * gap) * groups,
            gap > 0,
    ;
    if t < gap {
        assert(s[j] % p == s2[j] % p);
        assert(s[j + gap] % p == s2[j + gap] % p);
        crate::lemmas::lemma_congruence_mul_add(s[j + gap], s2[j + gap], r, s[j], p);
        vstd::arithmetic::div_mod::lemma_add_mod_noop(s[j], r * s2[j + gap], p);
        vstd::arithmetic::div_mod::lemma_add_mod_noop(s2[j], r * s2[j + gap], p);
    } else {
        assert(s[j] % p == s2[j] % p);
        assert(s[j - gap] % p == s2[j - gap] % p);
        crate::lemmas::lemma_congruence_mul_add(s[j], s2[j], r, 0, p);
        vstd::arithmetic::div_mod::lemma_sub_mod_noop(s[j - gap], r * s[j], p);
        vstd::arithmetic::div_mod::lemma_sub_mod_noop(s2[j - gap], r * s2[j], p);
    }
}

/// One forward layer in place: `m` groups of length `2·gap`, the group `k`
/// with the root `roots[m + k]`.
fn forward_layer<F: FieldCore>(
    values: &mut [F],
    m: usize,
    gap: usize,
    roots: &Vec<ShoupFactor<F::Value>>,
)
    requires
        gap > 0,
        m * (2 * gap) == old(values)@.len(),
        2 * m <= roots@.len(),
        all_factors_wf::<F>(roots@),
        all_below(old(values)@, 4),
    ensures
        final(values)@.len() == old(values)@.len(),
        all_below(final(values)@, 4),
        forall|j: int|
            0 <= j < old(values)@.len() ==> fval(#[trigger] final(values)@[j]) % F::spec_modulus()
                == ct_entry(
                vals(old(values)@),
                m as int,
                gap as int,
                factors(roots@),
                F::spec_modulus() as int,
                j,
            ),
{
    let ghost before = values@;
    let n = values.len();
    let count = roots.len();
    let mut k: usize = 0;
    let mut start: usize = 0;
    proof {
        assert(0 * (2 * gap) == 0);
    }
    while k < m
        invariant
            k <= m,
            gap > 0,
            n == before.len(),
            values@.len() == before.len(),
            m * (2 * gap) == before.len(),
            start == k * (2 * gap),
            count == roots@.len(),
            2 * m <= roots@.len(),
            all_factors_wf::<F>(roots@),
            all_below(values@, 4),
            forall|j: int| start <= j < before.len() ==> values@[j] == before[j],
            forall|j: int|
                0 <= j < start ==> fval(#[trigger] values@[j]) % F::spec_modulus() == ct_entry(
                    vals(before),
                    m as int,
                    gap as int,
                    factors(roots@),
                    F::spec_modulus() as int,
                    j,
                ),
        decreases m - k,
    {
        proof {
            assert((k + 1) * (2 * gap) == k * (2 * gap) + 2 * gap) by (nonlinear_arith);
            assert((k + 1) * (2 * gap) <= m * (2 * gap)) by (nonlinear_arith)
                requires
                    k + 1 <= m,
                    gap > 0,
            ;
        }
        let root = roots[m + k];
        let ghost mid = values@;
        forward_group(values, start, gap, root);
        proof {
            let p = F::spec_modulus() as int;
            let w = root.spec_value().val() as int;
            assert(factors(roots@)[m + k] == w);
            assert forall|j: int| 0 <= j < start + 2 * gap implies fval(#[trigger] values@[j])
                % F::spec_modulus() == ct_entry(
                vals(before),
                m as int,
                gap as int,
                factors(roots@),
                p,
                j,
            ) by {
                if j >= start {
                    lemma_group_index(j, k as int, gap as int, start as int);
                    if j < start + gap {
                        assert(mid[j] == before[j]);
                        assert(mid[j + gap] == before[j + gap]);
                    } else {
                        assert(mid[j] == before[j]);
                        assert(mid[j - gap] == before[j - gap]);
                    }
                } else {
                    assert(values@[j] == mid[j]);
                }
            }
        }
        start = start + 2 * gap;
        k = k + 1;
    }
}

/// The butterflies of one group of an inverse layer: the pairs `(j, j + gap)`
/// for `start <= j < start + gap`, with the root of the group.
fn inverse_group<F: FieldCore>(
    values: &mut [F],
    start: usize,
    gap: usize,
    root: ShoupFactor<F::Value>,
)
    requires
        start + 2 * gap <= old(values)@.len(),
        all_below(old(values)@, 2),
        root.wf(F::spec_modulus()),
    ensures
        final(values)@.len() == old(values)@.len(),
        all_below(final(values)@, 2),
        forall|j: int|
            0 <= j < start || start + 2 * gap <= j < old(values)@.len() ==> final(values)@[j]
                == old(values)@[j],
        forall|j: int|
            start <= j < start + gap ==> fval(#[trigger] final(values)@[j]) % F::spec_modulus()
                == (fval(old(values)@[j]) + fval(old(values)@[j + gap])) % F::spec_modulus(),
        forall|j: int|
            start + gap <= j < start + 2 * gap ==> fval(#[trigger] final(values)@[j])
                % F::spec_modulus() == ((fval(old(values)@[j - gap]) - fval(old(values)@[j]))
                * root.spec_value().val()) % (F::spec_modulus() as int),
{
    let ghost before = values@;
    let n = values.len();
    let mut t: usize = 0;
    while t < gap
        invariant
            t <= gap,
            n == before.len(),
            start + 2 * gap <= before.len(),
            values@.len() == before.len(),
            all_below(before, 2),
            all_below(values@, 2),
            root.wf(F::spec_modulus()),
            forall|j: int|
                0 <= j < start || start + 2 * gap <= j < before.len() ==> values@[j] == before[j],
            forall|j: int| start + t <= j < start + gap ==> values@[j] == before[j],
            forall|j: int| start + gap + t <= j < start + 2 * gap ==> values@[j] == before[j],
            forall|j: int|
                start <= j < start + t ==> fval(#[trigger] values@[j]) % F::spec_modulus() == (
                fval(before[j]) + fval(before[j + gap])) % F::spec_modulus(),
            forall|j: int|
                start + gap <= j < start + gap + t ==> fval(#[trigger] values@[j])
                    % F::spec_modulus() == ((fval(before[j - gap]) - fval(before[j]))
                    * root.spec_value().val()) % (F::spec_modulus() as int),
        decreases gap - t,
    {
        let i = start + t;
        let j = i + gap;
        let ghost p = F::spec_modulus() as int;
        let ghost w = root.spec_value().val() as int;
        assert(values@[i as int] == before[i as int]);
        assert(values@[j as int] == before[j as int]);
        let u = values[i];
        let v = values[j];
        let hi = add_fast(u, v);
        let d = sub_fast(u, v);
        let lo = mul_root_fast(d, root);
        proof {
            crate::lemmas::lemma_congruence_mul(fval(d) as int, fval(u) - fval(v), w, w, p);
        }
        values[i] = hi;
        values[j] = lo;
        t = t + 1;
    }
}

/// An entry of an inverse layer depends on the entries only modulo `p`.
pub proof fn lemma_gs_entry_congruent(
    s: Seq<int>,
    s2: Seq<int>,
    offset: int,
    gap: int,
    roots: Seq<int>,
    p: int,
    j: int,
)
    requires
        p > 0,
        gap > 0,
        s.len() == s2.len(),
        0 <= j < s.len(),
        (s.len() as int) % (2 * gap) == 0,
        forall|i: int| 0 <= i < s.len() ==> #[trigger] s[i] % p == s2[i] % p,
    ensures
        gs_entry(s, offset, gap, roots, p, j) == gs_entry(s2, offset, gap, roots, p, j),
{
    let k = j / (2 * gap);
    let t = j % (2 * gap);
    let r = roots[offset + k];
    vstd::arithmetic::div_mod::lemma_fundamental_div_mod(j, 2 * gap);
    vstd::arithmetic::div_mod::lemma_mod_bound(j, 2 * gap);
    let groups = (s.len() as int) / (2 * gap);
    vstd::arithmetic::div_mod::lemma_fundamental_div_mod(s.len() as int, 2 * gap);
    assert(k < groups) by (nonlinear_arith)
        requires
            j == (2 * gap) * k + t,
            t >= 0,
            s.len() == (2 * gap) * groups,
            j < s.len(),
            gap > 0,
    ;
    assert((2 * gap) * k + 2 * gap <= s.len()) by (nonlinear_arith)
        requires
            k + 1 <= groups,
            s.len() == (2 * gap) * groups,
            gap > 0,
    ;
    if t < gap {
        assert(s[j] % p == s2[j] % p);
        assert(s[j + gap] % p == s2[j + gap] % p);
        vstd::arithmetic::div_mod::lemma_add_mod_noop(s[j], s[j + gap], p);
        vstd::arithmetic::div_mod::lemma_add_mod_noop(s2[j], s2[j + gap], p);
    } else {
        assert(s[j] % p == s2[j] % p);
        assert(s[j - gap] % p == s2[j - gap] % p);
        vstd::arithmetic::div_mod::lemma_sub_mod_noop(s[j - gap], s[j], p);
        vstd::arithmetic::div_mod::lemma_sub_mod_noop(s2[j - gap], s2[j], p);
        crate::lemmas::lemma_congruence_mul(s[j - gap] - s[j], s2[j - gap] - s2[j], r, r, p);
    }
}

/// One inverse layer in place: `m` groups of length `2·gap`, the group `k`
/// with the root `roots[offset + k]`.
fn inverse_layer<F: FieldCore>(
    values: &mut [F],
    m: usize,
    gap: usize,
    offset: usize,
    roots: &Vec<ShoupFactor<F::Value>>,
)
    requires
        gap > 0,
        m * (2 * gap) == old(values)@.len(),
        offset + m <= roots@.len(),
        all_factors_wf::<F>(roots@),
        all_below(old(values)@, 2),
    ensures
        final(values)@.len() == old(values)@.len(),
        all_below(final(values)@, 2),
        forall|j: int|
            0 <= j < old(values)@.len() ==> fval(#[trigger] final(values)@[j]) % F::spec_modulus()
                == gs_entry(
                vals(old(values)@),
                offset as int,
                gap as int,
                factors(roots@),
                F::spec_modulus() as int,
                j,
            ),
{
    let ghost before = values@;
    let n = values.len();
    let count = roots.len();
    let mut k: usize = 0;
    let mut start: usize = 0;
    proof {
        assert(0 * (2 * gap) == 0);
    }
    while k < m
        invariant
            k <= m,
            gap > 0,
            n == before.len(),
            values@.len() == before.len(),
            m * (2 * gap) == before.len(),
            start == k * (2 * gap),
            count == roots@.len(),
            offset + m <= roots@.len(),
            all_factors_wf::<F>(roots@),
            all_below(values@, 2),
            forall|j: int| start <= j < before.len() ==> values@[j] == before[j],
            forall|j: int|
                0 <= j < start ==> fval(#[trigger] values@[j]) % F::spec_modulus() == gs_entry(
                    vals(before),
                    offset as int,
                    gap as int,
                    factors(roots@),
                    F::spec_modulus() as int,
                    j,
                ),
        decreases m - k,
    {
        proof {
            assert((k + 1) * (2 * gap) == k * (2 * gap) + 2 * gap) by (nonlinear_arith);
            assert((k + 1) * (2 * gap) <= m * (2 * gap)) by (nonlinear_arith)
                requires
                    k + 1 <= m,
                    gap > 0,
            ;
        }
        let root = roots[offset + k];
        let ghost mid = values@;
        inverse_group(values, start, gap, root);
        proof {
            let p = F::spec_modulus() as int;
            let w = root.spec_value().val() as int;
            assert(factors(roots@)[offset + k] == w);
            assert forall|j: int| 0 <= j < start + 2 * gap implies fval(#[trigger] values@[j])
                % F::spec_modulus() == gs_entry(
                vals(before),
                offset as int,
                gap as int,
                factors(roots@),
                p,
                j,
            ) by {
                if j >= start {
                    lemma_group_index(j, k as int, gap as int, start as int);
                    if j < start + gap {
                        assert(mid[j] == before[j]);
                        assert(mid[j + gap] == before[j + gap]);
                    } else {
                        assert(mid[j] == before[j]);
                        assert(mid[j - gap] == before[j - gap]);
                    }
                } else {
                    assert(values@[j] == mid[j]);
                }
            }
        }
        start = start + 2 * gap;
        k = k + 1;
    }
}

/// The last inverse layer, one group over the whole sequence, with the
/// division by the length folded in: the upper half is multiplied by
/// `scalar`, the lower half by `scaled_root`, the product of the root and `scalar`.
fn inverse_last_layer<F: FieldCore>(
    values: &mut [F],
    gap: usize,
    scalar: ShoupFactor<F::Value>,
    scaled_root: ShoupFactor<F::Value>,
    Ghost(root): Ghost<int>,
)
    requires
        gap > 0,
        2 * gap == old(values)@.len(),
        all_below(old(values)@, 2),
        scalar.wf(F::spec_modulus()),
        scaled_root.wf(F::spec_modulus()),
        scaled_root.spec_value().val() == (root * scalar.spec_value().val()) % (
        F::spec_modulus() as int),
    ensures
        final(values)@.len() == old(values)@.len(),
        all_below(final(values)@, 2),
        forall|j: int|
            0 <= j < gap ==> fval(#[trigger] final(values)@[j]) % F::spec_modulus() == (
            scalar.spec_value().val() * ((fval(old(values)@[j]) + fval(old(values)@[j + gap]))
                % F::spec_modulus())) % F::spec_modulus(),
        forall|j: int|
            gap <= j < 2 * gap ==> fval(#[trigger] final(values)@[j]) % F::spec_modulus() == (
            scalar.spec_value().val() * (((fval(old(values)@[j - gap]) - fval(old(values)@[j]))
                * root) % (F::spec_modulus() as int))) % (F::spec_modulus() as int),
{
    let ghost before = values@;
    let n = values.len();
    let mut t: usize = 0;
    while t < gap
        invariant
            t <= gap,
            n == before.len(),
            2 * gap == before.len(),
            values@.len() == before.len(),
            all_below(before, 2),
            all_below(values@, 2),
            scalar.wf(F::spec_modulus()),
            scaled_root.wf(F::spec_modulus()),
            scaled_root.spec_value().val() == (root * scalar.spec_value().val()) % (
            F::spec_modulus() as int),
            forall|j: int| t <= j < gap ==> values@[j] == before[j],
            forall|j: int| gap + t <= j < 2 * gap ==> values@[j] == before[j],
            forall|j: int|
                0 <= j < t ==> fval(#[trigger] values@[j]) % F::spec_modulus() == (
                scalar.spec_value().val() * ((fval(before[j]) + fval(before[j + gap]))
                    % F::spec_modulus())) % F::spec_modulus(),
            forall|j: int|
                gap <= j < gap + t ==> fval(#[trigger] values@[j]) % F::spec_modulus() == (
                scalar.spec_value().val() * (((fval(before[j - gap]) - fval(before[j])) * root) % (
                F::spec_modulus() as int))) % (F::spec_modulus() as int),
        decreases gap - t,
    {
        let i = t;
        let j = t + gap;
        let ghost p = F::spec_modulus() as int;
        let ghost c = scalar.spec_value().val() as int;
        assert(values@[i as int] == before[i as int]);
        assert(values@[j as int] == before[j as int]);
        let u = values[i];
        let v = values[j];
        let sum = add_no_reduce(u, v);
        let hi = mul_root_fast(sum, scalar);
        let d = sub_fast(u, v);
        let lo = mul_root_fast(d, scaled_root);
        proof {
            let x = fval(u) as int;
            let y = fval(v) as int;
            // hi ≡ (x + y)·c ≡ c·((x + y) mod p)
            vstd::arithmetic::div_mod::lemma_mod_twice(x + y, p);
            crate::lemmas::lemma_congruence_mul(x + y, (x + y) % p, c, c, p);
            assert((x + y) * c == c * (x + y)) by (nonlinear_arith);
            assert(((x + y) % p) * c == c * ((x + y) % p)) by (nonlinear_arith);
            // lo ≡ (x - y)·(root·c) ≡ c·(((x - y)·root) mod p)
            vstd::arithmetic::div_mod::lemma_mod_twice(root * c, p);
            crate::lemmas::lemma_congruence_mul(
                fval(d) as int,
                x - y,
                scaled_root.spec_value().val() as int,
                root * c,
                p,
            );
            assert((x - y) * (root * c) == c * ((x - y) * root)) by (nonlinear_arith);
            vstd::arithmetic::div_mod::lemma_mod_twice((x - y) * root, p);
            crate::lemmas::lemma_congruence_mul(c, c, (x - y) * root, ((x - y) * root) % p, p);
        }
        values[i] = hi;
        values[j] = lo;
        t = t + 1;
    }
}

/// The factors are the powers of `omega` in natural order.
pub open spec fn ordinal_powers_of<F: FieldCore>(s: Seq<ShoupFactor<F::Value>>, omega: int) -> bool {
    forall|i: int|
        0 <= i < s.len() ==> (#[trigger] s[i]).spec_value().val() == pow(omega, i as nat) % (
        F::spec_modulus() as int)
}

/// `2^log_n` as a `usize`.
pub fn pow2_usize(log_n: u32) -> (n: usize)
    requires
        log_n <= 31,
    ensures
        n == pow2(log_n as nat),
        n <= 0x8000_0000,
{
    let mut n: usize = 1;
    let mut i: u32 = 0;
    proof {
        lemma2_to64();
    }
    while i < log_n
        invariant
            i <= log_n <= 31,
            n == pow2(i as nat),
            n <= 0x8000_0000,
        decreases log_n - i,
    {
        proof {
            lemma_pow2_unfold((i + 1) as nat);
            vstd::arithmetic::power2::lemma2_to64();
            if i + 1 < 31 {
                vstd::arithmetic::power2::lemma_pow2_strictly_increases((i + 1) as nat, 31);
            }
        }
        n = 2 * n;
        i = i + 1;
    }
    n
}

/// `2^k <= 2^30` for `k <= 30`.
pub proof fn lemma_pow2_at_most_30(k: nat)
    requires
        k <= 30,
    ensures
        pow2(k) <= 0x4000_0000,
{
    lemma2_to64();
    if k < 30 {
        vstd::arithmetic::power2::lemma_pow2_strictly_increases(k, 30);
    }
}

/// A modulus that is `1` modulo `2n` is coprime to `n`.
pub proof fn lemma_coprime_to_length(n: int, p: int)
    requires
        n > 0,
        p > 1,
        (p - 1) % (2 * n) == 0,
    ensures
        coprime(n, p),
{
    vstd::arithmetic::div_mod::lemma_fundamental_div_mod(p - 1, 2 * n);
    let c = (p - 1) / (2 * n);
    vstd::arithmetic::div_mod::lemma_small_mod(0, 1);
    assert(n % 1 == 0 && p % 1 == 0);
    assert forall|e: int| divides(e, n) && divides(e, p) implies #[trigger] divides(e, 1) by {
        lemma_divides_combination(e, n, p, -2 * c, 1);
        assert((-2 * c) * n + 1 * p == 1) by (nonlinear_arith)
            requires
                p - 1 == (2 * n) * c,
        ;
    }
}

/// The negative of a residue: `-(a mod p) = (p - 1)·a (mod p)`.
pub proof fn lemma_neg_is_times_minus_one(a: int, p: int)
    requires
        p > 0,
    ensures
        (-(a % p)) % p == ((p - 1) * a) % p,
{
    vstd::arithmetic::div_mod::lemma_fundamental_div_mod(a, p);
    let q = a / p;
    assert((p - 1) * a == -(a % p) + (a - q) * p) by (nonlinear_arith)
        requires
            a == p * q + a % p,
    ;
    vstd::arithmetic::div_mod::lemma_mod_multiples_vanish(a - q, -(a % p), p);
    assert(p * (a - q) + (-(a % p)) == (p - 1) * a) by (nonlinear_arith)
        requires
            (p - 1) * a == -(a % p) + (a - q) * p,
    ;
}

/// The tables of the transform of length `N = 2^log_n` over the field `F`.
///
/// The orders of the three tables, for `N = 8`:
///
/// ```text
/// natural order:       0  1  2  3  4  5  6  7
/// bit-reversed order:  0  4  2  6  1  5  3  7
/// scrambled order:     0  1  5  3  7  2  6  4
/// ```
pub struct NTTTable<F: FieldCore> {
    /// A primitive `2N`-th root of unity `ω`.
    root: F,
    /// `ω^(-1)`.
    inv_root: F,
    /// `log_n`.
    coeff_count_power: u32,
    /// `N`.
    coeff_count: usize,
    /// `N^(-1)`.
    inv_degree: ShoupFactor<F::Value>,
    /// The powers `ω^i` for `i < N`, in bit-reversed order.
    root_powers: Vec<ShoupFactor<F::Value>>,
    /// The powers `ω^(-i)`, in the order in which the inverse transform takes them.
    inv_root_powers: Vec<ShoupFactor<F::Value>>,
    /// The powers `ω^i` for `i < 2N`, in natural order.
    ordinal_root_powers: Vec<ShoupFactor<F::Value>>,
    /// The reversal of `log_n` bits, for every index below `N`.
    reverse_lsbs: Vec<usize>,
}

/// The entry `i` of the transform of the monomial `c·X^d`:
/// `c·ω^((2·rev(i) + 1)·d mod 2N)`, reduced modulo `p`.
pub open spec fn monomial_entry(c: int, omega: int, d: nat, log_n: nat, p: int, i: nat) -> int {
    (c * pow(omega, (((2 * brv(i, log_n) + 1) * d) % (2 * pow2(log_n))) as nat)) % p
}

/// The place in the root table of the forward root that an inverse root at
/// `offset + k` undoes: the inverse layer with gap `2^stage` has
/// `2^(log_n - 1 - stage)` groups, and so has the forward layer it undoes.
pub open spec fn paired_root(log_n: nat, stage: nat, k: int) -> int {
    pow2((log_n - 1 - stage) as nat) + k
}

impl<F: FieldCore> NTTTable<F> {
    /// `log_n`.
    pub closed spec fn spec_log_n(self) -> u32 {
        self.coeff_count_power
    }

    /// `N`.
    pub closed spec fn spec_coeff_count(self) -> usize {
        self.coeff_count
    }

    /// The root `ω`.
    pub closed spec fn spec_root(self) -> F {
        self.root
    }

    /// The inverse of the root.
    pub closed spec fn spec_inv_root(self) -> F {
        self.inv_root
    }

    /// `N^(-1)`.
    pub closed spec fn spec_inv_degree(self) -> ShoupFactor<F::Value> {
        self.inv_degree
    }

    /// The table of the forward roots.
    pub closed spec fn spec_root_powers(self) -> Seq<ShoupFactor<F::Value>> {
        self.root_powers@
    }

    /// The table of the inverse roots.
    pub closed spec fn spec_inv_root_powers(self) -> Seq<ShoupFactor<F::Value>> {
        self.inv_root_powers@
    }

    /// The table of the powers of the root in natural order.
    pub closed spec fn spec_ordinal_root_powers(self) -> Seq<ShoupFactor<F::Value>> {
        self.ordinal_root_powers@
    }

    /// The table of the bit reversals.
    pub closed spec fn spec_reverse_lsbs(self) -> Seq<usize> {
        self.reverse_lsbs@
    }

    /// The length `N` as a number.
    pub open spec fn n(self) -> nat {
        pow2(self.spec_log_n() as nat)
    }

    /// The root `ω` as a number.
    pub open spec fn omega(self) -> int {
        fval(self.spec_root()) as int
    }

    /// The shape of the tables: their lengths, and that every factor is well formed.
    pub open spec fn wf_shape(self) -> bool {
        &&& 1 <= self.spec_log_n() <= 30
        &&& self.spec_coeff_count() == self.n()
        &&& self.spec_root_powers().len() == self.n()
        &&& self.spec_inv_root_powers().len() == self.n()
        &&& self.spec_ordinal_root_powers().len() == 2 * self.n()
        &&& self.spec_reverse_lsbs().len() == self.n()
        &&& all_factors_wf::<F>(self.spec_root_powers())
        &&& all_factors_wf::<F>(self.spec_inv_root_powers())
        &&& all_factors_wf::<F>(self.spec_ordinal_root_powers())
        &&& self.spec_inv_degree().wf(F::spec_modulus())
        &&& canonical(self.spec_root())
        &&& canonical(self.spec_inv_root())
    }

    /// What the tables hold: `p = 1 (mod 2N)`, `ω^N = -1`, `ω·ω^(-1) = 1`,
    /// `N·N^(-1) = 1`, the powers of `ω` in natural and in bit-reversed
    /// order, the bit reversals, one as the first root of the inverse
    /// transform, and for every other root of the inverse transform the
    /// inverse of the forward root that it undoes.
    pub open spec fn wf_roots(self) -> bool {
        let p = F::spec_modulus() as int;
        &&& (p - 1) % ((2 * self.n()) as int) == 0
        &&& pow(self.omega(), self.n()) % p == p - 1
        &&& (self.omega() * fval(self.spec_inv_root())) % p == 1
        &&& ((self.n() * self.spec_inv_degree().spec_value().val()) as int) % p == 1
        &&& forall|i: int|
            0 <= i < 2 * self.n() ==> (#[trigger] self.spec_ordinal_root_powers()[i]).spec_value().val()
                == pow(self.omega(), i as nat) % p
        &&& forall|j: int|
            0 <= j < self.n() ==> #[trigger] self.spec_reverse_lsbs()[j] == brv(
                j as nat,
                self.spec_log_n() as nat,
            )
        &&& forall|j: int|
            0 <= j < self.n() ==> (#[trigger] self.spec_root_powers()[j]).spec_value().val() == pow(
                self.omega(),
                brv(j as nat, self.spec_log_n() as nat),
            ) % p
        &&& self.spec_inv_root_powers()[0].spec_value().val() == 1
        &&& forall|stage: nat, k: int|
            stage < self.spec_log_n() && 0 <= k < pow2((self.spec_log_n() - 1 - stage) as nat) ==> (
            factors(self.spec_root_powers())[#[trigger] paired_root(
                self.spec_log_n() as nat,
                stage,
                k,
            )] * factors(self.spec_inv_root_powers())[inv_offset(self.spec_log_n() as nat, stage)
                + k]) % p == 1
    }

    /// The tables are well formed.
    pub open spec fn wf(self) -> bool {
        self.wf_shape() && self.wf_roots()
    }

    /// Returns the root `ω`.
    pub fn root(&self) -> (root: F)
        ensures
            root == self.spec_root(),
    {
        self.root
    }

    /// Returns the inverse of the root.
    pub fn inv_root(&self) -> (inv_root: F)
        ensures
            inv_root == self.spec_inv_root(),
    {
        self.inv_root
    }

    /// Returns `log_n`.
    pub fn coeff_count_power(&self) -> (log_n: u32)
        ensures
            log_n == self.spec_log_n(),
    {
        self.coeff_count_power
    }

    /// Returns the length `N`.
    pub fn coeff_count(&self) -> (n: usize)
        ensures
            n == self.spec_coeff_count(),
    {
        self.coeff_count
    }

    /// Returns `N^(-1)`.
    pub fn inv_degree(&self) -> (inv_degree: ShoupFactor<F::Value>)
        ensures
            inv_degree == self.spec_inv_degree(),
    {
        self.inv_degree
    }

    /// Returns the table of the forward roots.
    pub fn root_powers(&self) -> (roots: &Vec<ShoupFactor<F::Value>>)
        ensures
            roots@ == self.spec_root_powers(),
    {
        &self.root_powers
    }

    /// Returns the table of the inverse roots.
    pub fn inv_root_powers(&self) -> (roots: &Vec<ShoupFactor<F::Value>>)
        ensures
            roots@ == self.spec_inv_root_powers(),
    {
        &self.inv_root_powers
    }

    /// Returns the table of the powers of the root in natural order.
    pub fn ordinal_root_powers(&self) -> (roots: &Vec<ShoupFactor<F::Value>>)
        ensures
            roots@ == self.spec_ordinal_root_powers(),
    {
        &self.ordinal_root_powers
    }

    /// The forward transform in place: takes coefficients in `[0, 4p)` to
    /// the transform, reduced to `[0, p)`.
    pub fn transform_slice(&self, values: &mut [F])
        requires
            self.wf_shape(),
            old(values)@.len() == self.n(),
            all_below(old(values)@, 4),
        ensures
            final(values)@.len() == old(values)@.len(),
            all_below(final(values)@, 1),
            vals(final(values)@) == ntt(
                vals(old(values)@),
                self.spec_log_n() as nat,
                factors(self.spec_root_powers()),
                F::spec_modulus() as int,
            ),
    {
        let log_n = self.coeff_count_power;
        let n = self.coeff_count;
        let ghost before = vals(values@);
        let ghost roots = factors(self.root_powers@);
        let ghost p = F::spec_modulus() as int;
        let mut stage: u32 = 0;
        let mut m: usize = 1;
        let mut group: usize = n;
        proof {
            lemma2_to64();
            F::lemma_modulus();
            assert forall|j: int| 0 <= j < values@.len() implies fval(#[trigger] values@[j]) % (
            p as nat) == forward(before, log_n as nat, 0, roots, p)[j] by {}
        }
        while stage < log_n
            invariant
                self.wf_shape(),
                log_n == self.spec_log_n(),
                n == self.n(),
                roots == factors(self.root_powers@),
                p == F::spec_modulus(),
                stage <= log_n,
                m == pow2(stage as nat),
                group == pow2((log_n - stage) as nat),
                m * group == n,
                values@.len() == n,
                before.len() == n,
                all_below(values@, 4),
                forall|j: int|
                    0 <= j < n ==> fval(#[trigger] values@[j]) % (p as nat) == forward(
                        before,
                        log_n as nat,
                        stage as nat,
                        roots,
                        p,
                    )[j],
            decreases log_n - stage,
        {
            let gap = group / 2;
            let ghost cur = vals(values@);
            let ghost prev = forward(before, log_n as nat, stage as nat, roots, p);
            proof {
                lemma_pow2_unfold((log_n - stage) as nat);
                lemma_pow2_unfold((stage + 1) as nat);
                lemma_pow2_pos((log_n - stage - 1) as nat);
                lemma_pow2_pos(stage as nat);
                lemma_forward_len(before, log_n as nat, stage as nat, roots, p);
                assert(m * (2 * gap) == n);
                assert((2 * m) * gap == m * (2 * gap)) by (nonlinear_arith);
                assert(2 * m <= n) by (nonlinear_arith)
                    requires
                        m * (2 * gap) == n,
                        gap >= 1,
                        m >= 1,
                ;
            }
            forward_layer(values, m, gap, &self.root_powers);
            proof {
                F::lemma_modulus();
                assert forall|j: int| 0 <= j < n implies fval(#[trigger] values@[j]) % (p as nat)
                    == forward(before, log_n as nat, (stage + 1) as nat, roots, p)[j] by {
                    assert forall|i: int| 0 <= i < cur.len() implies #[trigger] cur[i] % p
                        == prev[i] % p by {
                        vstd::arithmetic::div_mod::lemma_mod_twice(cur[i], p);
                    }
                    crate::lemmas::lemma_mod_unique(n as int, 0, m as int, 2 * gap);
                    lemma_ct_entry_congruent(cur, prev, m as int, gap as int, roots, p, j);
                }
                assert(2 * m <= 0x4000_0000) by {
                    vstd::arithmetic::power2::lemma2_to64();
                    if stage + 1 < 30 {
                        vstd::arithmetic::power2::lemma_pow2_strictly_increases(
                            (stage + 1) as nat,
                            30,
                        );
                    }
                }
            }
            m = 2 * m;
            group = gap;
            stage = stage + 1;
        }
        let mut j: usize = 0;
        let ghost lazy = values@;
        while j < n
            invariant
                j <= n,
                n == values@.len(),
                lazy.len() == n,
                all_below(lazy, 4),
                forall|i: int| j <= i < n ==> values@[i] == lazy[i],
                forall|i: int|
                    0 <= i < j ==> fval(#[trigger] values@[i]) == fval(lazy[i])
                        % F::spec_modulus(),
            decreases n - j,
        {
            assert(values@[j as int] == lazy[j as int]);
            let reduced = ntt_normalize(values[j]);
            values[j] = reduced;
            j = j + 1;
        }
        proof {
            F::lemma_modulus();
            lemma_forward_len(before, log_n as nat, log_n as nat, roots, p);
            assert forall|i: int| 0 <= i < n implies fval(#[trigger] values@[i])
                < 1 * F::spec_modulus() by {
                vstd::arithmetic::div_mod::lemma_mod_bound(fval(lazy[i]) as int, p);
            }
            assert(vals(values@) =~= ntt(before, log_n as nat, roots, p));
        }
    }

    /// The inverse transform in place: takes values in `[0, 2p)` to the
    /// coefficients, reduced to `[0, p)`.
    pub fn inverse_transform_slice(&self, values: &mut [F])
        requires
            self.wf_shape(),
            old(values)@.len() == self.n(),
            all_below(old(values)@, 2),
        ensures
            final(values)@.len() == old(values)@.len(),
            all_below(final(values)@, 1),
            vals(final(values)@) == intt(
                vals(old(values)@),
                self.spec_log_n() as nat,
                factors(self.spec_inv_root_powers()),
                self.spec_inv_degree().spec_value().val() as int,
                F::spec_modulus() as int,
            ),
    {
        let log_n = self.coeff_count_power;
        let n = self.coeff_count;
        let ghost before = vals(values@);
        let ghost roots = factors(self.inv_root_powers@);
        let ghost p = F::spec_modulus() as int;
        let mut stage: u32 = 0;
        let mut m: usize = n / 2;
        let mut gap: usize = 1;
        let mut offset: usize = 1;
        proof {
            lemma2_to64();
            F::lemma_modulus();
            lemma_pow2_unfold(log_n as nat);
            lemma_pow2_pos((log_n - 1) as nat);
            assert forall|j: int| 0 <= j < values@.len() implies fval(#[trigger] values@[j]) % (
            p as nat) == backward(before, log_n as nat, 0, roots, p)[j] by {}
        }
        while stage < log_n - 1
            invariant
                self.wf_shape(),
                log_n == self.spec_log_n(),
                n == self.n(),
                roots == factors(self.inv_root_powers@),
                p == F::spec_modulus(),
                stage <= log_n - 1,
                gap == pow2(stage as nat),
                m == pow2((log_n - 1 - stage) as nat),
                m * (2 * gap) == n,
                offset == inv_offset(log_n as nat, stage as nat),
                offset + 2 * m == n + 1,
                values@.len() == n,
                before.len() == n,
                all_below(values@, 2),
                forall|j: int|
                    0 <= j < n ==> fval(#[trigger] values@[j]) % (p as nat) == backward(
                        before,
                        log_n as nat,
                        stage as nat,
                        roots,
                        p,
                    )[j],
            decreases log_n - stage,
        {
            let ghost cur = vals(values@);
            let ghost prev = backward(before, log_n as nat, stage as nat, roots, p);
            proof {
                lemma_pow2_unfold((log_n - 1 - stage) as nat);
                lemma_pow2_unfold((log_n - stage) as nat);
                lemma_pow2_unfold((stage + 1) as nat);
                lemma_pow2_pos((log_n - 2 - stage) as nat);
                lemma_pow2_pos(stage as nat);
                lemma_backward_len(before, log_n as nat, stage as nat, roots, p);
                assert(2 * gap <= n) by (nonlinear_arith)
                    requires
                        m * (2 * gap) == n,
                        m >= 1,
                        gap >= 1,
                ;
            }
            inverse_layer(values, m, gap, offset, &self.inv_root_powers);
            proof {
                F::lemma_modulus();
                assert forall|j: int| 0 <= j < n implies fval(#[trigger] values@[j]) % (p as nat)
                    == backward(before, log_n as nat, (stage + 1) as nat, roots, p)[j] by {
                    assert forall|i: int| 0 <= i < cur.len() implies #[trigger] cur[i] % p
                        == prev[i] % p by {
                        vstd::arithmetic::div_mod::lemma_mod_twice(cur[i], p);
                    }
                    crate::lemmas::lemma_mod_unique(n as int, 0, m as int, 2 * gap);
                    lemma_gs_entry_congruent(cur, prev, offset as int, gap as int, roots, p, j);
                }
                assert((m / 2) * (2 * (2 * gap)) == m * (2 * gap)) by (nonlinear_arith)
                    requires
                        m % 2 == 0,
                ;
            }
            offset = offset + m;
            m = m / 2;
            gap = 2 * gap;
            stage = stage + 1;
        }
        // the last layer, with the division by the length
        let scalar = self.inv_degree;
        let root = self.inv_root_powers[offset];
        let word = MulReduce::<F::Value, ShoupFactor<F::Value>>::mul_reduce(
            root.value(),
            scalar,
            F::modulus_value(),
        );
        proof {
            F::lemma_modulus();
            vstd::arithmetic::div_mod::lemma_mod_bound(
                (root.spec_value().val() * scalar.spec_value().val()) as int,
                p,
            );
        }
        let scaled_root = ShoupFactor::new(word, F::modulus_value());
        let ghost cur = vals(values@);
        let ghost prev = backward(before, log_n as nat, stage as nat, roots, p);
        let ghost c = scalar.spec_value().val() as int;
        proof {
            lemma_backward_len(before, log_n as nat, stage as nat, roots, p);
            lemma_backward_len(before, log_n as nat, log_n as nat, roots, p);
            assert(m == 1);
            assert(2 * gap == n);
        }
        inverse_last_layer(values, gap, scalar, scaled_root, Ghost(root.spec_value().val() as int));
        proof {
            assert(roots[offset as int] == root.spec_value().val());
            assert forall|j: int| 0 <= j < n implies fval(#[trigger] values@[j]) % (p as nat) == (c
                * backward(before, log_n as nat, log_n as nat, roots, p)[j]) % p by {
                assert forall|i: int| 0 <= i < cur.len() implies #[trigger] cur[i] % p == prev[i]
                    % p by {
                    vstd::arithmetic::div_mod::lemma_mod_twice(cur[i], p);
                }
                crate::lemmas::lemma_mod_unique(n as int, 0, 1, 2 * gap);
                lemma_gs_entry_congruent(cur, prev, offset as int, gap as int, roots, p, j);
                lemma_group_index(j, 0, gap as int, 0);
            }
        }
        let mut j: usize = 0;
        let ghost lazy = values@;
        while j < n
            invariant
                j <= n,
                n == values@.len(),
                lazy.len() == n,
                all_below(lazy, 2),
                forall|i: int| j <= i < n ==> values@[i] == lazy[i],
                forall|i: int|
                    0 <= i < j ==> fval(#[trigger] values@[i]) == fval(lazy[i])
                        % F::spec_modulus(),
            decreases n - j,
        {
            assert(values@[j as int] == lazy[j as int]);
            let reduced = values[j].normalize();
            values[j] = reduced;
            j = j + 1;
        }
        proof {
            assert forall|i: int| 0 <= i < n implies fval(#[trigger] values@[i])
                < 1 * F::spec_modulus() by {
                vstd::arithmetic::div_mod::lemma_mod_bound(fval(lazy[i]) as int, p);
            }
            assert(vals(values@) =~= intt(before, log_n as nat, roots, c, p));
        }
    }

    /// Makes the tables from the root `ω` and its powers in natural order.
    pub fn new(
        root: F,
        coeff_count_power: u32,
        ordinal_root_powers: Vec<ShoupFactor<F::Value>>,
    ) -> (table: Self)
        requires
            1 <= coeff_count_power <= 30,
            ordinal_root_powers@.len() == 2 * pow2(coeff_count_power as nat),
            all_factors_wf::<F>(ordinal_root_powers@),
            canonical(root),
            ordinal_powers_of::<F>(ordinal_root_powers@, fval(root) as int),
            pow(fval(root) as int, pow2(coeff_count_power as nat)) % (F::spec_modulus() as int)
                == F::spec_modulus() - 1,
            (F::spec_modulus() - 1) % ((2 * pow2(coeff_count_power as nat)) as int) == 0,
        ensures
            table.wf(),
            table.spec_root() == root,
            table.spec_log_n() == coeff_count_power,
            table.spec_ordinal_root_powers() == ordinal_root_powers@,
    {
        let log_n = coeff_count_power;
        let coeff_count = pow2_usize(log_n);
        let ghost n = pow2(log_n as nat);
        let ghost p = F::spec_modulus() as int;
        let ghost w = fval(root) as int;
        proof {
            F::lemma_modulus();
            lemma_pow2_pos(log_n as nat);
            lemma_pow2_at_most_30(log_n as nat);
            vstd::arithmetic::div_mod::lemma_fundamental_div_mod(p - 1, (2 * n) as int);
            let c = (p - 1) / ((2 * n) as int);
            assert(2 * n <= p - 1) by (nonlinear_arith)
                requires
                    p - 1 == (2 * n) * c,
                    p - 1 > 0,
                    n > 0,
            ;
        }
        let last = ordinal_root_powers[2 * coeff_count - 1];
        let inv_root = F::new(last.value());
        // the reversals
        let mut reverse_lsbs: Vec<usize> = Vec::new();
        let mut j: usize = 0;
        while j < coeff_count
            invariant
                j <= coeff_count,
                log_n <= 30,
                reverse_lsbs@.len() == j,
                forall|i: int|
                    0 <= i < j ==> #[trigger] reverse_lsbs@[i] == brv(i as nat, log_n as nat),
            decreases coeff_count - j,
        {
            let r = j.reverse_lsbs(log_n);
            reverse_lsbs.push(r);
            j = j + 1;
        }
        // the forward roots, in bit-reversed order
        let mut root_powers: Vec<ShoupFactor<F::Value>> = Vec::new();
        let mut j: usize = 0;
        while j < coeff_count
            invariant
                j <= coeff_count,
                coeff_count == n,
                n == pow2(log_n as nat),
                p == F::spec_modulus(),
                reverse_lsbs@.len() == n,
                ordinal_root_powers@.len() == 2 * n,
                all_factors_wf::<F>(ordinal_root_powers@),
                ordinal_powers_of::<F>(ordinal_root_powers@, w),
                forall|i: int|
                    0 <= i < n ==> #[trigger] reverse_lsbs@[i] == brv(i as nat, log_n as nat),
                root_powers@.len() == j,
                all_factors_wf::<F>(root_powers@),
                forall|i: int|
                    0 <= i < j ==> (#[trigger] root_powers@[i]).spec_value().val() == pow(
                        w,
                        brv(i as nat, log_n as nat),
                    ) % p,
            decreases coeff_count - j,
        {
            proof {
                lemma_brv_bound(j as nat, log_n as nat);
            }
            let r = reverse_lsbs[j];
            root_powers.push(ordinal_root_powers[r]);
            j = j + 1;
        }
        // the inverse roots, in the order of the inverse transform
        let mut inv_root_powers: Vec<ShoupFactor<F::Value>> = Vec::new();
        inv_root_powers.push(ordinal_root_powers[0]);
        let mut j: usize = 1;
        while j < coeff_count
            invariant
                1 <= j <= coeff_count,
                coeff_count <= 0x4000_0000,
                coeff_count == n,
                n == pow2(log_n as nat),
                p == F::spec_modulus(),
                reverse_lsbs@.len() == n,
                ordinal_root_powers@.len() == 2 * n,
                all_factors_wf::<F>(ordinal_root_powers@),
                ordinal_powers_of::<F>(ordinal_root_powers@, w),
                forall|i: int|
                    0 <= i < n ==> #[trigger] reverse_lsbs@[i] == brv(i as nat, log_n as nat),
                inv_root_powers@.len() == j,
                all_factors_wf::<F>(inv_root_powers@),
                inv_root_powers@[0] == ordinal_root_powers@[0],
                forall|i: int|
                    1 <= i < j ==> (#[trigger] inv_root_powers@[i]).spec_value().val() == pow(
                        w,
                        (2 * n - 1 - brv((i - 1) as nat, log_n as nat)) as nat,
                    ) % p,
            decreases coeff_count - j,
        {
            proof {
                lemma_brv_bound((j - 1) as nat, log_n as nat);
            }
            let r = reverse_lsbs[j - 1];
            inv_root_powers.push(ordinal_root_powers[2 * coeff_count - 1 - r]);
            j = j + 1;
        }
        // the inverse of the length
        proof {
            lemma_coprime_to_length(n as int, p);
            F::Value::lemma_radix();
        }
        let length = F::cast_from_usize(coeff_count);
        let inverse = length.inv();
        let inv_degree = ShoupFactor::new(inverse.get(), F::modulus_value());
        let table = NTTTable {
            root,
            inv_root,
            coeff_count_power,
            coeff_count,
            inv_degree,
            root_powers,
            inv_root_powers,
            ordinal_root_powers,
            reverse_lsbs,
        };
        proof {
            crate::lemmas::lemma_pow_square_of_minus_one(w, n, p);
            // ω · ω^(2N-1) = ω^(2N) = 1
            vstd::arithmetic::div_mod::lemma_mod_bound(pow(w, (2 * n - 1) as nat), p);
            vstd::arithmetic::power::lemma_pow1(w);
            vstd::arithmetic::div_mod::lemma_small_mod(w as nat, p as nat);
            crate::lemmas::lemma_pow_product_mod(w, 1, (2 * n - 1) as nat, p);
            assert(table.ordinal_root_powers@[2 * n - 1].spec_value().val() == pow(
                w,
                (2 * n - 1) as nat,
            ) % p);
            assert((table.n() * table.inv_degree.spec_value().val()) as int == n * fval(inverse));
            // the first root of the inverse transform is ω^0 = 1
            vstd::arithmetic::power::lemma_pow0(w);
            vstd::arithmetic::div_mod::lemma_small_mod(1, p as nat);
            assert(table.ordinal_root_powers@[0].spec_value().val() == pow(w, 0) % p);
            assert forall|stage: nat, k: int|
                stage < table.spec_log_n() && 0 <= k < pow2(
                    (table.spec_log_n() - 1 - stage) as nat,
                ) implies (factors(table.spec_root_powers())[#[trigger] paired_root(
                table.spec_log_n() as nat,
                stage,
                k,
            )] * factors(table.spec_inv_root_powers())[inv_offset(
                table.spec_log_n() as nat,
                stage,
            ) + k]) % p == 1 by {
                let i = (log_n - 1 - stage) as nat;
                lemma_brv_pair(log_n as nat, i, k as nat);
                lemma_pow2_pos(i);
                let a = pow2(i) + k;
                let idx = n - pow2(i + 1) + k;
                lemma_pow2_unfold(i + 1);
                lemma_brv_bound(idx as nat, log_n as nat);
                lemma_brv_bound(a as nat, log_n as nat);
                assert(a < n);
                assert(0 <= idx < n - 1);
                assert(inv_offset(log_n as nat, stage) + k == idx + 1);
                let ea = brv(a as nat, log_n as nat);
                let eb = (2 * n - 1 - brv(idx as nat, log_n as nat)) as nat;
                assert(table.root_powers@[a].spec_value().val() == pow(w, ea) % p);
                assert(table.inv_root_powers@[idx + 1].spec_value().val() == pow(w, eb) % p);
                crate::lemmas::lemma_pow_product_mod(w, ea, eb, p);
                assert(ea + eb == 2 * n);
            }
        }
        table
    }

    /// The transform of the monomial `coeff·X^degree`, without the
    /// polynomial: the entry `i` is `coeff·ω^((2·rev(i) + 1)·degree mod 2N)`.
    pub fn transform_monomial(&self, coeff: F, degree: usize, values: &mut [F])
        requires
            self.wf(),
            canonical(coeff),
            degree <= u32::MAX,
            old(values)@.len() == self.n(),
        ensures
            final(values)@.len() == old(values)@.len(),
            forall|i: int|
                0 <= i < self.n() ==> fval(#[trigger] final(values)@[i]) == monomial_entry(
                    fval(coeff) as int,
                    self.omega(),
                    degree as nat,
                    self.spec_log_n() as nat,
                    F::spec_modulus() as int,
                    i as nat,
                ),
    {
        let n = self.coeff_count;
        let log_n = self.coeff_count_power;
        let is_one = coeff.same(F::one());
        let is_neg_one = coeff.same(F::neg_one());
        let ghost p = F::spec_modulus() as int;
        let ghost w = self.omega();
        let ghost c = fval(coeff) as int;
        let mut i: usize = 0;
        proof {
            F::lemma_modulus();
            lemma_pow2_at_most_30(log_n as nat);
        }
        while i < n
            invariant
                i <= n,
                n <= 0x4000_0000,
                n == self.n(),
                n == values@.len(),
                log_n == self.spec_log_n(),
                self.wf(),
                canonical(coeff),
                degree <= u32::MAX,
                is_one == (fval(coeff) == 1),
                is_neg_one == (fval(coeff) == F::spec_modulus() - 1),
                p == F::spec_modulus(),
                w == self.omega(),
                c == fval(coeff),
                forall|j: int|
                    0 <= j < i ==> fval(#[trigger] values@[j]) == monomial_entry(
                        c,
                        w,
                        degree as nat,
                        log_n as nat,
                        p,
                        j as nat,
                    ),
            decreases n - i,
        {
            let r = self.reverse_lsbs[i];
            proof {
                lemma_brv_bound(i as nat, log_n as nat);
                assert((2 * r + 1) * degree < 0x1_0000_0000_0000_0000) by (nonlinear_arith)
                    requires
                        r < 0x4000_0000,
                        degree <= 0xffff_ffff,
                ;
                vstd::arithmetic::div_mod::lemma_mod_bound(
                    ((2 * r + 1) * degree) as int,
                    (2 * n) as int,
                );
            }
            let index = ((((2 * r + 1) as u64) * (degree as u64)) % ((2 * n) as u64)) as usize;
            let factor = self.ordinal_root_powers[index];
            proof {
                F::lemma_modulus();
                assert(self.spec_ordinal_root_powers()[index as int].wf(F::spec_modulus()));
            }
            let power = F::new(factor.value());
            let entry = if coeff.is_zero() {
                proof {
                    assert(0 * pow(w, index as nat) == 0);
                    vstd::arithmetic::div_mod::lemma_small_mod(0, p as nat);
                }
                coeff
            } else if is_one {
                proof {
                    assert(1 * pow(w, index as nat) == pow(w, index as nat));
                }
                power
            } else if is_neg_one {
                proof {
                    lemma_neg_is_times_minus_one(pow(w, index as nat), p);
                }
                Field::neg(power)
            } else {
                let word = MulReduce::<F::Value, ShoupFactor<F::Value>>::mul_reduce(
                    coeff.get(),
                    factor,
                    F::modulus_value(),
                );
                proof {
                    vstd::arithmetic::div_mod::lemma_mul_mod_noop_right(c, pow(w, index as nat), p);
                }
                F::new(word)
            };
            values[i] = entry;
            i = i + 1;
        }
    }

    /// The transform of the monomial `X^degree`.
    pub fn transform_coeff_one_monomial(&self, degree: usize, values: &mut [F])
        requires
            self.wf(),
            degree <= u32::MAX,
            old(values)@.len() == self.n(),
        ensures
            final(values)@.len() == old(values)@.len(),
            forall|i: int|
                0 <= i < self.n() ==> fval(#[trigger] final(values)@[i]) == monomial_entry(
                    1,
                    self.omega(),
                    degree as nat,
                    self.spec_log_n() as nat,
                    F::spec_modulus() as int,
                    i as nat,
                ),
    {
        proof {
            F::lemma_modulus();
        }
        self.transform_monomial(F::one(), degree, values);
    }

    /// **Round trip.** With well-formed tables the inverse transform of the
    /// forward transform of a sequence is the sequence again, reduced
    /// modulo `p`: `INTT(NTT(a)) = a`.
    pub proof fn lemma_round_trip(self, a: Seq<int>)
        requires
            self.wf(),
            a.len() == self.n(),
        ensures
            intt(
                ntt(
                    a,
                    self.spec_log_n() as nat,
                    factors(self.spec_root_powers()),
                    F::spec_modulus() as int,
                ),
                self.spec_log_n() as nat,
                factors(self.spec_inv_root_powers()),
                self.spec_inv_degree().spec_value().val() as int,
                F::spec_modulus() as int,
            ) == reduced(a, F::spec_modulus() as int),
    {
        self.lemma_tables();
        lemma_round_trip(
            a,
            self.spec_log_n() as nat,
            factors(self.spec_root_powers()),
            factors(self.spec_inv_root_powers()),
            self.spec_inv_degree().spec_value().val() as int,
            F::spec_modulus() as int,
        );
    }
}

impl<F: FieldCore> NTTTable<F> {
    /// The tables hold what the laws of the transform ask for: the forward
    /// roots are the powers of `ω` in bit-reversed order, and every root
    /// of the inverse transform is the inverse of the forward root that it undoes.
    pub proof fn lemma_tables(self)
        requires
            self.wf(),
        ensures
            F::spec_modulus() > 1,
            roots_of(
                self.omega(),
                self.spec_log_n() as nat,
                factors(self.spec_root_powers()),
                F::spec_modulus() as int,
            ),
            roots_paired(
                self.spec_log_n() as nat,
                factors(self.spec_root_powers()),
                factors(self.spec_inv_root_powers()),
                F::spec_modulus() as int,
            ),
            pow(self.omega(), pow2(self.spec_log_n() as nat)) % (F::spec_modulus() as int)
                == F::spec_modulus() - 1,
            (pow2(self.spec_log_n() as nat) * (self.spec_inv_degree().spec_value().val() as int))
                % (F::spec_modulus() as int) == 1,
    {
        let log_n = self.spec_log_n() as nat;
        let roots = factors(self.spec_root_powers());
        let inv_roots = factors(self.spec_inv_root_powers());
        let p = F::spec_modulus() as int;
        F::lemma_modulus();
        assert forall|stage: nat, k: int|
            stage < log_n && 0 <= k < pow2((log_n - 1 - stage) as nat) implies (
        #[trigger] roots[pow2((log_n - 1 - stage) as nat) + k] * inv_roots[inv_offset(log_n, stage)
            + k]) % p == 1 by {
            assert(paired_root(log_n, stage, k) == pow2((log_n - 1 - stage) as nat) + k);
        }
        assert((pow2(log_n) * (self.spec_inv_degree().spec_value().val() as int)) == (self.n()
            * self.spec_inv_degree().spec_value().val()) as int) by (nonlinear_arith)
            requires
                self.n() == pow2(log_n),
        ;
        assert forall|x: int| 0 <= x < pow2(log_n) implies #[trigger] roots[x] == pow(
            self.omega(),
            brv(x as nat, log_n),
        ) % p by {
            assert(self.spec_root_powers()[x].spec_value().val() == pow(
                self.omega(),
                brv(x as nat, log_n),
            ) % p);
        }
    }

    /// **The transform is evaluation.** With well-formed tables the entry
    /// `j` of the forward transform of a polynomial is the value of the
    /// polynomial at `ω^(2·rev(j) + 1)`.
    pub proof fn lemma_transform_is_evaluation(self, a: Seq<int>, j: int)
        requires
            self.wf(),
            a.len() == self.n(),
            0 <= j < self.n(),
        ensures
            ntt(
                a,
                self.spec_log_n() as nat,
                factors(self.spec_root_powers()),
                F::spec_modulus() as int,
            )[j] == evaluation(
                a,
                pow(self.omega(), 2 * brv(j as nat, self.spec_log_n() as nat) + 1),
            ) % (F::spec_modulus() as int),
    {
        self.lemma_tables();
        lemma_ntt_is_evaluation(
            a,
            self.spec_log_n() as nat,
            self.omega(),
            factors(self.spec_root_powers()),
            F::spec_modulus() as int,
            j,
        );
    }

    /// **The transform of zero.** With well-formed tables the forward
    /// transform of the zero polynomial is zero at every entry.
    pub proof fn lemma_transform_of_zero(self)
        requires
            self.wf(),
        ensures
            ntt(
                Seq::new(self.n() as nat, |i: int| 0int),
                self.spec_log_n() as nat,
                factors(self.spec_root_powers()),
                F::spec_modulus() as int,
            ) == Seq::new(self.n() as nat, |i: int| 0int),
    {
        self.lemma_tables();
        crate::transformation::convolution::lemma_transform_of_zero(
            self.spec_log_n() as nat,
            self.omega(),
            factors(self.spec_root_powers()),
            F::spec_modulus() as int,
        );
    }

    /// **Convolution.** With well-formed tables the inverse transform of
    /// the product, entry by entry, of the transforms of `a` and `b` is
    /// the negacyclic convolution of `a` and `b`.
    pub proof fn lemma_convolution(self, a: Seq<int>, b: Seq<int>)
        requires
            self.wf(),
            a.len() == self.n(),
            b.len() == self.n(),
        ensures
            intt(
                hadamard(
                    ntt(
                        a,
                        self.spec_log_n() as nat,
                        factors(self.spec_root_powers()),
                        F::spec_modulus() as int,
                    ),
                    ntt(
                        b,
                        self.spec_log_n() as nat,
                        factors(self.spec_root_powers()),
                        F::spec_modulus() as int,
                    ),
                    F::spec_modulus() as int,
                ),
                self.spec_log_n() as nat,
                factors(self.spec_inv_root_powers()),
                self.spec_inv_degree().spec_value().val() as int,
                F::spec_modulus() as int,
            ) == negacyclic(a, b, F::spec_modulus() as int),
    {
        self.lemma_tables();
        lemma_convolution(
            a,
            b,
            self.spec_log_n() as nat,
            self.omega(),
            factors(self.spec_root_powers()),
            factors(self.spec_inv_root_powers()),
            self.spec_inv_degree().spec_value().val() as int,
            F::spec_modulus() as int,
        );
    }

    /// **Monomial identity.** With well-formed tables the monomial
    /// transform of `c · X^d` is the transform of the polynomial that is
    /// `c` at the place `d mod N`, negated where `⌊d / N⌋` is odd: for
    /// `d < N` the polynomial `c · X^d`, and for `N <= d < 2N` the
    /// polynomial `-c · X^(d - N)`.
    pub proof fn lemma_monomial_identity(self, c: int, d: nat, j: int)
        requires
            self.wf(),
            d < 2 * self.n(),
            0 <= j < self.n(),
        ensures
            monomial_entry(
                c,
                self.omega(),
                d,
                self.spec_log_n() as nat,
                F::spec_modulus() as int,
                j as nat,
            ) == ntt(
                if d < self.n() {
                    monomial(c, d as int, self.n())
                } else {
                    monomial((F::spec_modulus() - 1) * c, d - self.n(), self.n())
                },
                self.spec_log_n() as nat,
                factors(self.spec_root_powers()),
                F::spec_modulus() as int,
            )[j],
    {
        self.lemma_tables();
        let log_n = self.spec_log_n() as nat;
        let p = F::spec_modulus() as int;
        let roots = factors(self.spec_root_powers());
        if d < self.n() {
            lemma_monomial_identity(c, d, log_n, self.omega(), roots, p, j);
        } else {
            let e = (d - self.n()) as nat;
            lemma_monomial_negacyclic(c, self.omega(), e, log_n, p, j as nat);
            lemma_monomial_identity((p - 1) * c, e, log_n, self.omega(), roots, p, j);
        }
    }
}

} // verus!
