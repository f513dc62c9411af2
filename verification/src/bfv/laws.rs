//! The laws of the scheme: what decryption gives for a fresh ciphertext,
//! for a sum, for a multiple and for an inner product of ciphertexts,
//! and for the combination of the shares of a threshold encryption.
//!
//! A fresh ciphertext carries its plaintext with a noise of at most
//! `2 · 1024 · 21 + 21 = 43029`. A sum carries the sum of the noises and
//! one more, a multiple by `α` carries `α` times the noise and 30 more.
//! Decryption gives the plaintext that is carried while the noise is at
//! most one million.

use crate::bfv::budget::{
    carries, is_plain, lemma_carried_scaled, lemma_carried_sum, lemma_decrypt_carried,
    lemma_offset_unique, lemma_phase_of_scaled, lemma_phase_of_sum, lemma_zero_carries, noise_at,
};
use crate::bfv::ciphertext::BFVCiphertext;
use crate::bfv::context::BFVContext;
use crate::bfv::correctness::{
    cipher_c0, cipher_c1, decryption_input, lemma_congruence_add, lemma_fresh_phase,
    lemma_noise_small, lemma_ternary_small, noise_of, public_b,
};
use crate::bfv::interpolation::{
    distinct_points, lagrange_terms, lemma_interpolation, lemma_total_congruent,
    lemma_weight_range, total, values_at, weights,
};
use crate::bfv::publickey::BFVPublicKey;
use crate::bfv::tpke::{is_sharing, is_sharing_with};
use crate::polynomial::native_polynomial::poly_eval;
use crate::bfv::scheme::{
    cipher_modulus,
    inner_product,
    is_encryption,
    is_encryption_with,
    lifted,
    lowered,
    phase,
    scaled_up,
};
use crate::bfv::secretkey::{is_public_key, is_public_key_with, BFVSecretKey};
use crate::polynomial::elementwise::{seq_add, seq_neg, seq_scale};
use crate::primitive::Word;
use crate::transformation::ntt_table::{factors, vals};
use vstd::arithmetic::div_mod::lemma_mod_bound;
use vstd::arithmetic::power2::lemma2_to64;
use vstd::prelude::*;

verus! {

/// What decryption scales down is `c0 + c1·s`, with the product as the
/// negacyclic convolution; its coefficients are reduced.
pub proof fn lemma_phase(ctx: BFVContext, s: Seq<int>, c: BFVCiphertext)
    requires
        ctx.wf(),
        s.len() == ctx.spec_rlwe_dimension(),
        c.0[0]@.len() == ctx.spec_rlwe_dimension(),
        c.0[1]@.len() == ctx.spec_rlwe_dimension(),
    ensures
        phase(ctx.spec_table(), s, c) == decryption_input(vals(c.0[0]@), vals(c.0[1]@), s),
        phase(ctx.spec_table(), s, c).len() == ctx.spec_rlwe_dimension(),
        forall|k: int|
            0 <= k < ctx.spec_rlwe_dimension() ==> 0 <= #[trigger] phase(ctx.spec_table(), s, c)[k]
                < cipher_modulus(),
{
    let q = cipher_modulus() as int;
    ctx.spec_table().lemma_convolution(vals(c.0[1]@), s);
    let v = phase(ctx.spec_table(), s, c);
    assert forall|k: int| 0 <= k < ctx.spec_rlwe_dimension() implies 0 <= #[trigger] v[k] < q by {
        lemma_mod_bound(
            vals(c.0[0]@)[k] + decryption_input(vals(c.0[0]@), vals(c.0[1]@), s)[k],
            q,
        );
        lemma_mod_bound(
            vals(c.0[0]@)[k] + crate::transformation::convolution::negacyclic(
                vals(c.0[1]@),
                s,
                q,
            )[k],
            q,
        );
    }
}

/// **A fresh ciphertext.** An encryption of `m` under a public key of
/// the secret key `sk` carries `m` under `sk` with a noise of at most 43029.
pub proof fn lemma_fresh_carries(
    ctx: BFVContext,
    sk: BFVSecretKey,
    pk: BFVPublicKey,
    m: Seq<int>,
    c: BFVCiphertext,
)
    requires
        ctx.wf(),
        sk.wf(ctx.spec_rlwe_dimension() as nat),
        m.len() == ctx.spec_rlwe_dimension(),
        c.0[0]@.len() == ctx.spec_rlwe_dimension(),
        c.0[1]@.len() == ctx.spec_rlwe_dimension(),
        is_public_key(ctx.spec_table(), vals(sk.spec_key()@), pk),
        is_encryption(ctx.spec_table(), pk, m, c),
    ensures
        carries(phase(ctx.spec_table(), vals(sk.spec_key()@), c), m, 43029),
{
    let table = ctx.spec_table();
    let q = cipher_modulus() as int;
    let s = vals(sk.spec_key()@);
    let (a, e) = choose|a: Seq<int>, e: Seq<int>| #[trigger] is_public_key_with(table, s, a, e, pk);
    let (u, e1, e2) = choose|u: Seq<int>, e1: Seq<int>, e2: Seq<int>| #[trigger]
        is_encryption_with(table, pk, m, u, e1, e2, c);
    table.lemma_tables();
    lemma2_to64();
    table.lemma_convolution(a, s);
    assert(vals(pk.0[0]@) == public_b(a, s, e));
    assert(vals(pk.0[0]@).len() == a.len());
    assert(vals(pk.0[1]@).len() == a.len());
    table.lemma_convolution(vals(pk.0[0]@), u);
    table.lemma_convolution(vals(pk.0[1]@), u);
    assert(vals(c.0[0]@) == cipher_c0(public_b(a, s, e), u, e1, m));
    assert(vals(c.0[1]@) == cipher_c1(seq_neg(a, q), u, e2));
    lemma_phase(ctx, s, c);
    lemma_ternary_small(sk.spec_key()@);
    lemma_fresh_phase(
        s,
        a,
        e,
        u,
        e1,
        e2,
        m,
        10,
        table.omega(),
        factors(table.spec_root_powers()),
        factors(table.spec_inv_root_powers()),
        table.spec_inv_degree().spec_value().val() as int,
    );
    let v = phase(table, s, c);
    let noise = noise_of(s, e, u, e1, e2);
    assert(v == seq_add(lifted(m), noise, q));
    assert forall|k: int| 0 <= k < v.len() implies -43029 <= #[trigger] noise_at(v, m, k)
        <= 43029 by {
        let nu = lemma_noise_small(s, e, u, e1, e2, k);
        let up = scaled_up(m[k] as nat) as int;
        lemma_congruence_add(up, up, noise[k], nu, q);
        vstd::arithmetic::div_mod::lemma_mod_twice(up + noise[k], q);
        lemma_offset_unique(v[k], up, nu);
    }
}

/// **Decrypt(sk, Encrypt(pk, m)) = m.** Let `pk` be a public key of the
/// secret key `sk`, as `gen_keypair` makes it, and `c` an encryption of
/// the plaintext `m` under `pk`, as `encrypt` makes it. Then what
/// `decrypt` gives for `c` under `sk` is `m`.
pub proof fn lemma_decrypt_of_encryption(
    ctx: BFVContext,
    sk: BFVSecretKey,
    pk: BFVPublicKey,
    m: Seq<int>,
    c: BFVCiphertext,
)
    requires
        ctx.wf(),
        sk.wf(ctx.spec_rlwe_dimension() as nat),
        m.len() == ctx.spec_rlwe_dimension(),
        is_plain(m),
        c.0[0]@.len() == ctx.spec_rlwe_dimension(),
        c.0[1]@.len() == ctx.spec_rlwe_dimension(),
        is_public_key(ctx.spec_table(), vals(sk.spec_key()@), pk),
        is_encryption(ctx.spec_table(), pk, m, c),
    ensures
        lowered(phase(ctx.spec_table(), vals(sk.spec_key()@), c)) == m,
{
    lemma_fresh_carries(ctx, sk, pk, m, c);
    lemma_phase(ctx, vals(sk.spec_key()@), c);
    lemma_decrypt_carried(phase(ctx.spec_table(), vals(sk.spec_key()@), c), m);
}

/// The sum of two ciphertexts carries the sum of their plaintexts, with
/// a noise of at most the sum of the two bounds and one.
pub proof fn lemma_sum_carries(
    ctx: BFVContext,
    s: Seq<int>,
    c: BFVCiphertext,
    d: BFVCiphertext,
    r: BFVCiphertext,
    m1: Seq<int>,
    m2: Seq<int>,
    b1: int,
    b2: int,
)
    requires
        ctx.wf(),
        s.len() == ctx.spec_rlwe_dimension(),
        c.0[0]@.len() == ctx.spec_rlwe_dimension(),
        c.0[1]@.len() == ctx.spec_rlwe_dimension(),
        d.0[0]@.len() == ctx.spec_rlwe_dimension(),
        d.0[1]@.len() == ctx.spec_rlwe_dimension(),
        carries(phase(ctx.spec_table(), s, c), m1, b1),
        carries(phase(ctx.spec_table(), s, d), m2, b2),
        is_plain(m1),
        is_plain(m2),
        0 <= b1,
        0 <= b2,
        b1 + b2 + 1 <= 66060288,
        // the sum, as `evalute_add` makes it
        vals(r.0[0]@) == seq_add(vals(c.0[0]@), vals(d.0[0]@), cipher_modulus() as int),
        vals(r.0[1]@) == seq_add(vals(c.0[1]@), vals(d.0[1]@), cipher_modulus() as int),
    ensures
        carries(phase(ctx.spec_table(), s, r), seq_add(m1, m2, 61), b1 + b2 + 1),
        is_plain(seq_add(m1, m2, 61)),
{
    let table = ctx.spec_table();
    lemma_phase(ctx, s, c);
    lemma_phase(ctx, s, d);
    assert(r.0[0]@.len() == vals(r.0[0]@).len());
    assert(r.0[1]@.len() == vals(r.0[1]@).len());
    lemma_phase(ctx, s, r);
    lemma_phase_of_sum(vals(c.0[0]@), vals(c.0[1]@), vals(d.0[0]@), vals(d.0[1]@), s);
    lemma_carried_sum(phase(table, s, c), phase(table, s, d), m1, m2, b1, b2);
}

/// **Decrypt(sk, Add(Encrypt(m1), Encrypt(m2))) = m1 + m2.** Let `c` and
/// `d` be encryptions of the plaintexts `m1` and `m2` under public keys
/// of the secret key `sk`, and `r` their sum, as `evalute_add` makes it.
/// Then what `decrypt` gives for `r` under `sk` is the sum of `m1` and
/// `m2`, coefficient by coefficient in the plaintext field.
pub proof fn lemma_decrypt_of_sum(
    ctx: BFVContext,
    sk: BFVSecretKey,
    pk1: BFVPublicKey,
    pk2: BFVPublicKey,
    m1: Seq<int>,
    m2: Seq<int>,
    c: BFVCiphertext,
    d: BFVCiphertext,
    r: BFVCiphertext,
)
    requires
        ctx.wf(),
        sk.wf(ctx.spec_rlwe_dimension() as nat),
        m1.len() == ctx.spec_rlwe_dimension(),
        m2.len() == ctx.spec_rlwe_dimension(),
        is_plain(m1),
        is_plain(m2),
        c.0[0]@.len() == ctx.spec_rlwe_dimension(),
        c.0[1]@.len() == ctx.spec_rlwe_dimension(),
        d.0[0]@.len() == ctx.spec_rlwe_dimension(),
        d.0[1]@.len() == ctx.spec_rlwe_dimension(),
        is_public_key(ctx.spec_table(), vals(sk.spec_key()@), pk1),
        is_public_key(ctx.spec_table(), vals(sk.spec_key()@), pk2),
        is_encryption(ctx.spec_table(), pk1, m1, c),
        is_encryption(ctx.spec_table(), pk2, m2, d),
        vals(r.0[0]@) == seq_add(vals(c.0[0]@), vals(d.0[0]@), cipher_modulus() as int),
        vals(r.0[1]@) == seq_add(vals(c.0[1]@), vals(d.0[1]@), cipher_modulus() as int),
    ensures
        lowered(phase(ctx.spec_table(), vals(sk.spec_key()@), r)) == seq_add(m1, m2, 61),
{
    let s = vals(sk.spec_key()@);
    lemma_fresh_carries(ctx, sk, pk1, m1, c);
    lemma_fresh_carries(ctx, sk, pk2, m2, d);
    lemma_sum_carries(ctx, s, c, d, r, m1, m2, 43029, 43029);
    assert(r.0[0]@.len() == vals(r.0[0]@).len());
    assert(r.0[1]@.len() == vals(r.0[1]@).len());
    lemma_phase(ctx, s, r);
    lemma_decrypt_carried(phase(ctx.spec_table(), s, r), seq_add(m1, m2, 61));
}

/// A ciphertext times a scalar carries its plaintext times the scalar,
/// with a noise of at most the bound times the scalar and 30.
pub proof fn lemma_scaled_carries(
    ctx: BFVContext,
    s: Seq<int>,
    alpha: int,
    c: BFVCiphertext,
    r: BFVCiphertext,
    m: Seq<int>,
    bound: int,
)
    requires
        ctx.wf(),
        s.len() == ctx.spec_rlwe_dimension(),
        c.0[0]@.len() == ctx.spec_rlwe_dimension(),
        c.0[1]@.len() == ctx.spec_rlwe_dimension(),
        carries(phase(ctx.spec_table(), s, c), m, bound),
        is_plain(m),
        0 <= alpha < 61,
        0 <= bound,
        alpha * bound + 30 <= 66060288,
        // the multiple, as `evaluate_mul_scalar` makes it
        vals(r.0[0]@) == seq_scale(vals(c.0[0]@), alpha, cipher_modulus() as int),
        vals(r.0[1]@) == seq_scale(vals(c.0[1]@), alpha, cipher_modulus() as int),
    ensures
        carries(phase(ctx.spec_table(), s, r), seq_scale(m, alpha, 61), alpha * bound + 30),
        is_plain(seq_scale(m, alpha, 61)),
{
    let table = ctx.spec_table();
    lemma_phase(ctx, s, c);
    assert(r.0[0]@.len() == vals(r.0[0]@).len());
    assert(r.0[1]@.len() == vals(r.0[1]@).len());
    lemma_phase(ctx, s, r);
    lemma_phase_of_scaled(vals(c.0[0]@), vals(c.0[1]@), alpha, s);
    lemma_carried_scaled(phase(table, s, c), m, alpha, bound);
}

/// **Decrypt(sk, ScalarMul(α, c)) = α·m within the budget.** Let the
/// ciphertext `c` carry the plaintext `m` under `sk` with a noise of at
/// most `bound`, and let `r` be `c` times the scalar `α`, as
/// `evaluate_mul_scalar` makes it. If `α · bound + 30` is at most one
/// million, what `decrypt` gives for `r` under `sk` is `α·m`,
/// coefficient by coefficient in the plaintext field.
pub proof fn lemma_decrypt_of_scaled(
    ctx: BFVContext,
    sk: BFVSecretKey,
    alpha: int,
    c: BFVCiphertext,
    r: BFVCiphertext,
    m: Seq<int>,
    bound: int,
)
    requires
        ctx.wf(),
        sk.wf(ctx.spec_rlwe_dimension() as nat),
        c.0[0]@.len() == ctx.spec_rlwe_dimension(),
        c.0[1]@.len() == ctx.spec_rlwe_dimension(),
        carries(phase(ctx.spec_table(), vals(sk.spec_key()@), c), m, bound),
        is_plain(m),
        0 <= alpha < 61,
        0 <= bound,
        alpha * bound + 30 <= 1000000,
        vals(r.0[0]@) == seq_scale(vals(c.0[0]@), alpha, cipher_modulus() as int),
        vals(r.0[1]@) == seq_scale(vals(c.0[1]@), alpha, cipher_modulus() as int),
    ensures
        lowered(phase(ctx.spec_table(), vals(sk.spec_key()@), r)) == seq_scale(m, alpha, 61),
{
    let s = vals(sk.spec_key()@);
    lemma_scaled_carries(ctx, s, alpha, c, r, m, bound);
    assert(r.0[0]@.len() == vals(r.0[0]@).len());
    assert(r.0[1]@.len() == vals(r.0[1]@).len());
    lemma_phase(ctx, s, r);
    let v = phase(ctx.spec_table(), s, r);
    let product = seq_scale(m, alpha, 61);
    assert forall|k: int| 0 <= k < v.len() implies -1000000 <= #[trigger] noise_at(v, product, k)
        <= 1000000 by {}
    lemma_decrypt_carried(v, product);
}

/// The inner product of the first `k` plaintexts and scalars,
/// coefficient by coefficient in the plaintext field.
pub open spec fn plain_inner(ms: Seq<Seq<int>>, scalars: Seq<int>, k: nat, n: nat) -> Seq<int>
    decreases k,
{
    if k == 0 {
        Seq::new(n, |i: int| 0int)
    } else {
        seq_add(
            plain_inner(ms, scalars, (k - 1) as nat, n),
            seq_scale(ms[k - 1], scalars[k - 1], 61),
            61,
        )
    }
}

/// The noise that the inner product of the first `k` ciphertexts and
/// scalars can have: for every term the bound of the ciphertext times
/// the scalar, and 31.
pub open spec fn spent(bounds: Seq<int>, scalars: Seq<int>, k: nat) -> int
    decreases k,
{
    if k == 0 {
        0
    } else {
        spent(bounds, scalars, (k - 1) as nat) + scalars[k - 1] * bounds[k - 1] + 31
    }
}

/// Every ciphertext carries its plaintext under `s` within its bound.
pub open spec fn all_carry(
    ctx: BFVContext,
    s: Seq<int>,
    cs: Seq<BFVCiphertext>,
    ms: Seq<Seq<int>>,
    bounds: Seq<int>,
) -> bool {
    &&& ms.len() == cs.len()
    &&& bounds.len() == cs.len()
    &&& forall|i: int|
        0 <= i < cs.len() ==> {
            &&& (#[trigger] cs[i]).0[0]@.len() == ctx.spec_rlwe_dimension()
            &&& cs[i].0[1]@.len() == ctx.spec_rlwe_dimension()
            &&& carries(phase(ctx.spec_table(), s, cs[i]), ms[i], bounds[i])
            &&& is_plain(ms[i])
            &&& 0 <= bounds[i]
        }
}

/// The scalars are numbers below 61.
pub open spec fn all_scalars(scalars: Seq<int>) -> bool {
    forall|i: int| 0 <= i < scalars.len() ==> 0 <= #[trigger] scalars[i] < 61
}

/// What has been spent is not negative, and grows with the number of terms.
pub proof fn lemma_spent(bounds: Seq<int>, scalars: Seq<int>, k: nat)
    requires
        k <= bounds.len(),
        bounds.len() == scalars.len(),
        all_scalars(scalars),
        forall|i: int| 0 <= i < bounds.len() ==> 0 <= #[trigger] bounds[i],
    ensures
        0 <= spent(bounds, scalars, k),
        k > 0 ==> spent(bounds, scalars, (k - 1) as nat) + 31 <= spent(bounds, scalars, k),
    decreases k,
{
    if k > 0 {
        lemma_spent(bounds, scalars, (k - 1) as nat);
        assert(0 <= scalars[k - 1] < 61);
        assert(0 <= bounds[k - 1]);
        assert(0 <= scalars[k - 1] * bounds[k - 1]) by (nonlinear_arith)
            requires
                0 <= scalars[k - 1],
                0 <= bounds[k - 1],
        ;
    }
}

/// The inner product of ciphertexts and scalars carries the inner
/// product of the plaintexts and the scalars, with a noise of at most
/// what the terms spend.
pub proof fn lemma_inner_product_carries(
    ctx: BFVContext,
    s: Seq<int>,
    cs: Seq<BFVCiphertext>,
    scalars: Seq<int>,
    ms: Seq<Seq<int>>,
    bounds: Seq<int>,
    k: nat,
)
    requires
        ctx.wf(),
        s.len() == ctx.spec_rlwe_dimension(),
        k <= cs.len(),
        scalars.len() == cs.len(),
        all_carry(ctx, s, cs, ms, bounds),
        all_scalars(scalars),
        spent(bounds, scalars, k) <= 66060288,
    ensures
        inner_product(cs, scalars, k, 0, s.len()).len() == s.len(),
        inner_product(cs, scalars, k, 1, s.len()).len() == s.len(),
        carries(
            decryption_input(
                inner_product(cs, scalars, k, 0, s.len()),
                inner_product(cs, scalars, k, 1, s.len()),
                s,
            ),
            plain_inner(ms, scalars, k, s.len()),
            spent(bounds, scalars, k),
        ),
        is_plain(plain_inner(ms, scalars, k, s.len())),
    decreases k,
{
    let n = s.len();
    let q = cipher_modulus() as int;
    if k == 0 {
        lemma_zero_carries(n, s);
    } else {
        let j = (k - 1) as nat;
        let c = cs[j as int];
        let alpha = scalars[j as int];
        let bound = bounds[j as int];
        assert(c.0[0]@.len() == n && carries(phase(ctx.spec_table(), s, c), ms[j as int], bound));
        assert(0 <= alpha < 61);
        assert forall|i: int| 0 <= i < bounds.len() implies 0 <= #[trigger] bounds[i] by {
            assert(cs[i].0[0]@.len() == n);
        }
        lemma_spent(bounds, scalars, k);
        lemma_spent(bounds, scalars, j);
        lemma_inner_product_carries(ctx, s, cs, scalars, ms, bounds, j);
        let acc0 = inner_product(cs, scalars, j, 0, n);
        let acc1 = inner_product(cs, scalars, j, 1, n);
        let term0 = seq_scale(vals(c.0[0]@), alpha, q);
        let term1 = seq_scale(vals(c.0[1]@), alpha, q);
        lemma_phase(ctx, s, c);
        lemma_phase_of_scaled(vals(c.0[0]@), vals(c.0[1]@), alpha, s);
        lemma_carried_scaled(phase(ctx.spec_table(), s, c), ms[j as int], alpha, bound);
        lemma_phase_of_sum(acc0, acc1, term0, term1, s);
        lemma_carried_sum(
            decryption_input(acc0, acc1, s),
            decryption_input(term0, term1, s),
            plain_inner(ms, scalars, j, n),
            seq_scale(ms[j as int], alpha, 61),
            spent(bounds, scalars, j),
            alpha * bound + 30,
        );
    }
}

/// **Decrypt(sk, InnerProduct(c, α)) = Σ α_i·m_i within the budget.**
/// Let every ciphertext `c_i` carry the plaintext `m_i` under `sk` with
/// a noise of at most `bound_i`, and let `r` be the inner product of the
/// ciphertexts and the scalars `α_i`, as `evaluate_inner_product` makes
/// it. If the sum of `α_i · bound_i + 31` over the terms is at most one
/// million, what `decrypt` gives for `r` under `sk` is the inner product
/// of the plaintexts and the scalars in the plaintext field.
pub proof fn lemma_decrypt_of_inner_product(
    ctx: BFVContext,
    sk: BFVSecretKey,
    cs: Seq<BFVCiphertext>,
    scalars: Seq<int>,
    ms: Seq<Seq<int>>,
    bounds: Seq<int>,
    r: BFVCiphertext,
)
    requires
        ctx.wf(),
        sk.wf(ctx.spec_rlwe_dimension() as nat),
        scalars.len() == cs.len(),
        all_carry(ctx, vals(sk.spec_key()@), cs, ms, bounds),
        all_scalars(scalars),
        spent(bounds, scalars, cs.len()) <= 1000000,
        vals(r.0[0]@) == inner_product(cs, scalars, cs.len(), 0, ctx.spec_rlwe_dimension() as nat),
        vals(r.0[1]@) == inner_product(cs, scalars, cs.len(), 1, ctx.spec_rlwe_dimension() as nat),
    ensures
        lowered(phase(ctx.spec_table(), vals(sk.spec_key()@), r)) == plain_inner(
            ms,
            scalars,
            cs.len(),
            ctx.spec_rlwe_dimension() as nat,
        ),
{
    let s = vals(sk.spec_key()@);
    let n = ctx.spec_rlwe_dimension() as nat;
    lemma_inner_product_carries(ctx, s, cs, scalars, ms, bounds, cs.len());
    assert(r.0[0]@.len() == vals(r.0[0]@).len());
    assert(r.0[1]@.len() == vals(r.0[1]@).len());
    lemma_phase(ctx, s, r);
    let v = phase(ctx.spec_table(), s, r);
    let product = plain_inner(ms, scalars, cs.len(), n);
    assert forall|k: int| 0 <= k < v.len() implies -1000000 <= #[trigger] noise_at(v, product, k)
        <= 1000000 by {}
    lemma_decrypt_carried(v, product);
}

/// The products of the scalars and the coefficients `i` of the plaintexts.
pub open spec fn inner_terms(ms: Seq<Seq<int>>, scalars: Seq<int>, i: int) -> Seq<int> {
    Seq::new(scalars.len(), |j: int| scalars[j] * ms[j][i])
}

/// A coefficient of the inner product of plaintexts and scalars is the
/// sum of the products of the scalars and the coefficients, modulo 61.
pub proof fn lemma_plain_inner_entry(ms: Seq<Seq<int>>, scalars: Seq<int>, k: nat, n: nat, i: int)
    requires
        k <= scalars.len(),
        0 <= i < n,
        forall|j: int| 0 <= j < k ==> (#[trigger] ms[j]).len() == n,
    ensures
        plain_inner(ms, scalars, k, n).len() == n,
        plain_inner(ms, scalars, k, n)[i] == total(inner_terms(ms, scalars, i), k) % 61,
    decreases k,
{
    if k == 0 {
        vstd::arithmetic::div_mod::lemma_small_mod(0, 61);
    } else {
        lemma_plain_inner_entry(ms, scalars, (k - 1) as nat, n, i);
        assert(ms[k - 1].len() == n);
        let before = total(inner_terms(ms, scalars, i), (k - 1) as nat);
        let term = ms[k - 1][i] * scalars[k - 1];
        assert(inner_terms(ms, scalars, i)[k - 1] == term) by (nonlinear_arith)
            requires
                inner_terms(ms, scalars, i)[k - 1] == scalars[k - 1] * ms[k - 1][i],
                term == ms[k - 1][i] * scalars[k - 1],
        ;
        vstd::arithmetic::div_mod::lemma_add_mod_noop(before, term, 61);
    }
}

/// A ciphertext that was encrypted anew carries the share of its node.
/// Let `c` be an encryption of the share `share` under a public key of
/// the node's secret key `sk`, and `r` an encryption, under a public key
/// of the secret key `sk_new`, of what `decrypt` gives for `c` under
/// `sk`, as `re_encrypt` makes it. Then `r` carries `share` under
/// `sk_new` with a noise of at most 43029.
pub proof fn lemma_re_encrypted_carries(
    ctx: BFVContext,
    sk: BFVSecretKey,
    pk: BFVPublicKey,
    sk_new: BFVSecretKey,
    pk_new: BFVPublicKey,
    share: Seq<int>,
    c: BFVCiphertext,
    r: BFVCiphertext,
)
    requires
        ctx.wf(),
        sk.wf(ctx.spec_rlwe_dimension() as nat),
        sk_new.wf(ctx.spec_rlwe_dimension() as nat),
        share.len() == ctx.spec_rlwe_dimension(),
        is_plain(share),
        c.0[0]@.len() == ctx.spec_rlwe_dimension(),
        c.0[1]@.len() == ctx.spec_rlwe_dimension(),
        r.0[0]@.len() == ctx.spec_rlwe_dimension(),
        r.0[1]@.len() == ctx.spec_rlwe_dimension(),
        is_public_key(ctx.spec_table(), vals(sk.spec_key()@), pk),
        is_encryption(ctx.spec_table(), pk, share, c),
        is_public_key(ctx.spec_table(), vals(sk_new.spec_key()@), pk_new),
        is_encryption(
            ctx.spec_table(),
            pk_new,
            lowered(phase(ctx.spec_table(), vals(sk.spec_key()@), c)),
            r,
        ),
    ensures
        carries(phase(ctx.spec_table(), vals(sk_new.spec_key()@), r), share, 43029),
{
    lemma_decrypt_of_encryption(ctx, sk, pk, share, c);
    lemma_fresh_carries(ctx, sk_new, pk_new, share, r);
}

/// The shares of some of the nodes are shares for these nodes:
/// `picked` holds the places of the nodes among all.
pub proof fn lemma_sharing_of_some(
    indices: Seq<int>,
    threshold: nat,
    secret: Seq<int>,
    shares: Seq<Seq<int>>,
    picked: Seq<int>,
)
    requires
        is_sharing(indices, threshold, secret, shares),
        forall|t: int| 0 <= t < picked.len() ==> 0 <= #[trigger] picked[t] < indices.len(),
    ensures
        is_sharing(
            Seq::new(picked.len(), |t: int| indices[picked[t]]),
            threshold,
            secret,
            Seq::new(picked.len(), |t: int| shares[picked[t]]),
        ),
{
    let polys = choose|polys: Seq<Seq<int>>| #[trigger]
        is_sharing_with(indices, threshold, secret, polys, shares);
    let chosen = Seq::new(picked.len(), |t: int| indices[picked[t]]);
    let chosen_shares = Seq::new(picked.len(), |t: int| shares[picked[t]]);
    assert forall|t: int, i: int|
        0 <= t < chosen_shares.len() && 0 <= i < secret.len() implies #[trigger] chosen_shares[t][i]
        == poly_eval(polys[i], chosen[t]) % 61 by {
        assert(shares[picked[t]][i] == poly_eval(polys[i], indices[picked[t]]) % 61);
    }
    assert forall|t: int| 0 <= t < chosen_shares.len() implies (#[trigger] chosen_shares[t]).len()
        == secret.len() by {
        assert(shares[picked[t]].len() == secret.len());
    }
    assert(is_sharing_with(chosen, threshold, secret, polys, chosen_shares));
}

/// **Threshold correctness within the budget.** Let `shares` be shares
/// of the plaintext `m` for nodes with the distinct indices `chosen`, at
/// least as many as the threshold, let every ciphertext `c_j` carry the
/// share `j` under the secret key `sk` with a noise of at most
/// `bound_j`, and let `r` be the combination of the ciphertexts, as
/// `combine` makes it for the indices `chosen`. If the sum of
/// `λ_j · bound_j + 31` over the nodes is at most one million, where
/// `λ_j` is the Lagrange coefficient of the index `j`, what `decrypt`
/// gives for `r` under `sk` is `m`.
pub proof fn lemma_decrypt_of_combination(
    ctx: BFVContext,
    sk: BFVSecretKey,
    chosen: Seq<int>,
    threshold: nat,
    m: Seq<int>,
    shares: Seq<Seq<int>>,
    cs: Seq<BFVCiphertext>,
    bounds: Seq<int>,
    r: BFVCiphertext,
)
    requires
        ctx.wf(),
        sk.wf(ctx.spec_rlwe_dimension() as nat),
        distinct_points(chosen, chosen.len()),
        1 <= threshold <= chosen.len(),
        m.len() == ctx.spec_rlwe_dimension(),
        is_plain(m),
        is_sharing(chosen, threshold, m, shares),
        cs.len() == chosen.len(),
        all_carry(ctx, vals(sk.spec_key()@), cs, shares, bounds),
        spent(bounds, weights(chosen, chosen.len()), chosen.len()) <= 1000000,
        vals(r.0[0]@) == inner_product(
            cs,
            weights(chosen, chosen.len()),
            cs.len(),
            0,
            ctx.spec_rlwe_dimension() as nat,
        ),
        vals(r.0[1]@) == inner_product(
            cs,
            weights(chosen, chosen.len()),
            cs.len(),
            1,
            ctx.spec_rlwe_dimension() as nat,
        ),
    ensures
        lowered(phase(ctx.spec_table(), vals(sk.spec_key()@), r)) == m,
{
    let k = chosen.len();
    let n = ctx.spec_rlwe_dimension() as nat;
    let lambda = weights(chosen, k);
    assert(all_scalars(lambda)) by {
        assert forall|j: int| 0 <= j < lambda.len() implies 0 <= #[trigger] lambda[j] < 61 by {
            lemma_weight_range(chosen, chosen[j], k);
        }
    }
    lemma_decrypt_of_inner_product(ctx, sk, cs, lambda, shares, bounds, r);
    let combined = plain_inner(shares, lambda, k, n);
    let polys = choose|polys: Seq<Seq<int>>| #[trigger]
        is_sharing_with(chosen, threshold, m, polys, shares);
    assert forall|j: int| 0 <= j < k implies (#[trigger] shares[j]).len() == n by {}
    assert forall|i: int| 0 <= i < n implies combined[i] == m[i] by {
        lemma_plain_inner_entry(shares, lambda, k, n, i);
        let f = polys[i];
        assert(f.len() == threshold && f[0] == m[i]);
        let exact = lagrange_terms(chosen, values_at(f, chosen, k), k);
        let terms = inner_terms(shares, lambda, i);
        assert forall|j: int| 0 <= j < k implies #[trigger] terms[j] % 61 == exact[j] % 61 by {
            let y = poly_eval(f, chosen[j]);
            assert(shares[j][i] == y % 61);
            vstd::arithmetic::div_mod::lemma_mod_twice(y, 61);
            crate::lemmas::lemma_congruence_mul(lambda[j], lambda[j], y % 61, y, 61);
        }
        lemma_total_congruent(terms, exact, k);
        lemma_interpolation(chosen, f, k);
        // the value at zero is the first coefficient
        assert(poly_eval(f, 0) == f[0] + 0 * poly_eval(f.skip(1), 0));
        assert(0 * poly_eval(f.skip(1), 0) == 0);
        assert(0 <= m[i] < 61);
        vstd::arithmetic::div_mod::lemma_small_mod(m[i] as nat, 61);
    }
    lemma_plain_inner_entry(shares, lambda, k, n, 0);
    assert(combined =~= m);
}

/// **The hybrid mode.** Let the bytes `sealed` open to the message `m`
/// under the key `key` and the nonce, as `encrypt_bytes` makes them, and
/// let the ciphertext `c` decrypt under `sk` to the plaintext of the
/// key. Then what `decrypt_bytes` gives for `c`, the nonce and `sealed`
/// under `sk` is `m`.
pub proof fn lemma_hybrid_round_trip(
    ctx: BFVContext,
    sk: BFVSecretKey,
    c: BFVCiphertext,
    key: Seq<u8>,
    nonce: Seq<u8>,
    sealed: Seq<u8>,
    m: Seq<u8>,
)
    requires
        key.len() == 32,
        crate::bfv::aead::aead_open(key, nonce, sealed) == Some(m),
        lowered(phase(ctx.spec_table(), vals(sk.spec_key()@), c)) == crate::bfv::tpke::key_plain(
            key,
        ),
    ensures
        crate::bfv::aead::aead_open(
            crate::bfv::tpke::plain_key(
                lowered(phase(ctx.spec_table(), vals(sk.spec_key()@), c)),
            ),
            nonce,
            sealed,
        ) == Some(m),
{
    crate::bfv::tpke::lemma_key_round_trip(key);
}

} // verus!
