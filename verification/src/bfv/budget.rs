//! The noise of a ciphertext, and how the linear operations spend it.
//!
//! A ciphertext `(c0, c1)` carries a plaintext `m` under a secret key `s`
//! where every coefficient of `c0 + c1·s` is the coefficient of `m`
//! scaled up, and a noise. Decryption gives `m` back as long as the noise
//! is at most one million, which is less than half a step of the scaling.
//! The sum of two ciphertexts carries the sum of the plaintexts and the
//! sum of the noises; a ciphertext times a scalar carries the plaintext
//! times the scalar, and the noise times the scalar.

use crate::bfv::correctness::{centered, decryption_input, lemma_congruence_add};
use crate::bfv::scheme::{cipher_modulus, lemma_rounding, lowered, scaled_up};
use crate::lemmas::{lemma_congruence_mul, lemma_mod_unique, lemma_sub_multiple};
use crate::polynomial::elementwise::{seq_add, seq_scale};
use crate::transformation::convolution::{conv_sum, wrapped};
use vstd::arithmetic::div_mod::{
    lemma_mod_bound,
    lemma_mod_twice,
    lemma_small_mod,
    lemma_sub_mod_noop,
};
use vstd::prelude::*;

verus! {

/// How far the residue `x` is from `c` modulo `q`: the difference
/// nearest to zero.
pub open spec fn offset(x: int, c: int) -> int {
    centered((x - c) % (cipher_modulus() as int), cipher_modulus() as int)
}

/// The noise of the coefficient `k` of `v` as a carrier of `m`.
pub open spec fn noise_at(v: Seq<int>, m: Seq<int>, k: int) -> int {
    offset(v[k], scaled_up(m[k] as nat) as int)
}

/// `v` carries the plaintext `m` with a noise of size at most `bound`.
pub open spec fn carries(v: Seq<int>, m: Seq<int>, bound: int) -> bool {
    &&& v.len() == m.len()
    &&& forall|k: int| 0 <= k < v.len() ==> -bound <= #[trigger] noise_at(v, m, k) <= bound
}

/// The coefficients of a plaintext: numbers below 61.
pub open spec fn is_plain(m: Seq<int>) -> bool {
    forall|k: int| 0 <= k < m.len() ==> 0 <= #[trigger] m[k] < 61
}

/// `x` is `c` and its offset, modulo `q`.
pub proof fn lemma_offset(x: int, c: int)
    ensures
        x % (cipher_modulus() as int) == (c + offset(x, c)) % (cipher_modulus() as int),
{
    let q = cipher_modulus() as int;
    let d = (x - c) % q;
    lemma_mod_bound(x - c, q);
    lemma_mod_twice(x - c, q);
    lemma_congruence_add(c, c, d, x - c, q);
    if 2 * d > q {
        lemma_sub_multiple(c + d, 1, q);
    }
}

/// A small difference is the offset.
pub proof fn lemma_offset_unique(x: int, c: int, nu: int)
    requires
        x % (cipher_modulus() as int) == (c + nu) % (cipher_modulus() as int),
        -66060288 <= nu <= 66060288,
    ensures
        offset(x, c) == nu,
{
    let q = cipher_modulus() as int;
    lemma_sub_mod_noop(x, c, q);
    lemma_sub_mod_noop(c + nu, c, q);
    assert((x - c) % q == nu % q);
    if nu >= 0 {
        lemma_small_mod(nu as nat, q as nat);
    } else {
        lemma_mod_unique(nu, nu + q, -1, q);
    }
}

/// A plaintext coefficient scaled up, times 61, is within 30 of `q` times the coefficient.
pub proof fn lemma_scaled_exact(m: nat) -> (rho: int)
    requires
        m < 61,
    ensures
        61 * scaled_up(m) == cipher_modulus() * m + rho,
        -30 <= rho <= 30,
{
    let q = 132120577int;
    if m > 30 {
        let k = (61 - m) as int;
        let r = (q * k + 30) / 61;
        assert(61 * r <= q * k + 30 < 61 * r + 61);
        assert(0 < r < q);
        assert(scaled_up(m) == q - r);
        61 * (q - r) - q * m
    } else {
        let r = (q * m + 30) / 61;
        assert(61 * r <= q * m + 30 < 61 * r + 61);
        assert(0 <= r < q);
        assert(scaled_up(m) == r);
        61 * r - q * m
    }
}

/// The sum of two plaintext coefficients scaled up is within one of
/// their sum scaled up.
pub proof fn lemma_sum_rounding(m1: nat, m2: nat) -> (r: int)
    requires
        m1 < 61,
        m2 < 61,
    ensures
        -1 <= r <= 1,
        ((scaled_up(m1) + scaled_up(m2)) as int) % (cipher_modulus() as int) == (scaled_up(
            (m1 + m2) % 61,
        ) + r) % (cipher_modulus() as int),
{
    let q = 132120577int;
    let m3 = (m1 + m2) % 61;
    let w = ((m1 + m2) / 61) as int;
    let rho1 = lemma_scaled_exact(m1);
    let rho2 = lemma_scaled_exact(m2);
    let rho3 = lemma_scaled_exact(m3);
    let r = scaled_up(m1) + scaled_up(m2) - scaled_up(m3) - q * w;
    assert(61 * r == rho1 + rho2 - rho3);
    lemma_sub_multiple((scaled_up(m1) + scaled_up(m2)) as int, w, q);
    assert(scaled_up(m1) + scaled_up(m2) - w * q == scaled_up(m3) + r);
    r
}

/// A plaintext coefficient scaled up, times a scalar, is within 30 of
/// their product scaled up.
pub proof fn lemma_scale_rounding(m: nat, alpha: nat) -> (r: int)
    requires
        m < 61,
        alpha < 61,
    ensures
        -30 <= r <= 30,
        ((scaled_up(m) * alpha) as int) % (cipher_modulus() as int) == (scaled_up(
            (m * alpha) % 61,
        ) + r) % (cipher_modulus() as int),
{
    let q = 132120577int;
    let product = m * alpha;
    assert(0 <= product <= 3600) by (nonlinear_arith)
        requires
            m < 61,
            alpha < 61,
            product == m * alpha,
    ;
    let m3 = product % 61;
    let w = (product / 61) as int;
    let rho = lemma_scaled_exact(m);
    let rho3 = lemma_scaled_exact(m3);
    let up = scaled_up(m) as int;
    let r = up * alpha - scaled_up(m3) - q * w;
    assert(61 * (up * alpha) == q * product + rho * alpha) by (nonlinear_arith)
        requires
            61 * up == q * m + rho,
            product == m * alpha,
    ;
    assert(-1800 <= rho * alpha <= 1800) by (nonlinear_arith)
        requires
            -30 <= rho <= 30,
            0 <= alpha <= 60,
    ;
    assert(61 * r == rho * alpha - rho3);
    lemma_sub_multiple(up * alpha, w, q);
    assert(up * alpha - w * q == scaled_up(m3) + r);
    r
}

/// **Decryption within the budget.** Where `v` carries `m` with a noise
/// of at most one million, its coefficients scaled down are `m`.
pub proof fn lemma_decrypt_carried(v: Seq<int>, m: Seq<int>)
    requires
        carries(v, m, 1000000),
        is_plain(m),
        forall|k: int| 0 <= k < v.len() ==> 0 <= #[trigger] v[k] < cipher_modulus(),
    ensures
        lowered(v) == m,
{
    let q = cipher_modulus() as int;
    assert forall|k: int| 0 <= k < v.len() implies lowered(v)[k] == m[k] by {
        let nu = noise_at(v, m, k);
        assert(0 <= m[k] < 61);
        lemma_offset(v[k], scaled_up(m[k] as nat) as int);
        lemma_small_mod(v[k] as nat, q as nat);
        lemma_rounding(m[k] as nat, nu);
    }
    assert(lowered(v) =~= m);
}

/// The sum of two carriers carries the sum of the plaintexts, and a
/// noise of at most the sum of the two bounds and one.
pub proof fn lemma_carried_sum(
    v: Seq<int>,
    w: Seq<int>,
    m1: Seq<int>,
    m2: Seq<int>,
    b1: int,
    b2: int,
)
    requires
        carries(v, m1, b1),
        carries(w, m2, b2),
        v.len() == w.len(),
        is_plain(m1),
        is_plain(m2),
        0 <= b1,
        0 <= b2,
        b1 + b2 + 1 <= 66060288,
    ensures
        carries(seq_add(v, w, cipher_modulus() as int), seq_add(m1, m2, 61), b1 + b2 + 1),
        is_plain(seq_add(m1, m2, 61)),
{
    let q = cipher_modulus() as int;
    let sum = seq_add(v, w, q);
    let m3 = seq_add(m1, m2, 61);
    assert forall|k: int| 0 <= k < sum.len() implies -(b1 + b2 + 1) <= #[trigger] noise_at(
        sum,
        m3,
        k,
    ) <= b1 + b2 + 1 by {
        let nu1 = noise_at(v, m1, k);
        let nu2 = noise_at(w, m2, k);
        assert(0 <= m1[k] < 61);
        assert(0 <= m2[k] < 61);
        let up1 = scaled_up(m1[k] as nat) as int;
        let up2 = scaled_up(m2[k] as nat) as int;
        let up3 = scaled_up(m3[k] as nat) as int;
        lemma_offset(v[k], up1);
        lemma_offset(w[k], up2);
        let r = lemma_sum_rounding(m1[k] as nat, m2[k] as nat);
        lemma_congruence_add(v[k], up1 + nu1, w[k], up2 + nu2, q);
        lemma_congruence_add(up1 + up2, up3 + r, nu1 + nu2, nu1 + nu2, q);
        lemma_mod_twice(v[k] + w[k], q);
        lemma_offset_unique(sum[k], up3, r + nu1 + nu2);
    }
}

/// A carrier times a scalar carries the plaintext times the scalar, and
/// a noise of at most the bound times the scalar and 30.
pub proof fn lemma_carried_scaled(v: Seq<int>, m: Seq<int>, alpha: int, bound: int)
    requires
        carries(v, m, bound),
        is_plain(m),
        0 <= alpha < 61,
        0 <= bound,
        alpha * bound + 30 <= 66060288,
    ensures
        carries(
            seq_scale(v, alpha, cipher_modulus() as int),
            seq_scale(m, alpha, 61),
            alpha * bound + 30,
        ),
        is_plain(seq_scale(m, alpha, 61)),
{
    let q = cipher_modulus() as int;
    let scaled = seq_scale(v, alpha, q);
    let m3 = seq_scale(m, alpha, 61);
    assert forall|k: int| 0 <= k < scaled.len() implies -(alpha * bound + 30) <= #[trigger] noise_at(
        scaled,
        m3,
        k,
    ) <= alpha * bound + 30 by {
        let nu = noise_at(v, m, k);
        assert(0 <= m[k] < 61);
        let up = scaled_up(m[k] as nat) as int;
        let up3 = scaled_up(m3[k] as nat) as int;
        lemma_offset(v[k], up);
        let r = lemma_scale_rounding(m[k] as nat, alpha as nat);
        lemma_congruence_mul(v[k], up + nu, alpha, alpha, q);
        assert((up + nu) * alpha == up * alpha + nu * alpha) by (nonlinear_arith);
        lemma_congruence_add(up * alpha, up3 + r, nu * alpha, nu * alpha, q);
        lemma_mod_twice(v[k] * alpha, q);
        assert(-(alpha * bound) <= nu * alpha <= alpha * bound) by (nonlinear_arith)
            requires
                -bound <= nu <= bound,
                0 <= alpha,
        ;
        lemma_offset_unique(scaled[k], up3, r + nu * alpha);
    }
}

/// The sums of the convolution are additive in the first sequence.
pub proof fn lemma_conv_of_sum(a: Seq<int>, b: Seq<int>, s: Seq<int>, k: int, m: nat)
    requires
        a.len() == s.len(),
        b.len() == s.len(),
        0 <= k < s.len(),
        m <= s.len(),
    ensures
        conv_sum(seq_add(a, b, cipher_modulus() as int), s, k, m) % (cipher_modulus() as int) == (
        conv_sum(a, s, k, m) + conv_sum(b, s, k, m)) % (cipher_modulus() as int),
    decreases m,
{
    let q = cipher_modulus() as int;
    let z = seq_add(a, b, q);
    if m > 0 {
        let i = m - 1;
        let w = wrapped(s, i, k);
        lemma_conv_of_sum(a, b, s, k, (m - 1) as nat);
        lemma_mod_twice(a[i] + b[i], q);
        lemma_congruence_mul(z[i], a[i] + b[i], w, w, q);
        lemma_congruence_add(
            conv_sum(z, s, k, (m - 1) as nat),
            conv_sum(a, s, k, (m - 1) as nat) + conv_sum(b, s, k, (m - 1) as nat),
            z[i] * w,
            (a[i] + b[i]) * w,
            q,
        );
        assert((a[i] + b[i]) * w == a[i] * w + b[i] * w) by (nonlinear_arith);
    }
}

/// The sums of the convolution are homogeneous in the first sequence.
pub proof fn lemma_conv_of_scaled(a: Seq<int>, c: int, s: Seq<int>, k: int, m: nat)
    requires
        a.len() == s.len(),
        0 <= k < s.len(),
        m <= s.len(),
    ensures
        conv_sum(seq_scale(a, c, cipher_modulus() as int), s, k, m) % (cipher_modulus() as int)
            == (conv_sum(a, s, k, m) * c) % (cipher_modulus() as int),
    decreases m,
{
    let q = cipher_modulus() as int;
    let z = seq_scale(a, c, q);
    if m > 0 {
        let i = m - 1;
        let w = wrapped(s, i, k);
        lemma_conv_of_scaled(a, c, s, k, (m - 1) as nat);
        lemma_mod_twice(a[i] * c, q);
        lemma_congruence_mul(z[i], a[i] * c, w, w, q);
        lemma_congruence_add(
            conv_sum(z, s, k, (m - 1) as nat),
            conv_sum(a, s, k, (m - 1) as nat) * c,
            z[i] * w,
            (a[i] * c) * w,
            q,
        );
        assert((conv_sum(a, s, k, (m - 1) as nat) + a[i] * w) * c == conv_sum(
            a,
            s,
            k,
            (m - 1) as nat,
        ) * c + (a[i] * c) * w) by (nonlinear_arith);
    }
}

/// What decryption scales down is additive in the ciphertext.
pub proof fn lemma_phase_of_sum(c0: Seq<int>, c1: Seq<int>, d0: Seq<int>, d1: Seq<int>, s: Seq<int>)
    requires
        c0.len() == s.len(),
        c1.len() == s.len(),
        d0.len() == s.len(),
        d1.len() == s.len(),
    ensures
        decryption_input(
            seq_add(c0, d0, cipher_modulus() as int),
            seq_add(c1, d1, cipher_modulus() as int),
            s,
        ) == seq_add(
            decryption_input(c0, c1, s),
            decryption_input(d0, d1, s),
            cipher_modulus() as int,
        ),
{
    let q = cipher_modulus() as int;
    let n = s.len();
    let left = decryption_input(seq_add(c0, d0, q), seq_add(c1, d1, q), s);
    let right = seq_add(decryption_input(c0, c1, s), decryption_input(d0, d1, s), q);
    assert forall|k: int| 0 <= k < n implies left[k] == right[k] by {
        let x = conv_sum(c1, s, k, n);
        let y = conv_sum(d1, s, k, n);
        let z = conv_sum(seq_add(c1, d1, q), s, k, n);
        lemma_conv_of_sum(c1, d1, s, k, n);
        lemma_mod_twice(z, q);
        lemma_mod_twice(c0[k] + d0[k], q);
        lemma_congruence_add((c0[k] + d0[k]) % q, c0[k] + d0[k], z % q, x + y, q);
        lemma_mod_twice(x, q);
        lemma_mod_twice(y, q);
        lemma_congruence_add(c0[k], c0[k], x % q, x, q);
        lemma_congruence_add(d0[k], d0[k], y % q, y, q);
        lemma_mod_twice(c0[k] + x % q, q);
        lemma_mod_twice(d0[k] + y % q, q);
        lemma_congruence_add((c0[k] + x % q) % q, c0[k] + x, (d0[k] + y % q) % q, d0[k] + y, q);
    }
    assert(left =~= right);
}

/// What decryption scales down is homogeneous in the ciphertext.
pub proof fn lemma_phase_of_scaled(c0: Seq<int>, c1: Seq<int>, alpha: int, s: Seq<int>)
    requires
        c0.len() == s.len(),
        c1.len() == s.len(),
    ensures
        decryption_input(
            seq_scale(c0, alpha, cipher_modulus() as int),
            seq_scale(c1, alpha, cipher_modulus() as int),
            s,
        ) == seq_scale(decryption_input(c0, c1, s), alpha, cipher_modulus() as int),
{
    let q = cipher_modulus() as int;
    let n = s.len();
    let left = decryption_input(seq_scale(c0, alpha, q), seq_scale(c1, alpha, q), s);
    let right = seq_scale(decryption_input(c0, c1, s), alpha, q);
    assert forall|k: int| 0 <= k < n implies left[k] == right[k] by {
        let x = conv_sum(c1, s, k, n);
        let z = conv_sum(seq_scale(c1, alpha, q), s, k, n);
        lemma_conv_of_scaled(c1, alpha, s, k, n);
        lemma_mod_twice(z, q);
        lemma_mod_twice(c0[k] * alpha, q);
        lemma_congruence_add((c0[k] * alpha) % q, c0[k] * alpha, z % q, x * alpha, q);
        lemma_mod_twice(x, q);
        lemma_congruence_add(c0[k], c0[k], x % q, x, q);
        lemma_mod_twice(c0[k] + x % q, q);
        lemma_congruence_mul((c0[k] + x % q) % q, c0[k] + x, alpha, alpha, q);
        assert((c0[k] + x) * alpha == c0[k] * alpha + x * alpha) by (nonlinear_arith);
    }
    assert(left =~= right);
}

/// A sequence of zeros carries the plaintext zero without noise.
pub proof fn lemma_zero_carries(n: nat, s: Seq<int>)
    requires
        s.len() == n,
    ensures
        decryption_input(Seq::new(n, |i: int| 0int), Seq::new(n, |i: int| 0int), s) == Seq::new(
            n,
            |i: int| 0int,
        ),
        carries(Seq::new(n, |i: int| 0int), Seq::new(n, |i: int| 0int), 0),
        is_plain(Seq::new(n, |i: int| 0int)),
{
    let q = cipher_modulus() as int;
    let zero = Seq::new(n, |i: int| 0int);
    let left = decryption_input(zero, zero, s);
    assert forall|k: int| 0 <= k < n implies left[k] == 0 by {
        lemma_conv_of_zero(s, k, n);
    }
    assert(left =~= zero);
    assert forall|k: int| 0 <= k < n implies noise_at(zero, zero, k) == 0 by {
        assert(scaled_up(0) == 0);
    }
}

/// The sums of the convolution of zeros are zero.
pub proof fn lemma_conv_of_zero(s: Seq<int>, k: int, m: nat)
    requires
        0 <= k < s.len(),
        m <= s.len(),
    ensures
        conv_sum(Seq::new(s.len(), |i: int| 0int), s, k, m) == 0,
    decreases m,
{
    if m > 0 {
        lemma_conv_of_zero(s, k, (m - 1) as nat);
        assert(0 * wrapped(s, m - 1, k) == 0);
    }
}

} // verus!
