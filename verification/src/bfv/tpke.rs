//! Threshold encryption: a plaintext is shared among the nodes by
//! Shamir's method, and every share is encrypted for its node.

use crate::bfv::aead::{aead_open, aead_seal, generate_key, generate_nonce, key_bits, open, seal};
use crate::bfv::ciphertext::{BFVCiphertext, CipherField, DIMENSION_N};
use crate::bfv::context::BFVContext;
use crate::bfv::interpolation::{inverse, lemma_cancel, lemma_inverse, weight, weights};
use crate::bfv::plaintext::{
    lemma_plain_coprime, lemma_plain_product_nonzero, BFVPlaintext, PlainField,
};
use crate::bfv::publickey::BFVPublicKey;
use crate::bfv::scheme::{
    ciphertext_wf,
    inner_product,
    is_encryption,
    lowered,
    phase,
    plaintext_wf,
    BFVScheme,
};
use crate::bfv::secretkey::{is_public_key, BFVSecretKey};
use crate::bfv::MAX_NODES_NUMBER;
use crate::error::AlgebraError;
use crate::field::{canonical, fval, Field, FieldCore};
use crate::polynomial::elementwise::all_canonical;
use crate::polynomial::native_polynomial::poly_eval;
use crate::polynomial::Polynomial;
use crate::transformation::ntt_table::vals;
use vstd::arithmetic::power2::{lemma2_to64, lemma_pow2_pos, lemma_pow2_unfold, pow2};
use vstd::prelude::*;

verus! {

/// The policy of a threshold encryption: how many nodes there are, how
/// many of them it takes, and the index of every node.
#[derive(Clone, Debug)]
pub struct ThresholdPolicy {
    total_number: usize,
    threshold_number: usize,
    indices: Vec<PlainField>,
}

/// No element of the sequence is zero, and every element is canonical.
pub open spec fn all_nonzero(s: Seq<PlainField>) -> bool {
    forall|i: int| 0 <= i < s.len() ==> 0 < fval(#[trigger] s[i]) < 61
}

/// The numbers that the polynomials stand for, polynomial by polynomial.
pub open spec fn share_values(shares: Seq<Polynomial<PlainField>>) -> Seq<Seq<int>> {
    Seq::new(shares.len(), |j: int| vals(shares[j]@))
}

/// `shares` are the shares of the plaintext `secret` for the nodes with
/// the indices `indices`, made with the polynomials `polys`: the
/// polynomial `i` has `threshold` coefficients and the value `secret[i]`
/// at zero, and the coefficient `i` of the share `j` is its value at
/// the index `j`.
pub open spec fn is_sharing_with(
    indices: Seq<int>,
    threshold: nat,
    secret: Seq<int>,
    polys: Seq<Seq<int>>,
    shares: Seq<Seq<int>>,
) -> bool {
    &&& polys.len() == secret.len()
    &&& shares.len() == indices.len()
    &&& forall|i: int|
        0 <= i < secret.len() ==> (#[trigger] polys[i]).len() == threshold && polys[i][0]
            == secret[i]
    &&& forall|j: int| 0 <= j < shares.len() ==> (#[trigger] shares[j]).len() == secret.len()
    &&& forall|j: int, i: int|
        0 <= j < shares.len() && 0 <= i < secret.len() ==> #[trigger] shares[j][i] == poly_eval(
            polys[i],
            indices[j],
        ) % 61
}

/// `shares` are shares of the plaintext `secret` for the nodes with the
/// indices `indices`: the values of some polynomials with `threshold`
/// coefficients, one for every coefficient of the plaintext and with
/// that coefficient as its value at zero.
pub open spec fn is_sharing(
    indices: Seq<int>,
    threshold: nat,
    secret: Seq<int>,
    shares: Seq<Seq<int>>,
) -> bool {
    exists|polys: Seq<Seq<int>>| #[trigger] is_sharing_with(indices, threshold, secret, polys, shares)
}

/// `c` holds, for every node, an encryption under the public key of the
/// node of its share of the plaintext `m`.
pub open spec fn is_encrypted_sharing(
    table: crate::transformation::NTTTable<CipherField>,
    indices: Seq<int>,
    threshold: nat,
    pks: Seq<BFVPublicKey>,
    m: Seq<int>,
    shares: Seq<Seq<int>>,
    c: Seq<BFVCiphertext>,
) -> bool {
    &&& is_sharing(indices, threshold, m, shares)
    &&& c.len() == shares.len()
    &&& pks.len() == shares.len()
    &&& forall|j: int| 0 <= j < c.len() ==> is_encryption(table, pks[j], shares[j], #[trigger] c[j])
}

impl ThresholdPolicy {
    /// The number of nodes.
    pub closed spec fn spec_total_number(self) -> usize {
        self.total_number
    }

    /// The number of nodes that it takes to decrypt.
    pub closed spec fn spec_threshold_number(self) -> usize {
        self.threshold_number
    }

    /// The indices of the nodes.
    pub closed spec fn spec_indices(self) -> Seq<PlainField> {
        self.indices@
    }

    /// There is an index for every node, none of them zero; the threshold
    /// is at most the number of nodes, which is at most the largest allowed.
    pub open spec fn wf(self) -> bool {
        &&& self.spec_indices().len() == self.spec_total_number()
        &&& all_nonzero(self.spec_indices())
        &&& self.spec_threshold_number() <= self.spec_total_number()
        &&& self.spec_total_number() <= MAX_NODES_NUMBER
    }

    /// The policy of `total_number` nodes with the indices `indices`, of
    /// which it takes `threshold_number`.
    pub fn new(total_number: usize, threshold_number: usize, indices: Vec<PlainField>) -> (policy:
        Self)
        requires
            indices@.len() == total_number,
            all_nonzero(indices@),
            threshold_number <= total_number,
            total_number <= MAX_NODES_NUMBER,
        ensures
            policy.wf(),
            policy.spec_total_number() == total_number,
            policy.spec_threshold_number() == threshold_number,
            policy.spec_indices() == indices@,
    {
        ThresholdPolicy { total_number, threshold_number, indices }
    }

    /// Returns the number of nodes.
    pub fn total_number(&self) -> (n: usize)
        ensures
            n == self.spec_total_number(),
    {
        self.total_number
    }

    /// Returns the number of nodes that it takes to decrypt.
    pub fn threshold_number(&self) -> (k: usize)
        ensures
            k == self.spec_threshold_number(),
    {
        self.threshold_number
    }

    /// Returns the indices of the nodes.
    pub fn indices(&self) -> (indices: &[PlainField])
        ensures
            indices@ == self.spec_indices(),
    {
        self.indices.as_slice()
    }

    /// The shares of one coefficient: the values of the polynomial `poly`
    /// at the indices of the nodes. The coefficient is `poly(0)`.
    pub fn share_coefficient(&self, poly: &Polynomial<PlainField>) -> (shares: Vec<PlainField>)
        ensures
            shares@.len() == self.spec_indices().len(),
            forall|j: int|
                0 <= j < shares@.len() ==> fval(#[trigger] shares@[j]) == poly_eval(
                    vals(poly@),
                    fval(self.spec_indices()[j]) as int,
                ) % 61,
    {
        let n = self.indices.len();
        let mut shares: Vec<PlainField> = Vec::new();
        let mut j: usize = 0;
        while j < n
            invariant
                j <= n,
                n == self.indices@.len(),
                shares@.len() == j,
                forall|i: int|
                    0 <= i < j ==> fval(#[trigger] shares@[i]) == poly_eval(
                        vals(poly@),
                        fval(self.indices@[i]) as int,
                    ) % 61,
            decreases n - j,
        {
            shares.push(poly.evaluate(self.indices[j]));
            j = j + 1;
        }
        shares
    }

    /// Shares a polynomial among the nodes: for every coefficient a random
    /// polynomial of degree below the threshold is drawn, with the
    /// coefficient as its value at zero, and the node `j` gets its value at
    /// the index of the node. The result holds a polynomial for every node.
    pub fn secret_sharing(
        &self,
        secret: &Polynomial<PlainField>,
        rng: &mut rand_chacha::ChaCha12Rng,
    ) -> (shares: Vec<Polynomial<PlainField>>)
        requires
            self.wf(),
            self.spec_threshold_number() >= 1,
        ensures
            shares@.len() == self.spec_total_number(),
            forall|j: int|
                0 <= j < shares@.len() ==> (#[trigger] shares@[j])@.len() == secret@.len()
                    && all_canonical(shares@[j]@),
            is_sharing(
                vals(self.spec_indices()),
                self.spec_threshold_number() as nat,
                vals(secret@),
                share_values(shares@),
            ),
    {
        let count = secret.coeff_count();
        let n = self.total_number;
        let ghost indices = vals(self.indices@);
        let ghost mut polys: Seq<Seq<int>> = Seq::empty();
        let mut columns: Vec<Vec<PlainField>> = Vec::new();
        let mut j: usize = 0;
        while j < n
            invariant
                j <= n,
                columns@.len() == j,
                forall|k: int| 0 <= k < j ==> (#[trigger] columns@[k])@.len() == 0,
            decreases n - j,
        {
            columns.push(Vec::new());
            j = j + 1;
        }
        let mut i: usize = 0;
        while i < count
            invariant
                i <= count,
                count == secret@.len(),
                self.wf(),
                self.spec_threshold_number() >= 1,
                n == self.spec_total_number(),
                indices == vals(self.spec_indices()),
                columns@.len() == n,
                forall|k: int|
                    0 <= k < n ==> (#[trigger] columns@[k])@.len() == i && all_canonical(
                        columns@[k]@,
                    ),
                polys.len() == i,
                forall|h: int|
                    0 <= h < i ==> (#[trigger] polys[h]).len() == self.spec_threshold_number()
                        && polys[h][0] == vals(secret@)[h],
                forall|k: int, h: int|
                    0 <= k < n && 0 <= h < i ==> fval(#[trigger] columns@[k]@[h]) == poly_eval(
                        polys[h],
                        indices[k],
                    ) % 61,
            decreases count - i,
        {
            let mut poly = Polynomial::<PlainField>::random(self.threshold_number, rng);
            poly.set(0, secret.get(i));
            let values = self.share_coefficient(&poly);
            let ghost drawn = vals(poly@);
            let ghost before = polys;
            proof {
                polys = polys.push(drawn);
                assert forall|h: int| 0 <= h <= i implies (#[trigger] polys[h]).len()
                    == self.spec_threshold_number() && polys[h][0] == vals(secret@)[h] by {
                    if h < i {
                        assert(polys[h] == before[h]);
                    }
                }
            }
            let mut next: Vec<Vec<PlainField>> = Vec::new();
            let mut k: usize = 0;
            while k < n
                invariant
                    k <= n,
                    i < count,
                    n == columns@.len(),
                    n == values@.len(),
                    n == self.spec_indices().len(),
                    indices == vals(self.spec_indices()),
                    next@.len() == k,
                    polys == before.push(drawn),
                    before.len() == i,
                    forall|l: int|
                        0 <= l < n ==> (#[trigger] columns@[l])@.len() == i && all_canonical(
                            columns@[l]@,
                        ),
                    forall|l: int, h: int|
                        0 <= l < n && 0 <= h < i ==> fval(#[trigger] columns@[l]@[h]) == poly_eval(
                            before[h],
                            indices[l],
                        ) % 61,
                    forall|l: int|
                        0 <= l < n ==> fval(#[trigger] values@[l]) == poly_eval(drawn, indices[l])
                            % 61,
                    forall|l: int|
                        0 <= l < k ==> (#[trigger] next@[l])@.len() == i + 1 && all_canonical(
                            next@[l]@,
                        ),
                    forall|l: int, h: int|
                        0 <= l < k && 0 <= h <= i ==> fval(#[trigger] next@[l]@[h]) == poly_eval(
                            polys[h],
                            indices[l],
                        ) % 61,
                decreases n - k,
            {
                let mut column = crate::polynomial::elementwise::copied(columns[k].as_slice());
                column.push(values[k]);
                proof {
                    vstd::arithmetic::div_mod::lemma_mod_bound(
                        poly_eval(drawn, indices[k as int]),
                        61,
                    );
                    assert forall|l: int| 0 <= l < column@.len() implies canonical(
                        #[trigger] column@[l],
                    ) by {
                        if l < i {
                            assert(column@[l] == columns@[k as int]@[l]);
                            assert(canonical(columns@[k as int]@[l]));
                        } else {
                            assert(column@[l] == values@[k as int]);
                        }
                    }
                    assert forall|h: int| 0 <= h <= i implies fval(#[trigger] column@[h])
                        == poly_eval(polys[h], indices[k as int]) % 61 by {
                        if h < i {
                            assert(column@[h] == columns@[k as int]@[h]);
                            assert(polys[h] == before[h]);
                        } else {
                            assert(column@[h] == values@[k as int]);
                        }
                    }
                }
                next.push(column);
                k = k + 1;
            }
            columns = next;
            i = i + 1;
        }
        let mut shares: Vec<Polynomial<PlainField>> = Vec::new();
        let mut k: usize = 0;
        while k < n
            invariant
                k <= n,
                n == columns@.len(),
                shares@.len() == k,
                forall|l: int|
                    0 <= l < n ==> (#[trigger] columns@[l])@.len() == count && all_canonical(
                        columns@[l]@,
                    ),
                forall|l: int| 0 <= l < k ==> (#[trigger] shares@[l])@ == columns@[l]@,
            decreases n - k,
        {
            let column = crate::polynomial::elementwise::copied(columns[k].as_slice());
            shares.push(Polynomial::new(column));
            k = k + 1;
        }
        proof {
            let values = share_values(shares@);
            assert forall|l: int, h: int|
                0 <= l < values.len() && 0 <= h < vals(secret@).len() implies #[trigger] values[l][h]
                == poly_eval(polys[h], indices[l]) % 61 by {
                assert(shares@[l]@ == columns@[l]@);
                assert(values[l][h] == fval(columns@[l]@[h]));
            }
            assert forall|l: int| 0 <= l < values.len() implies (#[trigger] values[l]).len()
                == vals(secret@).len() by {
                assert(shares@[l]@ == columns@[l]@);
            }
            assert(is_sharing_with(
                indices,
                self.spec_threshold_number() as nat,
                vals(secret@),
                polys,
                values,
            ));
            assert forall|l: int| 0 <= l < shares@.len() implies (#[trigger] shares@[l])@.len()
                == secret@.len() && all_canonical(shares@[l]@) by {
                assert(shares@[l]@ == columns@[l]@);
            }
        }
        shares
    }
}

/// The numerator of the Lagrange coefficient of `point` among the first
/// `k` indices: the product of `-x` over the indices `x` other than `point`.
pub open spec fn lagrange_numerator(s: Seq<int>, point: int, k: nat) -> int
    decreases k,
{
    if k == 0 {
        1
    } else if s[k - 1] == point {
        lagrange_numerator(s, point, (k - 1) as nat)
    } else {
        (lagrange_numerator(s, point, (k - 1) as nat) * ((-s[k - 1]) % 61)) % 61
    }
}

/// The denominator of the Lagrange coefficient of `point` among the first
/// `k` indices: the product of `point - x` over the indices `x` other than `point`.
pub open spec fn lagrange_denominator(s: Seq<int>, point: int, k: nat) -> int
    decreases k,
{
    if k == 0 {
        1
    } else if s[k - 1] == point {
        lagrange_denominator(s, point, (k - 1) as nat)
    } else {
        (lagrange_denominator(s, point, (k - 1) as nat) * ((point - s[k - 1]) % 61)) % 61
    }
}

/// A Lagrange coefficient is its numerator over its denominator: the
/// coefficient times the denominator is the numerator, and the
/// denominator is not zero.
pub proof fn lemma_weight_fraction(s: Seq<int>, point: int, k: nat)
    requires
        k <= s.len(),
        0 < point < 61,
        forall|i: int| 0 <= i < k ==> 0 < #[trigger] s[i] < 61,
    ensures
        0 < lagrange_denominator(s, point, k) < 61,
        0 <= lagrange_numerator(s, point, k) < 61,
        (weight(s, point, k) * lagrange_denominator(s, point, k)) % 61 == lagrange_numerator(
            s,
            point,
            k,
        ),
    decreases k,
{
    if k == 0 {
        vstd::arithmetic::div_mod::lemma_small_mod(1, 61);
    } else {
        lemma_weight_fraction(s, point, (k - 1) as nat);
        let x = s[k - 1];
        assert(0 < x < 61);
        if x != point {
            let w0 = weight(s, point, (k - 1) as nat);
            let d0 = lagrange_denominator(s, point, (k - 1) as nat);
            let n0 = lagrange_numerator(s, point, (k - 1) as nat);
            let d = point - x;
            let inv = inverse(d);
            crate::bfv::interpolation::lemma_difference(point, x);
            lemma_inverse(d);
            vstd::arithmetic::div_mod::lemma_mod_bound(d, 61);
            vstd::arithmetic::div_mod::lemma_mod_bound(-x, 61);
            lemma_plain_product_nonzero(d0 as nat, (d % 61) as nat);
            vstd::arithmetic::div_mod::lemma_mod_bound(d0 * (d % 61), 61);
            vstd::arithmetic::div_mod::lemma_mod_bound(n0 * ((-x) % 61), 61);
            let w = weight(s, point, k);
            let den = lagrange_denominator(s, point, k);
            vstd::arithmetic::div_mod::lemma_mod_twice(d, 61);
            vstd::arithmetic::div_mod::lemma_mod_twice(-x, 61);
            vstd::arithmetic::div_mod::lemma_mod_twice(w0 * ((-x) * inv), 61);
            vstd::arithmetic::div_mod::lemma_mod_twice(d0 * (d % 61), 61);
            crate::lemmas::lemma_congruence_mul(d0, d0, d % 61, d, 61);
            crate::lemmas::lemma_congruence_mul(w, w0 * ((-x) * inv), den, d0 * d, 61);
            assert((w0 * ((-x) * inv)) * (d0 * d) == ((w0 * d0) * (-x)) * (inv * d))
                by (nonlinear_arith);
            vstd::arithmetic::div_mod::lemma_small_mod(1, 61);
            vstd::arithmetic::div_mod::lemma_small_mod(n0 as nat, 61);
            crate::lemmas::lemma_congruence_mul(w0 * d0, n0, -x, (-x) % 61, 61);
            crate::lemmas::lemma_congruence_mul((w0 * d0) * (-x), n0 * ((-x) % 61), inv * d, 1, 61);
            assert((n0 * ((-x) % 61)) * 1 == n0 * ((-x) % 61));
        }
    }
}

/// The Lagrange coefficient is the only element of the plaintext field
/// that gives the numerator when it is multiplied by the denominator.
pub proof fn lemma_weight_unique(s: Seq<int>, point: int, k: nat, c: int)
    requires
        k <= s.len(),
        0 < point < 61,
        forall|i: int| 0 <= i < k ==> 0 < #[trigger] s[i] < 61,
        0 <= c < 61,
        (c * lagrange_denominator(s, point, k)) % 61 == lagrange_numerator(s, point, k),
    ensures
        c == weight(s, point, k),
{
    let w = weight(s, point, k);
    let den = lagrange_denominator(s, point, k);
    lemma_weight_fraction(s, point, k);
    crate::bfv::interpolation::lemma_weight_range(s, point, k);
    vstd::arithmetic::div_mod::lemma_small_mod(den as nat, 61);
    lemma_inverse(den);
    lemma_cancel(c, 1, den);
    lemma_cancel(w, 1, den);
    let inv = inverse(den);
    assert((c * (1 * inv)) * den == (c * den) * inv) by (nonlinear_arith);
    assert((w * (1 * inv)) * den == (w * den) * inv) by (nonlinear_arith);
    crate::lemmas::lemma_congruence_mul(c * den, w * den, inv, inv, 61);
    assert(c * 1 == c && w * 1 == w);
    vstd::arithmetic::div_mod::lemma_small_mod(c as nat, 61);
    vstd::arithmetic::div_mod::lemma_small_mod(w as nat, 61);
}

/// The context of a threshold encryption: a context of the scheme and a policy.
pub struct ThresholdPKEContext {
    bfv_ctx: BFVContext,
    policy: ThresholdPolicy,
}

impl ThresholdPKEContext {
    /// The context of the scheme.
    pub closed spec fn spec_bfv_ctx(self) -> BFVContext {
        self.bfv_ctx
    }

    /// The policy.
    pub closed spec fn spec_policy(self) -> ThresholdPolicy {
        self.policy
    }

    /// The context of the scheme and the policy are well formed.
    pub open spec fn wf(self) -> bool {
        self.spec_bfv_ctx().wf() && self.spec_policy().wf()
    }

    /// A fresh context for the policy of `total_number` nodes with the
    /// indices `indices`, of which it takes `threshold_number`.
    pub fn new(total_number: usize, threshold_number: usize, indices: Vec<PlainField>) -> (r:
        Result<Self, AlgebraError>)
        requires
            indices@.len() == total_number,
            all_nonzero(indices@),
            threshold_number <= total_number,
            total_number <= MAX_NODES_NUMBER,
        ensures
            match r {
                Ok(ctx) => ctx.wf() && ctx.spec_policy().spec_total_number() == total_number
                    && ctx.spec_policy().spec_threshold_number() == threshold_number
                    && ctx.spec_policy().spec_indices() == indices@,
                Err(e) => e == (AlgebraError::NoPrimitiveRoot {
                    degree: 2048,
                    modulus: 132120577,
                }),
            },
    {
        match BFVContext::new() {
            Ok(bfv_ctx) => {
                let policy = ThresholdPolicy::new(total_number, threshold_number, indices);
                Ok(ThresholdPKEContext { bfv_ctx, policy })
            },
            Err(e) => Err(e),
        }
    }

    /// Returns the context of the scheme.
    pub fn bfv_ctx(&self) -> (ctx: &BFVContext)
        ensures
            *ctx == self.spec_bfv_ctx(),
    {
        &self.bfv_ctx
    }

    /// Returns the policy.
    pub fn policy(&self) -> (policy: &ThresholdPolicy)
        ensures
            *policy == self.spec_policy(),
    {
        &self.policy
    }
}

/// The plaintext of a key: the coefficient `8j + i` is the bit `i` of
/// the byte `j`, and the coefficients from 256 on are zero.
pub open spec fn key_plain(key: Seq<u8>) -> Seq<int> {
    Seq::new(
        DIMENSION_N as nat,
        |k: int|
            if k < 256 {
                ((key[k / 8] as nat / pow2((k % 8) as nat)) % 2) as int
            } else {
                0
            },
    )
}

/// The key of a plaintext: the bit `i` of the byte `j` is set where the
/// coefficient `8j + i` is one.
pub open spec fn plain_key(s: Seq<int>) -> Seq<u8> {
    Seq::new(32, |j: int| byte_of(s, 8 * j, 8) as u8)
}

/// The polynomial of a key: the coefficient `8j + i` is the bit `i` of the
/// byte `j`, and the coefficients from 256 on are zero.
pub fn to_poly(key: &[u8; 32]) -> (poly: Polynomial<PlainField>)
    ensures
        poly@.len() == DIMENSION_N,
        all_canonical(poly@),
        vals(poly@) == key_plain(key@),
{
    let bits = key_bits(key);
    let mut data: Vec<PlainField> = Vec::new();
    let mut k: usize = 0;
    while k < 256
        invariant
            k <= 256,
            bits@.len() == 256,
            data@.len() == k,
            forall|j: int|
                0 <= j < 256 ==> #[trigger] bits@[j] == ((key@[j / 8] as nat / pow2(
                    (j % 8) as nat,
                )) % 2 == 1),
            forall|j: int|
                0 <= j < k ==> fval(#[trigger] data@[j]) == (key@[j / 8] as nat / pow2(
                    (j % 8) as nat,
                )) % 2,
        decreases 256 - k,
    {
        if bits[k] {
            data.push(PlainField::one());
        } else {
            data.push(PlainField::zero());
        }
        k = k + 1;
    }
    let mut poly = Polynomial::new(data);
    poly.resize(DIMENSION_N, PlainField::zero());
    proof {
        assert(vals(poly@) =~= key_plain(key@));
        assert forall|k: int| 0 <= k < poly@.len() implies canonical(#[trigger] poly@[k]) by {
            assert(vals(poly@)[k] == key_plain(key@)[k]);
        }
    }
    poly
}

/// The byte whose bit `i` is set where the coefficient `start + i` is one, for `i < count`.
pub open spec fn byte_of(s: Seq<int>, start: int, count: nat) -> nat
    decreases count,
{
    if count == 0 {
        0
    } else {
        byte_of(s, start, (count - 1) as nat) + (if s[start + count - 1] == 1 {
            pow2((count - 1) as nat)
        } else {
            0
        })
    }
}

/// The byte of the first `count` bits of `b` is `b` modulo `2^count`.
pub proof fn lemma_byte_of_bits(s: Seq<int>, start: int, count: nat, b: nat)
    requires
        count <= 8,
        0 <= start,
        start + count <= s.len(),
        forall|i: int| 0 <= i < count ==> #[trigger] s[start + i] == (b / pow2(i as nat)) % 2,
    ensures
        byte_of(s, start, count) == b % pow2(count),
    decreases count,
{
    lemma2_to64();
    if count > 0 {
        let c = (count - 1) as nat;
        lemma_byte_of_bits(s, start, c, b);
        lemma_pow2_pos(c);
        lemma_pow2_unfold(count);
        assert(s[start + c] == (b / pow2(c)) % 2);
        vstd::arithmetic::div_mod::lemma_mod_breakdown(b as int, pow2(c) as int, 2);
        assert(pow2(c) * 2 == pow2(count));
        if (b / pow2(c)) % 2 == 1 {
            assert(pow2(c) * 1 == pow2(c));
        } else {
            assert(pow2(c) * 0 == 0);
        }
    }
}

/// **The key and its plaintext.** The key of the plaintext of a key
/// is the key.
pub proof fn lemma_key_round_trip(key: Seq<u8>)
    requires
        key.len() == 32,
    ensures
        plain_key(key_plain(key)) == key,
{
    let plain = key_plain(key);
    lemma2_to64();
    assert forall|j: int| 0 <= j < 32 implies plain_key(plain)[j] == key[j] by {
        let b = key[j] as nat;
        assert forall|i: int| 0 <= i < 8 implies #[trigger] plain[8 * j + i] == (b / pow2(
            i as nat,
        )) % 2 by {
            assert((8 * j + i) / 8 == j);
            assert((8 * j + i) % 8 == i);
        }
        lemma_byte_of_bits(plain, 8 * j, 8, b);
        vstd::arithmetic::div_mod::lemma_small_mod(b, 256);
    }
    assert(plain_key(plain) =~= key);
}

/// The key of a polynomial: the bit `i` of the byte `j` is set where the
/// coefficient `8j + i` is one.
pub fn to_bits(poly: &Polynomial<PlainField>) -> (key: [u8; 32])
    requires
        poly@.len() >= 256,
    ensures
        key@ == plain_key(vals(poly@)),
{
    let mut key: [u8; 32] = [0u8; 32];
    let mut j: usize = 0;
    while j < 32
        invariant
            j <= 32,
            poly@.len() >= 256,
            forall|l: int| 0 <= l < j ==> #[trigger] key@[l] == byte_of(vals(poly@), 8 * l, 8),
        decreases 32 - j,
    {
        let mut value: u8 = 0;
        let mut weight: u8 = 1;
        let mut i: usize = 0;
        proof {
            lemma2_to64();
        }
        while i < 8
            invariant
                i <= 8,
                j < 32,
                poly@.len() >= 256,
                value == byte_of(vals(poly@), 8 * j, i as nat),
                value < pow2(i as nat),
                i < 8 ==> weight == pow2(i as nat),
            decreases 8 - i,
        {
            proof {
                lemma2_to64();
                lemma_pow2_unfold((i + 1) as nat);
            }
            if poly.get(8 * j + i).is_one() {
                value = value + weight;
            }
            if i < 7 {
                weight = 2 * weight;
            }
            i = i + 1;
        }
        key[j] = value;
        j = j + 1;
    }
    proof {
        assert(key@ =~= plain_key(vals(poly@)));
    }
    key
}

/// The bytes `sealed` are the message `m`, sealed under the nonce and
/// the key `key` of 32 bytes, which open to `m` again, and `c` holds for
/// every node an encryption of its share of the plaintext of the key.
pub open spec fn is_hybrid_with(
    table: crate::transformation::NTTTable<CipherField>,
    indices: Seq<int>,
    threshold: nat,
    pks: Seq<BFVPublicKey>,
    m: Seq<u8>,
    key: Seq<u8>,
    shares: Seq<Seq<int>>,
    c: Seq<BFVCiphertext>,
    nonce: Seq<u8>,
    sealed: Seq<u8>,
) -> bool {
    &&& key.len() == 32
    &&& aead_seal(key, nonce, m) == Some(sealed)
    &&& aead_open(key, nonce, sealed) == Some(m)
    &&& is_encrypted_sharing(table, indices, threshold, pks, key_plain(key), shares, c)
}

/// The cipher refuses the message `m` under the key `key` of 32 bytes
/// and the nonce `nonce` of 12 bytes.
pub open spec fn is_refused_with(m: Seq<u8>, key: Seq<u8>, nonce: Seq<u8>) -> bool {
    key.len() == 32 && nonce.len() == 12 && aead_seal(key, nonce, m) is None
}

/// The threshold encryption.
pub struct ThresholdPKE;

impl ThresholdPKE {
    /// A fresh context for a policy.
    pub fn gen_context(total_number: usize, threshold_number: usize, indices: Vec<PlainField>) -> (r:
        Result<ThresholdPKEContext, AlgebraError>)
        requires
            indices@.len() == total_number,
            all_nonzero(indices@),
            threshold_number <= total_number,
            total_number <= MAX_NODES_NUMBER,
        ensures
            match r {
                Ok(ctx) => ctx.wf() && ctx.spec_policy().spec_total_number() == total_number
                    && ctx.spec_policy().spec_threshold_number() == threshold_number
                    && ctx.spec_policy().spec_indices() == indices@,
                Err(e) => e == (AlgebraError::NoPrimitiveRoot {
                    degree: 2048,
                    modulus: 132120577,
                }),
            },
    {
        ThresholdPKEContext::new(total_number, threshold_number, indices)
    }

    /// The Lagrange coefficients of the chosen indices for the value at
    /// zero: the coefficient of the index `x_j` is the product of
    /// `-x_l / (x_j - x_l)` over the other indices `x_l`.
    pub fn gen_lagrange_coeffs(chosen_indices: &[PlainField]) -> (coeffs: Vec<PlainField>)
        requires
            all_nonzero(chosen_indices@),
        ensures
            coeffs@.len() == chosen_indices@.len(),
            all_canonical(coeffs@),
            vals(coeffs@) == weights(vals(chosen_indices@), chosen_indices@.len()),
    {
        let n = chosen_indices.len();
        let ghost s = vals(chosen_indices@);
        let mut coeffs: Vec<PlainField> = Vec::new();
        let mut j: usize = 0;
        while j < n
            invariant
                j <= n,
                n == chosen_indices@.len(),
                s == vals(chosen_indices@),
                all_nonzero(chosen_indices@),
                coeffs@.len() == j,
                all_canonical(coeffs@),
                forall|i: int|
                    0 <= i < j ==> fval(#[trigger] coeffs@[i]) == weight(s, s[i], n as nat),
            decreases n - j,
        {
            let point = chosen_indices[j];
            let ghost x = fval(point) as int;
            let mut numerator = PlainField::one();
            let mut denominator = PlainField::one();
            let mut l: usize = 0;
            while l < n
                invariant
                    l <= n,
                    n == chosen_indices@.len(),
                    s == vals(chosen_indices@),
                    all_nonzero(chosen_indices@),
                    x == fval(point),
                    0 < x < 61,
                    fval(numerator) == lagrange_numerator(s, x, l as nat),
                    fval(denominator) == lagrange_denominator(s, x, l as nat),
                    0 <= fval(numerator) < 61,
                    0 < fval(denominator) < 61,
                decreases n - l,
            {
                let other = chosen_indices[l];
                proof {
                    assert(0 < fval(chosen_indices@[l as int]) < 61);
                    assert(s[l as int] == fval(other));
                }
                if !other.same(point) {
                    let minus = other.neg();
                    let difference = point.sub(other);
                    proof {
                        let y = fval(other) as int;
                        vstd::arithmetic::div_mod::lemma_mod_bound(-y, 61);
                        vstd::arithmetic::div_mod::lemma_mod_bound(x - y, 61);
                        // x - y is not a multiple of 61
                        if (x - y) % 61 == 0 {
                            if x > y {
                                vstd::arithmetic::div_mod::lemma_small_mod((x - y) as nat, 61);
                            } else {
                                crate::lemmas::lemma_mod_unique(x - y, x - y + 61, -1, 61);
                            }
                        }
                        lemma_plain_product_nonzero(fval(denominator), fval(difference));
                        vstd::arithmetic::div_mod::lemma_mod_bound(
                            (fval(denominator) * fval(difference)) as int,
                            61,
                        );
                        vstd::arithmetic::div_mod::lemma_mod_bound(
                            (fval(numerator) * fval(minus)) as int,
                            61,
                        );
                    }
                    numerator = Field::mul(numerator, minus);
                    denominator = Field::mul(denominator, difference);
                }
                l = l + 1;
            }
            proof {
                lemma_plain_coprime(fval(denominator) as int);
                vstd::arithmetic::div_mod::lemma_small_mod(fval(numerator), 61);
            }
            let coefficient = Field::div(numerator, denominator);
            proof {
                assert forall|i: int| 0 <= i < n implies 0 < #[trigger] s[i] < 61 by {
                    assert(0 < fval(chosen_indices@[i]) < 61);
                }
                lemma_weight_unique(s, x, n as nat, fval(coefficient) as int);
            }
            coeffs.push(coefficient);
            j = j + 1;
        }
        proof {
            assert(vals(coeffs@) =~= weights(s, n as nat));
        }
        coeffs
    }

    /// A fresh pair of a secret key and its public key.
    pub fn gen_keypair(ctx: &mut ThresholdPKEContext) -> (pair: (BFVSecretKey, BFVPublicKey))
        requires
            old(ctx).wf(),
        ensures
            final(ctx).wf(),
            final(ctx).spec_policy() == old(ctx).spec_policy(),
            final(ctx).spec_bfv_ctx().spec_table() == old(ctx).spec_bfv_ctx().spec_table(),
            pair.0.wf(DIMENSION_N as nat),
            pair.1.wf(DIMENSION_N as nat),
            is_public_key(
                old(ctx).spec_bfv_ctx().spec_table(),
                vals(pair.0.spec_key()@),
                pair.1,
            ),
    {
        BFVScheme::gen_keypair(&mut ctx.bfv_ctx)
    }

    /// Encrypts a plaintext for the nodes: the plaintext is shared by the
    /// policy, and the share of the node `j` is encrypted under the public
    /// key `j`. There is a public key for every node.
    pub fn encrypt(ctx: &mut ThresholdPKEContext, pks: &Vec<BFVPublicKey>, m: &BFVPlaintext) -> (c:
        Vec<BFVCiphertext>)
        requires
            old(ctx).wf(),
            old(ctx).spec_policy().spec_threshold_number() >= 1,
            pks@.len() == old(ctx).spec_policy().spec_total_number(),
            forall|j: int| 0 <= j < pks@.len() ==> (#[trigger] pks@[j]).wf(DIMENSION_N as nat),
            m.0@.len() == DIMENSION_N,
        ensures
            final(ctx).wf(),
            final(ctx).spec_policy() == old(ctx).spec_policy(),
            final(ctx).spec_bfv_ctx().spec_table() == old(ctx).spec_bfv_ctx().spec_table(),
            c@.len() == pks@.len(),
            forall|j: int| 0 <= j < c@.len() ==> ciphertext_wf(#[trigger] c@[j], DIMENSION_N as nat),
            exists|shares: Seq<Seq<int>>| #[trigger]
                is_encrypted_sharing(
                    old(ctx).spec_bfv_ctx().spec_table(),
                    vals(old(ctx).spec_policy().spec_indices()),
                    old(ctx).spec_policy().spec_threshold_number() as nat,
                    pks@,
                    vals(m.0@),
                    shares,
                    c@,
                ),
    {
        let shares = ctx.policy.secret_sharing(&m.0, ctx.bfv_ctx.csrng_mut());
        let ghost values = share_values(shares@);
        let n = pks.len();
        let mut c: Vec<BFVCiphertext> = Vec::new();
        let mut j: usize = 0;
        while j < n
            invariant
                j <= n,
                n == pks@.len(),
                n == shares@.len(),
                ctx.wf(),
                ctx.spec_policy() == old(ctx).spec_policy(),
                ctx.spec_bfv_ctx().spec_table() == old(ctx).spec_bfv_ctx().spec_table(),
                forall|k: int| 0 <= k < pks@.len() ==> (#[trigger] pks@[k]).wf(DIMENSION_N as nat),
                forall|k: int|
                    0 <= k < shares@.len() ==> (#[trigger] shares@[k])@.len() == DIMENSION_N
                        && all_canonical(shares@[k]@),
                c@.len() == j,
                forall|k: int| 0 <= k < j ==> ciphertext_wf(#[trigger] c@[k], DIMENSION_N as nat),
                values == share_values(shares@),
                forall|k: int|
                    0 <= k < j ==> is_encryption(
                        ctx.spec_bfv_ctx().spec_table(),
                        pks@[k],
                        values[k],
                        #[trigger] c@[k],
                    ),
            decreases n - j,
        {
            assert(pks@[j as int].wf(DIMENSION_N as nat));
            assert(shares@[j as int]@.len() == DIMENSION_N);
            let share = BFVPlaintext(
                Polynomial::new(crate::polynomial::elementwise::copied(shares[j].as_slice())),
            );
            let cipher = BFVScheme::encrypt(&mut ctx.bfv_ctx, &pks[j], &share);
            c.push(cipher);
            j = j + 1;
        }
        proof {
            assert(is_encrypted_sharing(
                ctx.spec_bfv_ctx().spec_table(),
                vals(ctx.spec_policy().spec_indices()),
                ctx.spec_policy().spec_threshold_number() as nat,
                pks@,
                vals(m.0@),
                values,
                c@,
            ));
        }
        c
    }

    /// Encrypts bytes for the nodes, in the hybrid mode: a fresh key of the
    /// authenticated cipher is encrypted for the nodes as a plaintext, and
    /// the bytes are sealed under the key with a fresh nonce. Returns the
    /// ciphertexts of the key, the nonce and the sealed bytes; or nothing,
    /// and that only where the cipher refuses the bytes under the key and
    /// the nonce that were drawn.
    pub fn encrypt_bytes(ctx: &mut ThresholdPKEContext, pks: &Vec<BFVPublicKey>, m: &[u8]) -> (r:
        Option<(Vec<BFVCiphertext>, [u8; 12], Vec<u8>)>)
        requires
            old(ctx).wf(),
            old(ctx).spec_policy().spec_threshold_number() >= 1,
            pks@.len() == old(ctx).spec_policy().spec_total_number(),
            forall|j: int| 0 <= j < pks@.len() ==> (#[trigger] pks@[j]).wf(DIMENSION_N as nat),
        ensures
            final(ctx).wf(),
            final(ctx).spec_policy() == old(ctx).spec_policy(),
            final(ctx).spec_bfv_ctx().spec_table() == old(ctx).spec_bfv_ctx().spec_table(),
            r is Some ==> r->Some_0.0@.len() == pks@.len(),
            r is Some ==> forall|j: int|
                0 <= j < r->Some_0.0@.len() ==> ciphertext_wf(
                    #[trigger] r->Some_0.0@[j],
                    DIMENSION_N as nat,
                ),
            r is Some ==> exists|key: Seq<u8>, shares: Seq<Seq<int>>| #[trigger]
                is_hybrid_with(
                    old(ctx).spec_bfv_ctx().spec_table(),
                    vals(old(ctx).spec_policy().spec_indices()),
                    old(ctx).spec_policy().spec_threshold_number() as nat,
                    pks@,
                    m@,
                    key,
                    shares,
                    r->Some_0.0@,
                    r->Some_0.1@,
                    r->Some_0.2@,
                ),
            r is None ==> exists|key: Seq<u8>, nonce: Seq<u8>| #[trigger]
                is_refused_with(m@, key, nonce),
    {
        let ghost table = ctx.spec_bfv_ctx().spec_table();
        let ghost indices = vals(ctx.spec_policy().spec_indices());
        let ghost threshold = ctx.spec_policy().spec_threshold_number() as nat;
        let sym_key = generate_key(ctx.bfv_ctx.csrng_mut());
        let key = BFVPlaintext(to_poly(&sym_key));
        let c1 = Self::encrypt(ctx, pks, &key);
        let ghost shares = choose|shares: Seq<Seq<int>>| #[trigger]
            is_encrypted_sharing(table, indices, threshold, pks@, vals(key.0@), shares, c1@);
        let nonce = generate_nonce(ctx.bfv_ctx.csrng_mut());
        match seal(&sym_key, &nonce, m) {
            Some(c2) => {
                let r = Some((c1, nonce, c2));
                proof {
                    assert(sym_key@.len() == 32);
                    assert(aead_seal(sym_key@, r->Some_0.1@, m@) == Some(r->Some_0.2@));
                    assert(aead_open(sym_key@, r->Some_0.1@, r->Some_0.2@) == Some(m@));
                    assert(is_hybrid_with(
                        table,
                        indices,
                        threshold,
                        pks@,
                        m@,
                        sym_key@,
                        shares,
                        r->Some_0.0@,
                        r->Some_0.1@,
                        r->Some_0.2@,
                    ));
                }
                r
            },
            None => {
                proof {
                    assert(is_refused_with(m@, sym_key@, nonce@));
                }
                None
            },
        }
    }

    /// Decrypts a ciphertext under a secret key.
    pub fn decrypt(ctx: &ThresholdPKEContext, sk: &BFVSecretKey, c: &BFVCiphertext) -> (m:
        BFVPlaintext)
        requires
            ctx.wf(),
            sk.wf(DIMENSION_N as nat),
            ciphertext_wf(*c, DIMENSION_N as nat),
        ensures
            plaintext_wf(m, DIMENSION_N as nat),
            vals(m.0@) == lowered(
                phase(ctx.spec_bfv_ctx().spec_table(), vals(sk.spec_key()@), *c),
            ),
    {
        BFVScheme::decrypt(ctx.bfv_ctx(), sk, c)
    }

    /// Decrypts bytes of the hybrid mode: the key of the authenticated
    /// cipher is decrypted from `c1` and read off the plaintext, and the
    /// sealed bytes `c2` are opened with it. Returns nothing where the
    /// bytes are not authentic under the key.
    pub fn decrypt_bytes(
        ctx: &ThresholdPKEContext,
        sk: &BFVSecretKey,
        c1: &BFVCiphertext,
        nonce: &[u8; 12],
        c2: &[u8],
    ) -> (r: Option<Vec<u8>>)
        requires
            ctx.wf(),
            sk.wf(DIMENSION_N as nat),
            ciphertext_wf(*c1, DIMENSION_N as nat),
        ensures
            aead_open(
                plain_key(
                    lowered(phase(ctx.spec_bfv_ctx().spec_table(), vals(sk.spec_key()@), *c1)),
                ),
                nonce@,
                c2@,
            ) == (match r {
                Some(bytes) => Some(bytes@),
                None => None,
            }),
    {
        let key = Self::decrypt(ctx, sk, c1);
        let sym_key = to_bits(&key.0);
        open(&sym_key, nonce, c2)
    }

    /// Encrypts the plaintext of a ciphertext anew under another public
    /// key: the ciphertext is decrypted with `sk`, and the plaintext is
    /// encrypted under `pk_new`.
    pub fn re_encrypt(
        ctx: &mut ThresholdPKEContext,
        c: &BFVCiphertext,
        sk: &BFVSecretKey,
        pk_new: &BFVPublicKey,
    ) -> (r: BFVCiphertext)
        requires
            old(ctx).wf(),
            sk.wf(DIMENSION_N as nat),
            ciphertext_wf(*c, DIMENSION_N as nat),
            pk_new.wf(DIMENSION_N as nat),
        ensures
            final(ctx).wf(),
            final(ctx).spec_policy() == old(ctx).spec_policy(),
            final(ctx).spec_bfv_ctx().spec_table() == old(ctx).spec_bfv_ctx().spec_table(),
            ciphertext_wf(r, DIMENSION_N as nat),
            is_encryption(
                old(ctx).spec_bfv_ctx().spec_table(),
                *pk_new,
                lowered(phase(old(ctx).spec_bfv_ctx().spec_table(), vals(sk.spec_key()@), *c)),
                r,
            ),
    {
        let m = BFVScheme::decrypt(&ctx.bfv_ctx, sk, c);
        BFVScheme::encrypt(&mut ctx.bfv_ctx, pk_new, &m)
    }

    /// Combines the ciphertexts of shares into a ciphertext of the
    /// plaintext: the inner product of the ciphertexts and the Lagrange
    /// coefficients of their indices.
    pub fn combine(ctx: &ThresholdPKEContext, ctxts: &Vec<BFVCiphertext>, chosen_indices: &[PlainField]) -> (r:
        BFVCiphertext)
        requires
            ctx.wf(),
            ctxts@.len() == chosen_indices@.len(),
            all_nonzero(chosen_indices@),
            forall|k: int|
                0 <= k < ctxts@.len() ==> ciphertext_wf(#[trigger] ctxts@[k], DIMENSION_N as nat),
        ensures
            ciphertext_wf(r, DIMENSION_N as nat),
            vals(r.0[0]@) == inner_product(
                ctxts@,
                weights(vals(chosen_indices@), chosen_indices@.len()),
                ctxts@.len(),
                0,
                DIMENSION_N as nat,
            ),
            vals(r.0[1]@) == inner_product(
                ctxts@,
                weights(vals(chosen_indices@), chosen_indices@.len()),
                ctxts@.len(),
                1,
                DIMENSION_N as nat,
            ),
    {
        let lagrange_coeff = Self::gen_lagrange_coeffs(chosen_indices);
        BFVScheme::evaluate_inner_product(ctx.bfv_ctx(), ctxts, &lagrange_coeff)
    }
}

} // verus!
