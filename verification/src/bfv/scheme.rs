//! The linearly homomorphic scheme: key generation, encryption,
//! decryption, and the linear operations on ciphertexts.

use crate::bfv::ciphertext::{BFVCiphertext, CipherField};
use crate::bfv::context::BFVContext;
use crate::bfv::correctness::{all_small, lemma_errors_small, lemma_ternary_small};
use crate::bfv::plaintext::{BFVPlaintext, PlainField};
use crate::bfv::publickey::BFVPublicKey;
use crate::bfv::secretkey::{
    is_public_key,
    lemma_canonical_below,
    lemma_ternary_canonical,
    BFVSecretKey,
};
use crate::error::AlgebraError;
use crate::field::{canonical, fval, Field, FieldCore};
use crate::polynomial::elementwise::{all_canonical, lemma_elementwise, seq_add, seq_scale};
use crate::polynomial::native_polynomial::ring_product;
use crate::polynomial::Polynomial;
use crate::transformation::ntt_table::vals;
use crate::transformation::NTTTable;
use vstd::prelude::*;

verus! {

/// The ciphertext modulus `q`.
pub open spec fn cipher_modulus() -> nat {
    132120577
}

/// The quotient `⌊(a + b/2) / b⌋` rounds `a / b` to the nearest integer.
pub open spec fn round_div(a: nat, b: nat) -> nat {
    (a + b / 2) / b
}

/// A plaintext coefficient scaled up into the ciphertext field:
/// `round(q·m / t)`, where the upper half of the plaintext field stands
/// for the negative numbers `m - t`.
pub open spec fn scaled_up(m: nat) -> nat {
    if m > 30 {
        ((cipher_modulus() - round_div(cipher_modulus() * ((61 - m) as nat), 61)) as nat)
            % cipher_modulus()
    } else {
        round_div(cipher_modulus() * m, 61) % cipher_modulus()
    }
}

/// A ciphertext coefficient scaled down into the plaintext field:
/// `round(t·v / q)`, where the upper half of the ciphertext field stands
/// for the negative numbers `v - q`.
pub open spec fn scaled_down(v: nat) -> nat {
    if v > 66060288 {
        ((61 - round_div(61 * ((cipher_modulus() - v) as nat), cipher_modulus())) as nat) % 61
    } else {
        round_div(61 * v, cipher_modulus()) % 61
    }
}

/// The coefficients of a plaintext, scaled up.
pub open spec fn lifted(m: Seq<int>) -> Seq<int> {
    Seq::new(m.len(), |i: int| scaled_up(m[i] as nat) as int)
}

/// The coefficients of a ciphertext polynomial, scaled down.
pub open spec fn lowered(v: Seq<int>) -> Seq<int> {
    Seq::new(v.len(), |i: int| scaled_down(v[i] as nat) as int)
}

/// **Rounding.** Scaling down undoes scaling up, also where an error of
/// size up to one million has been added: for every plaintext coefficient
/// `m` and every error `e` with `|e| <= 1000000`,
/// `scaled_down(scaled_up(m) + e mod q) = m`.
pub proof fn lemma_rounding(m: nat, e: int)
    requires
        m < 61,
        -1000000 <= e <= 1000000,
    ensures
        scaled_down(((scaled_up(m) + e) % (cipher_modulus() as int)) as nat) == m,
{
    let q = 132120577int;
    let up = scaled_up(m) as int;
    let v = (up + e) % q;
    // scaled_up(m) lies within one of q·m/t, taken modulo q
    if m > 30 {
        let k = (61 - m) as int;
        let r = (q * k + 30) / 61;
        assert(61 * r <= q * k + 30 < 61 * r + 61);
        assert(0 < r < q);
        assert(up == q - r);
        assert(v == q - r + e);
        let back = (61 * (q - v) + 66060288) / q;
        assert(q - v == r - e);
        assert(back == k) by {
            assert(q * k <= 61 * (r - e) + 66060288 < q * k + q);
        }
    } else {
        let r = (q * m + 30) / 61;
        assert(61 * r <= q * m + 30 < 61 * r + 61);
        assert(0 <= r < q);
        assert(up == r);
        if r + e < 0 {
            assert(m == 0);
            assert(v == r + e + q);
            let back = (61 * (q - v) + 66060288) / q;
            assert(back == 0);
        } else {
            assert(v == r + e);
            let back = (61 * v + 66060288) / q;
            assert(back == m) by {
                assert(q * m <= 61 * v + 66060288 < q * m + q);
            }
        }
    }
}

/// A plaintext coefficient, scaled up into the ciphertext field.
pub fn scale_up(x: PlainField) -> (r: CipherField)
    requires
        canonical(x),
    ensures
        fval(r) == scaled_up(fval(x)),
        canonical(r),
{
    let t: u64 = 61;
    let q: u64 = 132120577;
    let value = x.get() as u64;
    let word: u64 = if value > (t - 1) / 2 {
        let minus_value = t - value;
        q - (q * minus_value + t / 2) / t
    } else {
        (q * value + t / 2) / t
    };
    CipherField::checked_new(word as u32)
}

/// A ciphertext coefficient, scaled down into the plaintext field.
pub fn scale_down(x: CipherField) -> (r: PlainField)
    requires
        canonical(x),
    ensures
        fval(r) == scaled_down(fval(x)),
        canonical(r),
{
    let t: u64 = 61;
    let q: u64 = 132120577;
    let value = x.get() as u64;
    let word: u64 = if value > (q - 1) / 2 {
        let minus_value = q - value;
        t - (t * minus_value + q / 2) / q
    } else {
        (t * value + q / 2) / q
    };
    PlainField::checked_new(word as u16)
}

/// Both polynomials of a ciphertext have `n` canonical coefficients.
pub open spec fn ciphertext_wf(c: BFVCiphertext, n: nat) -> bool {
    &&& c.0[0]@.len() == n
    &&& c.0[1]@.len() == n
    &&& all_canonical(c.0[0]@)
    &&& all_canonical(c.0[1]@)
}

/// The plaintext has `n` canonical coefficients.
pub open spec fn plaintext_wf(m: BFVPlaintext, n: nat) -> bool {
    m.0@.len() == n && all_canonical(m.0@)
}

/// What decryption under the secret key `s` scales down: `c0 + c1·s`.
pub open spec fn phase(table: NTTTable<CipherField>, s: Seq<int>, c: BFVCiphertext) -> Seq<int> {
    seq_add(vals(c.0[0]@), ring_product(vals(c.0[1]@), s, table), cipher_modulus() as int)
}

/// `c` is the encryption `(b·u + e1 + lift(m), -a·u + e2)` of `m` under
/// `pk = (b, -a)`, made with a ternary `u` and with errors `e1` and `e2`
/// within 21 of zero.
pub open spec fn is_encryption_with(
    table: NTTTable<CipherField>,
    pk: BFVPublicKey,
    m: Seq<int>,
    u: Seq<int>,
    e1: Seq<int>,
    e2: Seq<int>,
    c: BFVCiphertext,
) -> bool {
    &&& u.len() == m.len()
    &&& e1.len() == m.len()
    &&& e2.len() == m.len()
    &&& all_small(u, 1, cipher_modulus() as int)
    &&& all_small(e1, 21, cipher_modulus() as int)
    &&& all_small(e2, 21, cipher_modulus() as int)
    &&& vals(c.0[0]@) == seq_add(
        seq_add(ring_product(vals(pk.0[0]@), u, table), e1, cipher_modulus() as int),
        lifted(m),
        cipher_modulus() as int,
    )
    &&& vals(c.0[1]@) == seq_add(
        ring_product(vals(pk.0[1]@), u, table),
        e2,
        cipher_modulus() as int,
    )
}

/// `c` is an encryption of `m` under `pk`: the one made with some
/// ternary `u` and some errors `e1` and `e2` within 21 of zero.
pub open spec fn is_encryption(
    table: NTTTable<CipherField>,
    pk: BFVPublicKey,
    m: Seq<int>,
    c: BFVCiphertext,
) -> bool {
    exists|u: Seq<int>, e1: Seq<int>, e2: Seq<int>| #[trigger]
        is_encryption_with(table, pk, m, u, e1, e2, c)
}

/// The scheme.
pub struct BFVScheme;

impl BFVScheme {
    /// A fresh context.
    pub fn gen_context() -> (r: Result<BFVContext, AlgebraError>)
        ensures
            match r {
                Ok(ctx) => ctx.wf(),
                Err(e) => e == (AlgebraError::NoPrimitiveRoot {
                    degree: 2048,
                    modulus: 132120577,
                }),
            },
    {
        BFVContext::new()
    }

    /// A fresh pair of a secret key and its public key.
    pub fn gen_keypair(ctx: &mut BFVContext) -> (pair: (BFVSecretKey, BFVPublicKey))
        requires
            old(ctx).wf(),
        ensures
            final(ctx).wf(),
            final(ctx).spec_table() == old(ctx).spec_table(),
            pair.0.wf(old(ctx).spec_rlwe_dimension() as nat),
            pair.1.wf(old(ctx).spec_rlwe_dimension() as nat),
            is_public_key(old(ctx).spec_table(), vals(pair.0.spec_key()@), pair.1),
    {
        let sk = BFVSecretKey::new(ctx);
        let pk = sk.gen_pubkey(ctx);
        (sk, pk)
    }

    /// The plaintext scaled up into the ciphertext ring.
    pub fn lift(m: &BFVPlaintext) -> (r: Polynomial<CipherField>)
        requires
            all_canonical(m.0@),
        ensures
            r@.len() == m.0@.len(),
            all_canonical(r@),
            vals(r@) == lifted(vals(m.0@)),
    {
        let n = m.0.coeff_count();
        let mut data: Vec<CipherField> = Vec::new();
        let mut i: usize = 0;
        while i < n
            invariant
                i <= n,
                n == m.0@.len(),
                all_canonical(m.0@),
                data@.len() == i,
                all_canonical(data@),
                forall|j: int| 0 <= j < i ==> fval(#[trigger] data@[j]) == scaled_up(fval(m.0@[j])),
            decreases n - i,
        {
            data.push(scale_up(m.0.get(i)));
            i = i + 1;
        }
        proof {
            assert(vals(data@) =~= lifted(vals(m.0@)));
        }
        Polynomial::new(data)
    }

    /// The encryption of `m` under `pk = (b, -a)` with the randomness
    /// `u`, `e1` and `e2`: the pair `(b·u + e1 + lift(m), -a·u + e2)`.
    pub fn encrypt_with(
        ctx: &BFVContext,
        pk: &BFVPublicKey,
        m: &BFVPlaintext,
        u: &Polynomial<CipherField>,
        e1: &Polynomial<CipherField>,
        e2: &Polynomial<CipherField>,
    ) -> (c: BFVCiphertext)
        requires
            ctx.wf(),
            pk.wf(ctx.spec_rlwe_dimension() as nat),
            plaintext_wf(*m, ctx.spec_rlwe_dimension() as nat),
            u@.len() == ctx.spec_rlwe_dimension(),
            e1@.len() == ctx.spec_rlwe_dimension(),
            e2@.len() == ctx.spec_rlwe_dimension(),
            all_canonical(u@),
            all_canonical(e1@),
            all_canonical(e2@),
        ensures
            ciphertext_wf(c, ctx.spec_rlwe_dimension() as nat),
            vals(c.0[0]@) == seq_add(
                seq_add(
                    ring_product(vals(pk.0[0]@), vals(u@), ctx.spec_table()),
                    vals(e1@),
                    cipher_modulus() as int,
                ),
                lifted(vals(m.0@)),
                cipher_modulus() as int,
            ),
            vals(c.0[1]@) == seq_add(
                ring_product(vals(pk.0[1]@), vals(u@), ctx.spec_table()),
                vals(e2@),
                cipher_modulus() as int,
            ),
    {
        proof {
            lemma_canonical_below(pk.0[0]@);
            lemma_canonical_below(pk.0[1]@);
            lemma_canonical_below(u@);
        }
        let message = Self::lift(m);
        let bu = pk.0[0].mul(u, ctx.table());
        let bu_e = bu.add(e1);
        let c1 = bu_e.add(&message);
        let au = pk.0[1].mul(u, ctx.table());
        let c2 = au.add(e2);
        proof {
            let zero = CipherField::spec_new(0);
            lemma_elementwise(bu_e@, bu@, e1@, zero);
            lemma_elementwise(c1@, bu_e@, message@, zero);
            lemma_elementwise(c2@, au@, e2@, zero);
        }
        BFVCiphertext([c1, c2])
    }

    /// The encryption of `m` under `pk` with fresh randomness: a ternary
    /// `u` and two errors `e1` and `e2`.
    pub fn encrypt(ctx: &mut BFVContext, pk: &BFVPublicKey, m: &BFVPlaintext) -> (c: BFVCiphertext)
        requires
            old(ctx).wf(),
            pk.wf(old(ctx).spec_rlwe_dimension() as nat),
            plaintext_wf(*m, old(ctx).spec_rlwe_dimension() as nat),
        ensures
            final(ctx).wf(),
            final(ctx).spec_table() == old(ctx).spec_table(),
            ciphertext_wf(c, old(ctx).spec_rlwe_dimension() as nat),
            is_encryption(old(ctx).spec_table(), *pk, vals(m.0@), c),
    {
        let n = ctx.rlwe_dimension();
        let u = Polynomial::<CipherField>::random_with_ternary(n, ctx.csrng_mut());
        let e1 = Polynomial::<CipherField>::random_with_gaussian(n, ctx.csrng_mut());
        let e2 = Polynomial::<CipherField>::random_with_gaussian(n, ctx.csrng_mut());
        proof {
            lemma_ternary_canonical(u@);
            lemma_ternary_small(u@);
            lemma_errors_small(e1@);
            lemma_errors_small(e2@);
        }
        let c = Self::encrypt_with(ctx, pk, m, &u, &e1, &e2);
        proof {
            assert(is_encryption_with(
                ctx.spec_table(),
                *pk,
                vals(m.0@),
                vals(u@),
                vals(e1@),
                vals(e2@),
                c,
            ));
        }
        c
    }

    /// The decryption of `c` under `sk`: the coefficients of `c0 + c1·s`, scaled down.
    pub fn decrypt(ctx: &BFVContext, sk: &BFVSecretKey, c: &BFVCiphertext) -> (m: BFVPlaintext)
        requires
            ctx.wf(),
            sk.wf(ctx.spec_rlwe_dimension() as nat),
            ciphertext_wf(*c, ctx.spec_rlwe_dimension() as nat),
        ensures
            plaintext_wf(m, ctx.spec_rlwe_dimension() as nat),
            vals(m.0@) == lowered(phase(ctx.spec_table(), vals(sk.spec_key()@), *c)),
    {
        proof {
            lemma_ternary_canonical(sk.spec_key()@);
            lemma_canonical_below(c.0[1]@);
        }
        let product = c.0[1].mul(sk.secret_key(), ctx.table());
        let msg = c.0[0].add(&product);
        proof {
            lemma_elementwise(msg@, c.0[0]@, product@, CipherField::spec_new(0));
        }
        let n = msg.coeff_count();
        let mut data: Vec<PlainField> = Vec::new();
        let mut i: usize = 0;
        while i < n
            invariant
                i <= n,
                n == msg@.len(),
                all_canonical(msg@),
                data@.len() == i,
                all_canonical(data@),
                forall|j: int|
                    0 <= j < i ==> fval(#[trigger] data@[j]) == scaled_down(fval(msg@[j])),
            decreases n - i,
        {
            data.push(scale_down(msg.get(i)));
            i = i + 1;
        }
        proof {
            assert(vals(data@) =~= lowered(vals(msg@)));
        }
        BFVPlaintext(Polynomial::new(data))
    }

    /// The ciphertext times a scalar of the plaintext field: both
    /// polynomials are multiplied by the scalar, lifted by its value.
    pub fn evaluate_mul_scalar(ctx: &BFVContext, scalar: &PlainField, c: &BFVCiphertext) -> (r:
        BFVCiphertext)
        requires
            canonical(*scalar),
        ensures
            r.0[0]@.len() == c.0[0]@.len(),
            r.0[1]@.len() == c.0[1]@.len(),
            all_canonical(r.0[0]@),
            all_canonical(r.0[1]@),
            vals(r.0[0]@) == seq_scale(vals(c.0[0]@), fval(*scalar) as int, cipher_modulus() as int),
            vals(r.0[1]@) == seq_scale(vals(c.0[1]@), fval(*scalar) as int, cipher_modulus() as int),
    {
        let lifted_scalar = CipherField::new(scalar.get() as u32);
        let c1 = c.0[0].mul_scalar(lifted_scalar);
        let c2 = c.0[1].mul_scalar(lifted_scalar);
        proof {
            lemma_elementwise(c1@, c.0[0]@, c.0[0]@, lifted_scalar);
            lemma_elementwise(c2@, c.0[1]@, c.0[1]@, lifted_scalar);
        }
        BFVCiphertext([c1, c2])
    }

    /// The sum of two ciphertexts.
    pub fn evalute_add(ctx: &BFVContext, c_lhs: &BFVCiphertext, c_rhs: &BFVCiphertext) -> (r:
        BFVCiphertext)
        requires
            c_lhs.0[0]@.len() == c_rhs.0[0]@.len(),
            c_lhs.0[1]@.len() == c_rhs.0[1]@.len(),
            all_canonical(c_lhs.0[0]@),
            all_canonical(c_lhs.0[1]@),
            all_canonical(c_rhs.0[0]@),
            all_canonical(c_rhs.0[1]@),
        ensures
            r.0[0]@.len() == c_lhs.0[0]@.len(),
            r.0[1]@.len() == c_lhs.0[1]@.len(),
            all_canonical(r.0[0]@),
            all_canonical(r.0[1]@),
            vals(r.0[0]@) == seq_add(vals(c_lhs.0[0]@), vals(c_rhs.0[0]@), cipher_modulus() as int),
            vals(r.0[1]@) == seq_add(vals(c_lhs.0[1]@), vals(c_rhs.0[1]@), cipher_modulus() as int),
    {
        let c1 = c_lhs.0[0].add(&c_rhs.0[0]);
        let c2 = c_lhs.0[1].add(&c_rhs.0[1]);
        proof {
            let zero = CipherField::spec_new(0);
            lemma_elementwise(c1@, c_lhs.0[0]@, c_rhs.0[0]@, zero);
            lemma_elementwise(c2@, c_lhs.0[1]@, c_rhs.0[1]@, zero);
        }
        BFVCiphertext([c1, c2])
    }

    /// The inner product of ciphertexts and scalars: the sum of the
    /// ciphertexts, each times its scalar.
    pub fn evaluate_inner_product(
        ctx: &BFVContext,
        c: &Vec<BFVCiphertext>,
        scalar: &Vec<PlainField>,
    ) -> (r: BFVCiphertext)
        requires
            ctx.wf(),
            c@.len() == scalar@.len(),
            forall|k: int|
                0 <= k < c@.len() ==> ciphertext_wf(
                    #[trigger] c@[k],
                    ctx.spec_rlwe_dimension() as nat,
                ),
            all_canonical(scalar@),
        ensures
            ciphertext_wf(r, ctx.spec_rlwe_dimension() as nat),
            vals(r.0[0]@) == inner_product(
                c@,
                vals(scalar@),
                c@.len(),
                0,
                ctx.spec_rlwe_dimension() as nat,
            ),
            vals(r.0[1]@) == inner_product(
                c@,
                vals(scalar@),
                c@.len(),
                1,
                ctx.spec_rlwe_dimension() as nat,
            ),
    {
        let dimension = ctx.rlwe_dimension();
        let zero = Polynomial::<CipherField>::zero(dimension);
        let zero2 = Polynomial::<CipherField>::zero(dimension);
        let mut acc = BFVCiphertext([zero, zero2]);
        proof {
            assert(vals(acc.0[0]@) =~= inner_product(c@, vals(scalar@), 0, 0, dimension as nat));
            assert(vals(acc.0[1]@) =~= inner_product(c@, vals(scalar@), 0, 1, dimension as nat));
        }
        let count = c.len();
        let mut k: usize = 0;
        while k < count
            invariant
                k <= count,
                count == c@.len(),
                c@.len() == scalar@.len(),
                dimension == ctx.spec_rlwe_dimension(),
                forall|j: int|
                    0 <= j < c@.len() ==> ciphertext_wf(#[trigger] c@[j], dimension as nat),
                all_canonical(scalar@),
                ciphertext_wf(acc, dimension as nat),
                vals(acc.0[0]@) == inner_product(c@, vals(scalar@), k as nat, 0, dimension as nat),
                vals(acc.0[1]@) == inner_product(c@, vals(scalar@), k as nat, 1, dimension as nat),
            decreases count - k,
        {
            assert(ciphertext_wf(c@[k as int], dimension as nat));
            let term = Self::evaluate_mul_scalar(ctx, &scalar[k], &c[k]);
            acc = Self::evalute_add(ctx, &acc, &term);
            k = k + 1;
        }
        acc
    }
}

/// The polynomial `which` of the inner product of the first `k`
/// ciphertexts and scalars: the sum of the polynomials, each times its scalar.
pub open spec fn inner_product(
    c: Seq<BFVCiphertext>,
    scalar: Seq<int>,
    k: nat,
    which: int,
    n: nat,
) -> Seq<int>
    decreases k,
{
    if k == 0 {
        Seq::new(n, |i: int| 0int)
    } else {
        seq_add(
            inner_product(c, scalar, (k - 1) as nat, which, n),
            seq_scale(
                vals(c[k - 1].0[which]@),
                scalar[k - 1],
                cipher_modulus() as int,
            ),
            cipher_modulus() as int,
        )
    }
}

} // verus!
