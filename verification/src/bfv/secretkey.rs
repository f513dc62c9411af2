//! The secret keys of the scheme.

use crate::bfv::ciphertext::CipherField;
use crate::bfv::context::BFVContext;
use crate::bfv::publickey::BFVPublicKey;
use crate::bfv::serial::{read_polynomial, word_at, write_polynomial};
use crate::field::{canonical, fval, FieldCore};
use crate::polynomial::elementwise::{all_canonical, lemma_elementwise, seq_add, seq_neg};
use crate::polynomial::native_polynomial::ring_product;
use crate::polynomial::Polynomial;
use crate::bfv::correctness::{all_small, lemma_errors_small};
use crate::transformation::ntt_table::{all_below, vals};
use crate::transformation::NTTTable;
use vstd::prelude::*;

verus! {

/// A secret key: a polynomial with ternary coefficients.
#[derive(Clone, Debug, PartialEq)]
pub struct BFVSecretKey {
    ternary_key: Polynomial<CipherField>,
}

/// Every coefficient is `0`, `1` or `-1`.
pub open spec fn is_ternary(s: Seq<CipherField>) -> bool {
    forall|i: int|
        0 <= i < s.len() ==> fval(#[trigger] s[i]) <= 1 || fval(s[i]) == CipherField::spec_modulus()
            - 1
}

/// Ternary coefficients are canonical.
pub proof fn lemma_ternary_canonical(s: Seq<CipherField>)
    requires
        is_ternary(s),
    ensures
        all_canonical(s),
        all_below(s, 4),
{
    assert forall|i: int| 0 <= i < s.len() implies canonical(#[trigger] s[i]) by {}
    assert forall|i: int| 0 <= i < s.len() implies fval(#[trigger] s[i]) < 4
        * CipherField::spec_modulus() by {}
}

/// Canonical coefficients are below four times the modulus.
pub proof fn lemma_canonical_below(s: Seq<CipherField>)
    requires
        all_canonical(s),
    ensures
        all_below(s, 4),
        all_below(s, 2),
{
    assert forall|i: int| 0 <= i < s.len() implies fval(#[trigger] s[i]) < 4
        * CipherField::spec_modulus() by {
        assert(canonical(s[i]));
    }
    assert forall|i: int| 0 <= i < s.len() implies fval(#[trigger] s[i]) < 2
        * CipherField::spec_modulus() by {
        assert(canonical(s[i]));
    }
}

/// `pk` is the public key `(a·s + e, -a)` of the secret key `s`, made
/// with `a` and with an error `e` within 21 of zero.
pub open spec fn is_public_key_with(
    table: NTTTable<CipherField>,
    s: Seq<int>,
    a: Seq<int>,
    e: Seq<int>,
    pk: BFVPublicKey,
) -> bool {
    &&& a.len() == s.len()
    &&& e.len() == s.len()
    &&& all_small(e, 21, CipherField::spec_modulus() as int)
    &&& vals(pk.0[0]@) == seq_add(
        ring_product(a, s, table),
        e,
        CipherField::spec_modulus() as int,
    )
    &&& vals(pk.0[1]@) == seq_neg(a, CipherField::spec_modulus() as int)
}

/// `pk` is a public key of the secret key `s`: the pair `(a·s + e, -a)`
/// for some `a` and some error `e` within 21 of zero.
pub open spec fn is_public_key(table: NTTTable<CipherField>, s: Seq<int>, pk: BFVPublicKey) -> bool {
    exists|a: Seq<int>, e: Seq<int>| #[trigger] is_public_key_with(table, s, a, e, pk)
}

impl BFVSecretKey {
    /// The polynomial of the key.
    pub closed spec fn spec_key(self) -> Polynomial<CipherField> {
        self.ternary_key
    }

    /// The key has `n` ternary coefficients.
    pub open spec fn wf(self, n: nat) -> bool {
        self.spec_key()@.len() == n && is_ternary(self.spec_key()@)
    }

    /// A fresh secret key with ternary coefficients.
    pub fn new(ctx: &mut BFVContext) -> (sk: Self)
        requires
            old(ctx).wf(),
        ensures
            final(ctx).wf(),
            final(ctx).spec_table() == old(ctx).spec_table(),
            sk.wf(old(ctx).spec_rlwe_dimension() as nat),
    {
        let n = ctx.rlwe_dimension();
        let poly = Polynomial::<CipherField>::random_with_ternary(n, ctx.csrng_mut());
        BFVSecretKey { ternary_key: poly }
    }

    /// Returns the polynomial of the key.
    pub fn secret_key(&self) -> (key: &Polynomial<CipherField>)
        ensures
            *key == self.spec_key(),
    {
        &self.ternary_key
    }

    /// The public key `(a·s + e, -a)` of the key `s`, for a given `a` and a given error `e`.
    pub fn pubkey_with(
        &self,
        ctx: &BFVContext,
        a: &Polynomial<CipherField>,
        e: &Polynomial<CipherField>,
    ) -> (pk: BFVPublicKey)
        requires
            ctx.wf(),
            self.wf(ctx.spec_rlwe_dimension() as nat),
            a@.len() == ctx.spec_rlwe_dimension(),
            e@.len() == ctx.spec_rlwe_dimension(),
            all_canonical(a@),
            all_canonical(e@),
        ensures
            pk.wf(ctx.spec_rlwe_dimension() as nat),
            vals(pk.0[0]@) == seq_add(
                ring_product(vals(a@), vals(self.spec_key()@), ctx.spec_table()),
                vals(e@),
                CipherField::spec_modulus() as int,
            ),
            vals(pk.0[1]@) == seq_neg(vals(a@), CipherField::spec_modulus() as int),
    {
        proof {
            lemma_ternary_canonical(self.ternary_key@);
            lemma_canonical_below(a@);
        }
        let product = a.mul(&self.ternary_key, ctx.table());
        let b = product.add(e);
        let minus_a = a.neg();
        proof {
            lemma_elementwise(b@, product@, e@, CipherField::spec_new(0));
            lemma_elementwise(minus_a@, a@, a@, CipherField::spec_new(0));
        }
        BFVPublicKey::new([b, minus_a])
    }

    /// A fresh public key `(a·s + e, -a)` of the key: `a` is drawn
    /// uniformly and `e` from the error distribution.
    pub fn gen_pubkey(&self, ctx: &mut BFVContext) -> (pk: BFVPublicKey)
        requires
            old(ctx).wf(),
            self.wf(old(ctx).spec_rlwe_dimension() as nat),
        ensures
            final(ctx).wf(),
            final(ctx).spec_table() == old(ctx).spec_table(),
            pk.wf(old(ctx).spec_rlwe_dimension() as nat),
            is_public_key(old(ctx).spec_table(), vals(self.spec_key()@), pk),
    {
        let n = ctx.rlwe_dimension();
        let a = Polynomial::<CipherField>::random(n, ctx.csrng_mut());
        let e = Polynomial::<CipherField>::random_with_gaussian(n, ctx.csrng_mut());
        proof {
            lemma_errors_small(e@);
        }
        let pk = self.pubkey_with(ctx, &a, &e);
        proof {
            assert(is_public_key_with(
                ctx.spec_table(),
                vals(self.spec_key()@),
                vals(a@),
                vals(e@),
                pk,
            ));
        }
        pk
    }

    /// The key as bytes: the coefficients, every word as four bytes with
    /// the most significant first. There is no length before them.
    pub fn to_vec(&self) -> (bytes: Vec<u8>)
        ensures
            bytes@.len() == 4 * self.spec_key()@.len(),
            forall|i: int|
                0 <= i < self.spec_key()@.len() ==> word_at(bytes@, i) == #[trigger] vals(
                    self.spec_key()@,
                )[i],
    {
        let mut bytes: Vec<u8> = Vec::new();
        write_polynomial(&mut bytes, &self.ternary_key);
        bytes
    }

    /// The key that bytes stand for: a coefficient for every four bytes.
    /// Up to three bytes at the end are passed over.
    pub fn from_vec(bytes: &[u8]) -> (sk: Self)
        ensures
            sk.spec_key()@.len() == bytes@.len() / 4,
            forall|i: int|
                0 <= i < bytes@.len() / 4 ==> #[trigger] vals(sk.spec_key()@)[i] == word_at(
                    bytes@,
                    i,
                ),
    {
        let count = bytes.len() / 4;
        BFVSecretKey { ternary_key: read_polynomial(bytes, 0, count) }
    }
}

} // verus!
