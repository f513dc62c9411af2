//! The public keys of the scheme.

use crate::bfv::ciphertext::{is_pair_frame, CipherField};
use crate::bfv::serial::{lemma_frame, read_polynomial, read_word, word_at, write_polynomial, write_word};
use crate::polynomial::elementwise::all_canonical;
use crate::polynomial::Polynomial;
use crate::transformation::ntt_table::vals;
use vstd::prelude::*;

verus! {

/// A public key: the pair `(b, -a)` with `b = a·s + e`.
#[derive(Clone, Debug, PartialEq)]
pub struct BFVPublicKey(pub [Polynomial<CipherField>; 2]);

impl BFVPublicKey {
    /// Both polynomials have `n` canonical coefficients.
    pub open spec fn wf(self, n: nat) -> bool {
        &&& self.0[0]@.len() == n
        &&& self.0[1]@.len() == n
        &&& all_canonical(self.0[0]@)
        &&& all_canonical(self.0[1]@)
    }

    /// The public key with the polynomials `polys`.
    pub fn new(polys: [Polynomial<CipherField>; 2]) -> (r: Self)
        ensures
            r.0 == polys,
    {
        BFVPublicKey(polys)
    }

    /// The key as bytes: the two lengths as words, then the coefficients
    /// of the first and of the second polynomial, every word as four bytes
    /// with the most significant first.
    pub fn to_vec(&self) -> (bytes: Vec<u8>)
        requires
            self.0[0]@.len() + self.0[1]@.len() < 0x4000_0000,
        ensures
            is_pair_frame(bytes@, vals(self.0[0]@), vals(self.0[1]@)),
    {
        let mut bytes: Vec<u8> = Vec::new();
        write_word(&mut bytes, self.0[0].coeff_count() as u32);
        write_word(&mut bytes, self.0[1].coeff_count() as u32);
        write_polynomial(&mut bytes, &self.0[0]);
        write_polynomial(&mut bytes, &self.0[1]);
        bytes
    }

    /// The key that bytes stand for, in the layout of `to_vec`. The bytes
    /// hold the two lengths and as many words as the lengths say; what
    /// follows them is passed over.
    pub fn from_vec(bytes: &[u8]) -> (r: Self)
        requires
            bytes@.len() >= 8,
            4 * (2 + word_at(bytes@, 0) + word_at(bytes@, 1)) <= bytes@.len(),
        ensures
            is_pair_frame(
                bytes@.take((4 * (2 + word_at(bytes@, 0) + word_at(bytes@, 1))) as int),
                vals(r.0[0]@),
                vals(r.0[1]@),
            ),
    {
        let total = bytes.len();
        let len0 = read_word(bytes, 0) as usize;
        let len1 = read_word(bytes, 1) as usize;
        let c0 = read_polynomial(bytes, 2, len0);
        let c1 = read_polynomial(bytes, 2 + len0, len1);
        proof {
            lemma_frame(bytes@, vals(c0@), vals(c1@));
        }
        BFVPublicKey([c0, c1])
    }
}

} // verus!
