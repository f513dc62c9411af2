//! Words and polynomials as bytes, most significant byte first.

use crate::bfv::ciphertext::CipherField;
use crate::field::{fval, FieldCore};
use crate::polynomial::Polynomial;
use crate::transformation::ntt_table::vals;
use vstd::prelude::*;

verus! {

/// The word that the four bytes from `4k` on stand for, most significant first.
pub open spec fn word_at(bytes: Seq<u8>, k: int) -> nat {
    (bytes[4 * k] as nat) * 0x100_0000 + (bytes[4 * k + 1] as nat) * 0x1_0000 + (bytes[4 * k
        + 2] as nat) * 0x100 + (bytes[4 * k + 3] as nat)
}

/// Appends a word as four bytes, most significant first.
pub fn write_word(bytes: &mut Vec<u8>, w: u32)
    requires
        old(bytes)@.len() % 4 == 0,
    ensures
        final(bytes)@.len() == old(bytes)@.len() + 4,
        final(bytes)@.take(old(bytes)@.len() as int) == old(bytes)@,
        word_at(final(bytes)@, old(bytes)@.len() as int / 4) == w,
{
    let ghost before = bytes@;
    bytes.push((w / 0x100_0000) as u8);
    bytes.push(((w / 0x1_0000) % 0x100) as u8);
    bytes.push(((w / 0x100) % 0x100) as u8);
    bytes.push((w % 0x100) as u8);
    proof {
        assert(bytes@.take(before.len() as int) =~= before);
    }
}

/// The word `k` of the bytes.
pub fn read_word(bytes: &[u8], k: usize) -> (w: u32)
    requires
        4 * (k + 1) <= bytes@.len(),
    ensures
        w == word_at(bytes@, k as int),
{
    let total = bytes.len();
    let i = 4 * k;
    (bytes[i] as u32) * 0x100_0000 + (bytes[i + 1] as u32) * 0x1_0000 + (bytes[i + 2] as u32)
        * 0x100 + (bytes[i + 3] as u32)
}

/// A word of a sequence is a word of every longer sequence that begins with it.
pub proof fn lemma_word_of_prefix(bytes: Seq<u8>, n: int, k: int)
    requires
        0 <= k,
        4 * (k + 1) <= n <= bytes.len(),
    ensures
        word_at(bytes.take(n), k) == word_at(bytes, k),
{
}

/// Appends the coefficients of a polynomial, word by word.
pub fn write_polynomial(bytes: &mut Vec<u8>, poly: &Polynomial<CipherField>)
    requires
        old(bytes)@.len() % 4 == 0,
    ensures
        final(bytes)@.len() == old(bytes)@.len() + 4 * poly@.len(),
        final(bytes)@.take(old(bytes)@.len() as int) == old(bytes)@,
        forall|i: int|
            0 <= i < poly@.len() ==> word_at(final(bytes)@, old(bytes)@.len() as int / 4 + i)
                == #[trigger] vals(poly@)[i],
{
    let ghost before = bytes@;
    let ghost base = before.len() as int / 4;
    let n = poly.coeff_count();
    let mut i: usize = 0;
    proof {
        assert(bytes@.take(before.len() as int) =~= before);
    }
    while i < n
        invariant
            i <= n,
            n == poly@.len(),
            before.len() % 4 == 0,
            base == before.len() as int / 4,
            bytes@.len() == before.len() + 4 * i,
            bytes@.take(before.len() as int) == before,
            forall|j: int| 0 <= j < i ==> word_at(bytes@, base + j) == #[trigger] vals(poly@)[j],
        decreases n - i,
    {
        let ghost mid = bytes@;
        let word = poly.get(i).to_bytes();
        bytes.push(word[0]);
        bytes.push(word[1]);
        bytes.push(word[2]);
        bytes.push(word[3]);
        proof {
            assert(bytes@.take(before.len() as int) =~= before) by {
                assert(mid.take(before.len() as int) == before);
                assert forall|j: int| 0 <= j < before.len() implies bytes@[j] == before[j] by {
                    assert(bytes@[j] == mid[j]);
                    assert(mid.take(before.len() as int)[j] == mid[j]);
                }
            }
            assert forall|j: int| 0 <= j < i + 1 implies word_at(bytes@, base + j)
                == #[trigger] vals(poly@)[j] by {
                if j < i {
                    assert(word_at(mid, base + j) == vals(poly@)[j]);
                    assert(bytes@[4 * (base + j)] == mid[4 * (base + j)]);
                    assert(bytes@[4 * (base + j) + 1] == mid[4 * (base + j) + 1]);
                    assert(bytes@[4 * (base + j) + 2] == mid[4 * (base + j) + 2]);
                    assert(bytes@[4 * (base + j) + 3] == mid[4 * (base + j) + 3]);
                }
            }
        }
        i = i + 1;
    }
}

/// The polynomial of `count` coefficients that the words from `start` on stand for.
pub fn read_polynomial(bytes: &[u8], start: usize, count: usize) -> (poly: Polynomial<CipherField>)
    requires
        4 * (start + count) <= bytes@.len(),
    ensures
        poly@.len() == count,
        forall|i: int| 0 <= i < count ==> #[trigger] vals(poly@)[i] == word_at(bytes@, start + i),
{
    let mut data: Vec<CipherField> = Vec::new();
    let total = bytes.len();
    let mut i: usize = 0;
    while i < count
        invariant
            i <= count,
            total == bytes@.len(),
            4 * (start + count) <= bytes@.len(),
            data@.len() == i,
            forall|j: int| 0 <= j < i ==> fval(#[trigger] data@[j]) == word_at(bytes@, start + j),
        decreases count - i,
    {
        let k = start + i;
        let b = 4 * k;
        data.push(CipherField::from_bytes([bytes[b], bytes[b + 1], bytes[b + 2], bytes[b + 3]]));
        i = i + 1;
    }
    Polynomial::new(data)
}

/// The words that were read from a frame are the frame.
pub proof fn lemma_frame(bytes: Seq<u8>, c0: Seq<int>, c1: Seq<int>)
    requires
        bytes.len() >= 8,
        c0.len() == word_at(bytes, 0),
        c1.len() == word_at(bytes, 1),
        4 * (2 + c0.len() + c1.len()) <= bytes.len(),
        forall|i: int| 0 <= i < c0.len() ==> #[trigger] c0[i] == word_at(bytes, 2 + i),
        forall|i: int| 0 <= i < c1.len() ==> #[trigger] c1[i] == word_at(bytes, 2 + c0.len() + i),
    ensures
        crate::bfv::ciphertext::is_pair_frame(
            bytes.take((4 * (2 + c0.len() + c1.len())) as int),
            c0,
            c1,
        ),
{
    let n = 4 * (2 + c0.len() + c1.len());
    lemma_word_of_prefix(bytes, n as int, 0);
    lemma_word_of_prefix(bytes, n as int, 1);
    assert forall|i: int| 0 <= i < c0.len() implies word_at(bytes.take(n as int), 2 + i)
        == #[trigger] c0[i] by {
        lemma_word_of_prefix(bytes, n as int, 2 + i);
    }
    assert forall|i: int| 0 <= i < c1.len() implies word_at(
        bytes.take(n as int),
        2 + c0.len() + i,
    ) == #[trigger] c1[i] by {
        lemma_word_of_prefix(bytes, n as int, 2 + c0.len() + i);
    }
}

} // verus!
