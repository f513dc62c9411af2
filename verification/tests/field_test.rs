use bfv::field::Basis;
use bfv::modulus::BarrettModulus;
use bfv::reduce::PowReduce;
use bfv::utils::Prime;
use bfv::{CipherField, Field, FieldCore, ModulusConfig, PlainField, PrimeField};
use rand::distributions::Uniform;
use rand::thread_rng;
use rand::Rng;

type FF = CipherField;
type T = u32;
type W = u64;

#[test]
fn test_fp() {
    let p = FF::modulus().value();

    let distr = Uniform::new(0, p);
    let mut rng = thread_rng();

    assert!(FF::is_prime_field());

    // add
    let a = rng.sample(distr);
    let b = rng.sample(distr);
    let c = (a + b) % p;
    assert_eq!(FF::new(a) + FF::new(b), FF::new(c));

    // add_assign
    let mut a = FF::new(a);
    a = a + FF::new(b);
    assert_eq!(a, FF::new(c));

    // sub
    let a = rng.sample(distr);
    let b = rng.gen_range(0..=a);
    let c = (a - b) % p;
    assert_eq!(FF::new(a) - FF::new(b), FF::new(c));

    // sub_assign
    let mut a = FF::new(a);
    a = a - FF::new(b);
    assert_eq!(a, FF::new(c));

    // mul
    let a = rng.sample(distr);
    let b = rng.sample(distr);
    let c = ((a as W * b as W) % p as W) as T;
    assert_eq!(FF::new(a) * FF::new(b), FF::new(c));

    // mul_assign
    let mut a = FF::new(a);
    a = a * FF::new(b);
    assert_eq!(a, FF::new(c));

    // div
    let a = rng.sample(distr);
    let b = rng.gen_range(1..p);
    let b_inv = b.pow_reduce(p - 2, BarrettModulus::<T>::new(p));
    let c = ((a as W * b_inv as W) % p as W) as T;
    assert_eq!(FF::new(a) / FF::new(b), FF::new(c));

    // div_assign
    let mut a = FF::new(a);
    a = a / FF::new(b);
    assert_eq!(a, FF::new(c));

    // neg
    let a = rng.sample(distr);
    let a_neg = -FF::new(a);
    assert_eq!(FF::new(a) + a_neg, FF::zero());

    let a = FF::zero();
    assert_eq!(a, -a);

    // inv
    let a = rng.gen_range(1..p);
    let a_inv = a.pow_reduce(p - 2, BarrettModulus::<T>::new(p));
    assert_eq!(Field::inv(FF::new(a)), FF::new(a_inv));
    assert_eq!(FF::new(a) * FF::new(a_inv), FF::one());

    // associative
    let a = rng.sample(distr);
    let b = rng.sample(distr);
    let c = rng.sample(distr);
    assert_eq!(
        (FF::new(a) + FF::new(b)) + FF::new(c),
        FF::new(a) + (FF::new(b) + FF::new(c))
    );
    assert_eq!(
        (FF::new(a) * FF::new(b)) * FF::new(c),
        FF::new(a) * (FF::new(b) * FF::new(c))
    );

    // commutative
    let a = rng.sample(distr);
    let b = rng.sample(distr);
    assert_eq!(FF::new(a) + FF::new(b), FF::new(b) + FF::new(a));
    assert_eq!(FF::new(a) * FF::new(b), FF::new(b) * FF::new(a));

    // identity
    let a = rng.sample(distr);
    assert_eq!(FF::new(a) + FF::new(0), FF::new(a));
    assert_eq!(FF::new(a) * FF::new(1), FF::new(a));

    // distribute
    let a = rng.sample(distr);
    let b = rng.sample(distr);
    let c = rng.sample(distr);
    assert_eq!(
        (FF::new(a) + FF::new(b)) * FF::new(c),
        (FF::new(a) * FF::new(c)) + (FF::new(b) * FF::new(c))
    );
}

#[test]
fn test_decompose() {
    const BITS: u32 = 2;
    const B: u32 = 1 << BITS;
    let basis = <Basis<FF>>::new(BITS);
    let rng = &mut thread_rng();

    let a: FF = FF::new(rng.gen_range(0..132120577));
    let decompose = a.decompose(basis);
    let compose = decompose
        .into_iter()
        .enumerate()
        .fold(FF::new(0), |acc, (i, d)| {
            acc + d.mul_scalar(B.pow(i as T) as T)
        });

    assert_eq!(compose, a);
}

#[test]
fn field_constants() {
    assert_eq!(FF::one().get(), 1);
    assert_eq!(FF::zero().get(), 0);
    assert_eq!(FF::neg_one().get(), 132120576);
    assert_eq!(FF::max().get(), 132120576);
    assert_eq!(FF::q_div_8().get(), 132120577 / 8);
    assert_eq!(FF::neg_q_div_8().get(), 132120577 - 132120577 / 8);
    assert_eq!(FF::twice_modulus_inner(), 2 * 132120577);
    assert_eq!(FF::modulus_value(), 132120577);
    assert_eq!(FF::order(), 132120577);
    assert_eq!(PlainField::modulus_value(), 61);
    assert_eq!(PlainField::neg_one().get(), 60);
    assert_eq!(FF::mask(3), 7);
    assert_eq!(FF::mask(32), u32::MAX);
    assert_eq!(FF::default(), FF::zero());
}

#[test]
fn field_fast_and_fused_operations() {
    let p: u64 = 132120577;
    let a = FF::new(132120000);
    let b = FF::new(99999999);
    let c = FF::new(7);
    let exact = ((132120000u64 * 99999999u64 + 7) % p) as u32;
    assert_eq!(c.add_mul(a, b).get(), exact);
    let fast = c.add_mul_fast(a, b);
    assert!((fast.get() as u64) < 2 * p);
    assert_eq!(fast.normalize().get(), exact);
    let lazy = a.mul_fast(b);
    assert!((lazy.get() as u64) < 2 * p);
    assert_eq!(lazy.normalize(), a * b);
    assert_eq!(FF::checked_new(u32::MAX).get(), u32::MAX % 132120577);
    assert_eq!(FF::new(132120578).normalize().get(), 1);
    assert_eq!(Field::pow(FF::new(3), 0).get(), 1);
    assert_eq!(Field::pow(FF::new(3), 5).get(), 243);
    assert_eq!(FF::new(5).cast_into_usize(), 5);
    assert_eq!(FF::cast_from_usize(9).get(), 9);
}

#[test]
fn fermat_little_theorem() {
    let p: u32 = 132120577;
    let mut rng = thread_rng();
    for _ in 0..10 {
        let g = rng.gen_range(2..p);
        assert_eq!(Field::pow(FF::new(g), p - 1), FF::one());
    }
}

#[test]
fn plain_field_inverses() {
    for a in 1u16..61 {
        let x = PlainField::new(a);
        let inverse = Field::inv(x);
        assert!(inverse.get() < 61);
        assert_eq!(x * inverse, PlainField::one());
        assert_eq!(Field::inv(inverse), x);
    }
}

#[test]
fn decompose_digits_and_basis() {
    let basis = <Basis<FF>>::new(3);
    // a modulus of 27 bits takes 9 digits of 3 bits
    assert_eq!(basis.decompose_len(), 9);
    assert_eq!(basis.bits(), 3);
    assert_eq!(basis.mask(), 7);
    assert_eq!(basis.basis(), 8);
    let digits = FF::new(0o1234567).decompose(basis);
    let words: Vec<u32> = digits.iter().map(|d| d.get()).collect();
    assert_eq!(words, vec![7, 6, 5, 4, 3, 2, 1, 0, 0]);
    let mut value = FF::new(0o1234567);
    let low = value.decompose_lsb_bits(7, 3);
    assert_eq!(low.get(), 7);
    assert_eq!(value.get(), 0o123456);
    let mut destination = vec![FF::new(99); 4];
    FF::new(0o21).decompose_at(basis, &mut destination);
    let words: Vec<u32> = destination.iter().map(|d| d.get()).collect();
    assert_eq!(words, vec![1, 2, 99, 99]);
}

#[test]
fn cipher_field_bytes() {
    let x = FF::new(0x01020304);
    assert_eq!(x.to_bytes(), [1, 2, 3, 4]);
    assert_eq!(FF::from_bytes([1, 2, 3, 4]), x);
    assert_eq!(FF::from_bytes([0xff, 0xff, 0xff, 0xff]).get(), u32::MAX);
}

#[test]
fn plain_field_quotients() {
    assert!(PlainField::is_prime_field());
    for a in 0..61u16 {
        for b in 1..61u16 {
            let quotient = PlainField::new(a) / PlainField::new(b);
            assert!(quotient.get() < 61);
            assert_eq!(quotient * PlainField::new(b), PlainField::new(a));
        }
    }
    assert_eq!(PlainField::new(1) / PlainField::new(2), PlainField::new(31));
}

#[test]
fn cipher_field_quotients() {
    let a = FF::new(123456);
    let b = FF::new(7);
    let quotient = a / b;
    assert!(quotient.get() < 132120577);
    assert_eq!(quotient * b, a);
    assert_eq!(FF::new(1) / FF::new(2), FF::new(66060289));
}

#[test]
fn composite_moduli_are_refused() {
    assert!(!BarrettModulus::<u32>::new(132120575).probably_prime(20));
    assert!(!BarrettModulus::<u32>::new(3481 * 3481).probably_prime(20));
    assert!(BarrettModulus::<u32>::new(132120577).probably_prime(20));
}

#[test]
fn the_power_of_the_order_is_one() {
    for a in 1u16..61 {
        assert_eq!(Field::pow(PlainField::new(a), 60u16), PlainField::new(1));
    }
    for g in [1u32, 2, 3, 66060288, 132120575, 132120576] {
        assert_eq!(Field::pow(FF::new(g), 132120576u32), FF::one());
    }
    assert_eq!(Field::pow(FF::new(0), 132120576u32), FF::new(0));
}
