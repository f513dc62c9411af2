use bfv::modulus::{BarrettModulus, PowOf2Modulus, ShoupFactor};
use bfv::reduce::{
    AddReduce, InvReduce, MulReduce, NegReduce, PowReduce, Reduce, SubReduce, TryInvReduce,
};
use bfv::utils::{ExtendedGCD, Prime, ReverseLsbs};
use rand::distributions::Uniform;
use rand::{thread_rng, Rng};

#[test]
fn test_modulus_create() {
    let mut rng = thread_rng();

    let _m = BarrettModulus::<u8>::new(rng.gen_range(2..=(u8::MAX >> 2)));
    let _m = BarrettModulus::<u16>::new(rng.gen_range(2..=(u16::MAX >> 2)));
    let _m = BarrettModulus::<u32>::new(rng.gen_range(2..=(u32::MAX >> 2)));
    let _m = BarrettModulus::<u64>::new(rng.gen_range(2..=(u64::MAX >> 2)));
}

#[test]
fn test_barret_reduce() {
    let mut rng = thread_rng();

    let m: u64 = rng.gen_range(2..=(u64::MAX >> 2));
    let modulus = BarrettModulus::<u64>::new(m);

    let v: u64 = rng.gen();
    assert_eq!(v.reduce(modulus), v % m);
}

#[test]
fn test_barret_reduce_128() {
    let mut rng = thread_rng();

    let m: u64 = rng.gen_range(2..=(u64::MAX >> 2));
    let modulus = BarrettModulus::<u64>::new(m);

    let lw64: u64 = rng.gen();
    let hw64: u64 = rng.gen();
    let v: u128 = ((hw64 as u128) << 64) + (lw64 as u128);
    assert_eq!([lw64, hw64].reduce(modulus), (v % (m as u128)) as u64);
    assert_eq!((lw64, hw64).reduce(modulus), (v % (m as u128)) as u64);
}

#[test]
fn test_barrett_const() {
    let modulus1: BarrettModulus<u32> = BarrettModulus::<u32>::new(17);
    let modulus2: BarrettModulus<u32> = BarrettModulus::<u32>::new(101);
    let modulus3: BarrettModulus<u64> = BarrettModulus::<u64>::new(521);

    let a: u32 = modulus1.bit_count();
    let b: u32 = modulus2.bit_count();
    let c: u32 = modulus3.bit_count();

    assert_eq!(modulus1.bit_count(), 5);
    assert_eq!(modulus2.bit_count(), 7);
    assert_eq!(modulus3.bit_count(), 10);

    assert_eq!(a, 5);
    assert_eq!(b, 7);
    assert_eq!(c, 10);
}

fn simple_pow(base: u32, mut exp: u32, modulus: u32) -> u32 {
    if exp == 0 {
        return 1;
    }

    if exp == 1 {
        return base;
    }

    let mut power: u32 = base;
    let mut intermediate: u32 = 1;
    loop {
        if exp & 1 != 0 {
            intermediate = ((intermediate as u64 * power as u64) % modulus as u64) as u32;
        }
        exp >>= 1;
        if exp == 0 {
            break;
        }
        power = ((power as u64 * power as u64) % modulus as u64) as u32;
    }
    intermediate
}

#[test]
fn test_pow_mod_simple() {
    const P: u32 = 1000000513;
    let modulus = BarrettModulus::<u32>::new(P);

    let distr = Uniform::new_inclusive(0, P - 1);
    let mut rng = thread_rng();

    for _ in 0..5 {
        let base: u32 = rng.sample(distr);
        let exp: u32 = rand::random();

        assert_eq!(simple_pow(base, exp, P), base.pow_reduce(exp, modulus));
    }
}

#[test]
fn test_inverse() {
    type Num = u64;
    let mut rng = thread_rng();

    let mut m = rng.gen_range(2..=(Num::MAX >> 2));

    if m & 1 == 0 {
        m |= 1;
    }

    let modulus = BarrettModulus::<Num>::new(m);

    if modulus.probably_prime(20) {
        let value: Num = rng.gen_range(2..modulus.value());
        let inv: Num = value.inv_reduce(modulus);
        assert_eq!(
            value.mul_reduce(inv, modulus),
            1,
            "\nval:{value}\ninv:{inv}\nmod:{}",
            modulus.value()
        );
    }
}

#[test]
fn mod_test_modulus_create() {
    let mut rng = thread_rng();

    let _m = PowOf2Modulus::<u8>::new(rng.gen_range(2..=(u8::MAX >> 2)).next_power_of_two());
    let _m = PowOf2Modulus::<u16>::new(rng.gen_range(2..=(u16::MAX >> 2)).next_power_of_two());
    let _m = PowOf2Modulus::<u32>::new(rng.gen_range(2..=(u32::MAX >> 2)).next_power_of_two());
    let _m = PowOf2Modulus::<u64>::new(rng.gen_range(2..=(u64::MAX >> 2)).next_power_of_two());
}

#[test]
fn test_reduce() {
    let mut rng = thread_rng();

    let m: u64 = rng.gen_range(2..=(u64::MAX >> 2)).next_power_of_two();
    let modulus = PowOf2Modulus::<u64>::new(m);
    let dis = Uniform::new_inclusive(0, modulus.mask());

    let v: u64 = rng.sample(dis);
    assert_eq!(v.reduce(modulus), v % m);

    let a: u64 = rng.sample(dis);
    let b: u64 = rng.sample(dis);
    assert_eq!(a.add_reduce(b, modulus), (a + b) % m);

    let a: u64 = rng.sample(dis);
    let b: u64 = rng.sample(dis);
    assert_eq!(a.sub_reduce(b, modulus), (m + a - b) % m);

    let a: u64 = rng.sample(dis);
    let b: u64 = rng.sample(dis);
    assert_eq!(
        a.mul_reduce(b, modulus),
        ((a as u128 * b as u128) % m as u128) as u64
    );

    let a: u64 = rng.sample(dis);
    let a_neg = a.neg_reduce(modulus);
    assert_eq!(a_neg.add_reduce(a, modulus), 0);

    assert_eq!(0.neg_reduce(modulus), 0);
}

#[test]
fn test_shoup_factor() {
    let mut rng = thread_rng();

    let modulus_value: u64 = rng.gen_range(2..=(u64::MAX >> 2));
    let modulus = BarrettModulus::<u64>::new(modulus_value);

    let a = rng.gen_range(0..modulus_value);
    let factor = <ShoupFactor<u64>>::new(a, modulus_value);

    let b: u64 = rng.gen();

    assert_eq!(
        a.mul_reduce(b.reduce(modulus), modulus),
        factor.mul_reduce(b, modulus_value)
    );
}

#[test]
fn test_extended_gcd() {
    let mut rng = thread_rng();

    let x = rng.gen_range(1..=(u64::MAX >> 2));
    let y = rng.gen_range(1..=(u64::MAX >> 2));

    let (a, b, d) = u64::extended_gcd(x, y);

    assert_eq!(a as i128 * x as i128 + b as i128 * y as i128, d as i128);
}

fn simple_prime_test(modulus: u64) -> bool {
    let root = (modulus as f64).sqrt().ceil() as u64;

    if modulus.rem_euclid(2) == 0 {
        return false;
    }
    for r in (3..=root).step_by(2) {
        if modulus.rem_euclid(r) == 0 {
            return false;
        }
    }
    true
}

#[test]
fn test_prime_test() {
    let mut r = thread_rng();

    for _ in 0..5 {
        let m = r.gen_range(2..=(u64::MAX >> 2));
        let modulus = BarrettModulus::<u64>::new(m);
        let is_prime = modulus.probably_prime(20);
        assert_eq!(is_prime, simple_prime_test(m));
    }
}

#[test]
fn barrett_reduce_fixed_values() {
    let modulus = BarrettModulus::<u32>::new(132120577);
    assert_eq!(132120576u32.reduce(modulus), 132120576);
    assert_eq!(132120577u32.reduce(modulus), 0);
    assert_eq!(u32::MAX.reduce(modulus), u32::MAX % 132120577);
    // 2^64 - 1 = (2^32 - 1) + 2^32·(2^32 - 1)
    let wide = (u64::MAX % 132120577) as u32;
    assert_eq!((u32::MAX, u32::MAX).reduce(modulus), wide);
    let limbs: [u32; 3] = [7, 11, 13];
    let value = 7u128 + (11u128 << 32) + (13u128 << 64);
    assert_eq!(limbs[..].reduce(modulus), (value % 132120577) as u32);
}

#[test]
fn shoup_lazy_is_below_twice_the_modulus() {
    let p: u32 = 132120577;
    for (w, x) in [(0u32, 5u32), (1, p - 1), (p - 1, p - 1), (12345, u32::MAX)] {
        let factor = ShoupFactor::<u32>::new(w, p);
        let lazy = factor.mul_reduce_lazy(x, p);
        assert!(lazy < 2 * p);
        assert_eq!(lazy % p, ((w as u64 * x as u64) % p as u64) as u32);
        assert_eq!(factor.mul_reduce(x, p), ((w as u64 * x as u64) % p as u64) as u32);
    }
}

#[test]
fn gcd_and_inverse_fixed_values() {
    assert_eq!(12u32.gcd(18), 6);
    assert_eq!(0u32.gcd(18), 18);
    assert_eq!(0u32.gcd(0), 0);
    assert!(35u64.coprime(12));
    assert!(35u64.not_coprime(14));
    let (a, b, g) = u32::extended_gcd(240, 46);
    assert_eq!(g, 2);
    assert_eq!(a as i64 * 240 + b as i64 * 46, 2);
    assert_eq!(3u32.inv_reduce(7u32), 5);
    assert_eq!(3u32.try_inv_reduce(7u32), Ok(5));
    assert_eq!(
        6u32.try_inv_reduce(9u32),
        Err(bfv::AlgebraError::NoReduceInverse { value: 6, modulus: 9 })
    );
}

#[test]
fn small_primes_and_composites() {
    for n in 2u32..64 {
        let expected = (2..n).all(|d| n % d != 0);
        assert_eq!(BarrettModulus::<u32>::new(n).probably_prime(5), expected, "{n}");
    }
    assert!(BarrettModulus::<u32>::new(132120577).probably_prime(20));
    assert!(!BarrettModulus::<u32>::new(132120579).probably_prime(20));
    // 3215031751 is a strong pseudoprime to the bases 2, 3, 5 and 7; it is too
    // large for a 32-bit modulus, so take 2047 = 23 · 89, a strong pseudoprime to the base 2
    assert!(!BarrettModulus::<u32>::new(2047).probably_prime(20));
}

#[test]
fn div_ceil_values() {
    assert_eq!(bfv::div_ceil(27, 3), 9);
    assert_eq!(bfv::div_ceil(27, 2), 14);
    assert_eq!(bfv::div_ceil(0, 5), 0);
    assert_eq!(bfv::div_ceil(1, 5), 1);
}

#[test]
fn reverse_lsbs_values() {
    assert_eq!(0b00001101u8.reverse_lsbs(4), 0b00001011u8);
    assert_eq!(0b01101101u8.reverse_lsbs(4), 0b00001011u8);
    assert_eq!(1usize.reverse_lsbs(3), 4);
    assert_eq!(6usize.reverse_lsbs(3), 3);
    assert_eq!(5u64.reverse_lsbs(0), 0);
}
