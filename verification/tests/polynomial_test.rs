use bfv::field::Basis;
use rand::SeedableRng;
use rand_chacha::ChaCha12Rng;
use bfv::transformation::NTTTable;
use bfv::{CipherField, Field, FieldCore, NTTField, NTTPolynomial, Polynomial};
use rand::{thread_rng, Rng};

type Inner = u32; // inner type
type FF = CipherField; // field type
type PolyFF = Polynomial<FF>;
type NTTPolyFF = NTTPolynomial<FF>;

const LOG_N: usize = 3;
const N: usize = 1 << LOG_N; // length
const BITS: u32 = 3;
const B: usize = 1 << BITS; // base
const P: Inner = 132120577; // ciphertext space

fn table() -> NTTTable<FF> {
    FF::generate_ntt_table(LOG_N as u32).unwrap()
}

#[test]
fn test_transform() {
    let table = table();

    let a = PolyFF::random(N, &mut ChaCha12Rng::from_entropy());
    let b = a.clone().into_ntt_polynomial(&table);
    let c = b.clone().into_native_polynomial(&table);
    let d = c.clone().into_ntt_polynomial(&table);
    assert_eq!(a, c);
    assert_eq!(b, d);
}

#[test]
fn test_transform_monomial() {
    let mut rng = thread_rng();

    let degree = rng.gen_range(0..N);
    let coeff = FF::new(rng.gen_range(0..P));
    let mut a = PolyFF::zero(N);
    let mut b = vec![FF::zero(); N];
    a.set(degree, coeff);

    let table = table();
    let a = a.into_ntt_polynomial(&table);

    table.transform_monomial(coeff, degree, b.as_mut_slice());
    assert_eq!(a, NTTPolyFF::new(b));
}

#[test]
fn test_monomial_property() {
    let mut rng = thread_rng();

    let table = table();

    let degree = rng.gen_range(0..N);

    let mut a = vec![FF::zero(); N];
    let mut b = vec![FF::zero(); N];

    table.transform_monomial(FF::one(), degree, a.as_mut_slice());
    table.transform_monomial(FF::neg_one(), degree + N, b.as_mut_slice());
    assert_eq!(a, b);

    table.transform_monomial(FF::neg_one(), degree, a.as_mut_slice());
    table.transform_monomial(FF::one(), degree + N, b.as_mut_slice());
    assert_eq!(a, b);

    let degree = rng.gen_range(N..N * 2);

    table.transform_monomial(FF::neg_one(), N * 2 - degree, a.as_mut_slice());
    table.transform_monomial(FF::one(), N * 2 - (degree - N), b.as_mut_slice());
    assert_eq!(a, b);
}

#[test]
fn test_native_poly() {
    let a = PolyFF::new(vec![FF::new(1), FF::new(P - 1)]);
    let b = PolyFF::new(vec![FF::new(P - 1), FF::new(1)]);

    let add_result = PolyFF::new(vec![FF::new(0), FF::new(0)]);
    assert_eq!(a.add(&b), add_result);
    assert_eq!(a.add(&b.clone()), add_result);
    assert_eq!(a.clone().add(&b), add_result);
    assert_eq!(a.clone().add(&b.clone()), add_result);

    let sub_result = PolyFF::new(vec![FF::new(2), FF::new(P - 2)]);
    assert_eq!(a.sub(&b), sub_result);
    assert_eq!(a.sub(&b.clone()), sub_result);
    assert_eq!(a.clone().sub(&b), sub_result);
    assert_eq!(a.clone().sub(&b.clone()), sub_result);

    assert_eq!(a.neg(), b);
}

fn simple_mul(lhs: &PolyFF, rhs: &PolyFF) -> PolyFF {
    assert_eq!(lhs.coeff_count(), rhs.coeff_count());
    let coeff_count = lhs.coeff_count();

    let mut result = vec![FF::zero(); coeff_count];
    let poly1: &[FF] = lhs.as_slice();
    let poly2: &[FF] = rhs.as_slice();

    for i in 0..coeff_count {
        for j in 0..=i {
            result[i] = result[i] + poly1[j] * poly2[i - j];
        }
    }

    // mod (x^n + 1)
    for i in coeff_count..coeff_count * 2 - 1 {
        let k = i - coeff_count;
        for j in i - coeff_count + 1..coeff_count {
            result[k] = result[k] - poly1[j] * poly2[i - j]
        }
    }

    PolyFF::new(result)
}

#[test]
fn test_native_poly_mul() {
    let table = table();

    let mut rng = ChaCha12Rng::from_entropy();

    let a = PolyFF::random(N, &mut rng);
    let b = PolyFF::random(N, &mut rng);

    let mul_result = simple_mul(&a, &b);
    assert_eq!(a.mul(&b, &table), mul_result);

    let b = b.into_ntt_polynomial(&table);
    assert_eq!(a.mul_ntt(&b, &table), mul_result);
    assert_eq!(a.mul_ntt(&b.clone(), &table), mul_result);

    let mul_result = mul_result.into_ntt_polynomial(&table);
    assert_eq!(b.mul(&a.clone().into_ntt_polynomial(&table)), mul_result);
    assert_eq!(b.mul(&a.into_ntt_polynomial(&table)), mul_result);
}

#[test]
fn test_poly_decompose() {
    let rng = &mut ChaCha12Rng::from_entropy();
    let poly = PolyFF::random(N, rng);
    let basis = <Basis<FF>>::new(BITS);
    let decompose = poly.clone().decompose(basis);
    let compose = decompose
        .into_iter()
        .enumerate()
        .fold(PolyFF::zero(N), |acc, (i, mut d)| {
            d.mul_scalar_assign(FF::new(B.pow(i as u32) as Inner));
            acc.add(&d)
        });
    assert_eq!(compose, poly);
}

#[test]
fn test_poly_decompose_mul() {
    let table = table();
    let mut rng = ChaCha12Rng::from_entropy();

    let poly1 = PolyFF::random(N, &mut rng);
    let poly2 = PolyFF::random(N, &mut rng);

    let mul_result = poly1.mul(&poly2, &table);

    let basis = <Basis<FF>>::new(BITS);
    let decompose = poly1.decompose(basis);
    let compose_mul_result = decompose
        .into_iter()
        .enumerate()
        .fold(PolyFF::zero(N), |acc, (i, d)| {
            acc.add(&d.mul(&poly2.mul_scalar(FF::new(B.pow(i as u32) as u32)), &table))
        });
    assert_eq!(compose_mul_result, mul_result);
}

#[test]
fn test_ntt_poly() {
    let a = NTTPolyFF::new(vec![FF::new(1), FF::new(P - 1)]);
    let b = NTTPolyFF::new(vec![FF::new(P - 1), FF::new(1)]);

    let mul_result = NTTPolyFF::new(vec![FF::new(P - 1), FF::new(P - 1)]);
    assert_eq!(a.mul(&b), mul_result);
    assert_eq!(a.mul(&b.clone()), mul_result);
    assert_eq!(a.clone().mul(&b), mul_result);
    assert_eq!(a.clone().mul(&b.clone()), mul_result);

    let add_result = NTTPolyFF::new(vec![FF::new(0), FF::new(0)]);
    assert_eq!(a.add(&b), add_result);
    assert_eq!(a.add(&b.clone()), add_result);
    assert_eq!(a.clone().add(&b), add_result);
    assert_eq!(a.clone().add(&b.clone()), add_result);

    let sub_result = NTTPolyFF::new(vec![FF::new(2), FF::new(P - 2)]);
    assert_eq!(a.sub(&b), sub_result);
    assert_eq!(a.sub(&b.clone()), sub_result);
    assert_eq!(a.clone().sub(&b), sub_result);
    assert_eq!(a.clone().sub(&b.clone()), sub_result);

    assert_eq!(a.neg(), b);
}

#[test]
fn test_poly_eval() {
    let rng = &mut ChaCha12Rng::from_entropy();
    let poly = PolyFF::random(N, rng);

    assert_eq!(
        poly.evaluate(FF::max()),
        poly.as_slice()
            .iter()
            .enumerate()
            .fold(FF::zero(), |acc, (i, a)| if i & 1 == 0 {
                acc + *a
            } else {
                acc - *a
            })
    );
    assert_eq!(poly.evaluate(FF::zero()), poly.get(0));
    assert_eq!(
        poly.evaluate(FF::one()),
        poly.as_slice().iter().fold(FF::zero(), |acc, a| acc + *a)
    );
}

#[test]
fn scenario_sum_difference_and_product() {
    let table = table();
    let p = P;
    let mut a = vec![FF::zero(); N];
    let mut b = vec![FF::zero(); N];
    a[0] = FF::new(1);
    a[1] = FF::new(p - 1);
    b[0] = FF::new(p - 1);
    b[1] = FF::new(1);
    let a = PolyFF::new(a);
    let b = PolyFF::new(b);
    assert_eq!(a.add(&b), PolyFF::zero(N));
    let mut difference = vec![FF::zero(); N];
    difference[0] = FF::new(2);
    difference[1] = FF::new(p - 2);
    assert_eq!(a.sub(&b), PolyFF::new(difference));
    // (1 - X)·(-1 + X) = -1 + 2X - X²
    let mut product = vec![FF::zero(); N];
    product[0] = FF::new(p - 1);
    product[1] = FF::new(2);
    product[2] = FF::new(p - 1);
    assert_eq!(a.mul(&b, &table), PolyFF::new(product));
    assert_eq!(a.mul(&b, &table), simple_mul(&a, &b));
}

#[test]
fn scenario_monomial_of_degree_two() {
    let table = table();
    let mut a = PolyFF::zero(N);
    a.set(2, FF::new(5));
    let transformed = a.into_ntt_polynomial(&table);
    let mut out = vec![FF::zero(); N];
    table.transform_monomial(FF::new(5), 2, out.as_mut_slice());
    assert_eq!(transformed, NTTPolyFF::new(out));
    let mut one = vec![FF::zero(); N];
    table.transform_coeff_one_monomial(0, one.as_mut_slice());
    assert_eq!(one, vec![FF::one(); N]);
    let mut zero = vec![FF::one(); N];
    table.transform_monomial(FF::zero(), 3, zero.as_mut_slice());
    assert_eq!(zero, vec![FF::zero(); N]);
}

#[test]
fn transform_of_zero_is_zero() {
    let table = table();
    let zero = PolyFF::zero(N).into_ntt_polynomial(&table);
    assert!(zero.is_zero());
    assert_eq!(zero, NTTPolyFF::zero(N));
    assert!(NTTPolyFF::zero(N).into_native_polynomial(&table).is_zero());
}

#[test]
fn table_relations() {
    let table = table();
    let root = table.root();
    assert_eq!(root * table.inv_root(), FF::one());
    assert_eq!(Field::pow(root, N as u32), FF::neg_one());
    assert_eq!(table.coeff_count(), N);
    assert_eq!(table.coeff_count_power(), LOG_N as u32);
    assert_eq!(FF::new(N as u32) * FF::new(table.inv_degree().value()), FF::one());
    assert_eq!(table.root_powers()[0].value(), 1);
    assert_eq!(table.ordinal_root_powers().len(), 2 * N);
    assert_eq!(table.ordinal_root_powers()[1].value(), root.get());
    assert_eq!(table.inv_root_powers().len(), N);
    assert!(FF::is_primitive_root(root, 2 * N as u32));
    assert!(!FF::is_primitive_root(FF::one(), 2 * N as u32));
}

#[test]
fn no_root_where_the_order_does_not_divide() {
    // 61 - 1 = 60 is not a multiple of 16
    let r = bfv::PlainField::try_primitive_root(16);
    assert_eq!(
        r,
        Err(bfv::AlgebraError::NoPrimitiveRoot { degree: 16, modulus: 61 })
    );
    assert!(bfv::PlainField::generate_ntt_table(3).is_err());
    // 60 is a multiple of 4
    let w = bfv::PlainField::try_minimal_primitive_root(4).unwrap();
    assert_eq!((w * w).get(), 60);
    assert_eq!(w.get(), 11);
}

#[test]
fn polynomial_basics() {
    let mut a = PolyFF::from_slice(&[FF::new(1), FF::new(2), FF::new(3)]);
    assert_eq!(a.coeff_count(), 3);
    assert!(!a.is_zero());
    assert_eq!(a.mul_scalar(FF::new(2)), PolyFF::new(vec![FF::new(2), FF::new(4), FF::new(6)]));
    a.resize(5, FF::new(9));
    assert_eq!(a.clone().data(), vec![FF::new(1), FF::new(2), FF::new(3), FF::new(9), FF::new(9)]);
    a.resize(2, FF::new(9));
    assert_eq!(a.clone().data(), vec![FF::new(1), FF::new(2)]);
    a.copy_from(&[FF::new(7), FF::new(8)]);
    assert_eq!(a.as_slice(), &[FF::new(7), FF::new(8)]);
    // 7 + 8·3 = 31
    assert_eq!(a.evaluate(FF::new(3)), FF::new(31));
    a.neg_assign();
    assert_eq!(a.get(0), FF::new(P - 7));
    a.set_zero();
    assert!(a.is_zero());
    assert!(PolyFF::new(vec![]).is_zero());
    let mut x = NTTPolyFF::new(vec![FF::new(2), FF::new(3)]);
    let y = NTTPolyFF::new(vec![FF::new(4), FF::new(5)]);
    let z = NTTPolyFF::new(vec![FF::new(6), FF::new(7)]);
    bfv::ntt_add_mul_assign(&mut x, &y, &z);
    assert_eq!(x, NTTPolyFF::new(vec![FF::new(26), FF::new(38)]));
    let mut des = NTTPolyFF::zero(2);
    bfv::ntt_mul_inplace(&y, &z, &mut des);
    assert_eq!(des, NTTPolyFF::new(vec![FF::new(24), FF::new(35)]));
    bfv::ntt_add_mul_inplace(&x, &y, &z, &mut des);
    assert_eq!(des, NTTPolyFF::new(vec![FF::new(50), FF::new(73)]));
    bfv::ntt_mul_assign(&mut des, &y);
    assert_eq!(des, NTTPolyFF::new(vec![FF::new(200), FF::new(365)]));
    bfv::ntt_add_mul_assign_fast(&mut des, &y, &z);
    assert_eq!(des.get(0).normalize(), FF::new(224));
}

#[test]
fn polynomial_decompose_in_place() {
    let basis = <Basis<FF>>::new(3);
    let mut poly = PolyFF::new(vec![FF::new(0o123), FF::new(0o7)]);
    let mut destination = vec![PolyFF::zero(2); basis.decompose_len()];
    poly.decompose_inplace(basis, &mut destination);
    assert_eq!(destination[0], PolyFF::new(vec![FF::new(3), FF::new(7)]));
    assert_eq!(destination[1], PolyFF::new(vec![FF::new(2), FF::new(0)]));
    assert_eq!(destination[2], PolyFF::new(vec![FF::new(1), FF::new(0)]));
    assert!(poly.is_zero());
}

#[test]
fn first_inverse_root_power_is_one() {
    for log_n in 1..=6u32 {
        let table = FF::generate_ntt_table(log_n).unwrap();
        assert_eq!(table.inv_root_powers()[0].value(), 1);
        assert_eq!(table.root_powers()[0].value(), 1);
        // the next one is the inverse of the root
        let inverse = FF::new(table.inv_root_powers()[1].value());
        assert_eq!(inverse * table.root(), FF::one());
        assert_eq!(table.root_powers()[1usize << (log_n - 1)].value(), table.root().get());
    }
}

#[test]
fn cached_tables_are_handed_out() {
    let mut cache = bfv::transformation::NTTTableCache::<FF>::new();
    assert!(!cache.contains(3));
    let root = cache.get_ntt_table(3).unwrap().root();
    assert!(cache.contains(3));
    for _ in 0..5 {
        assert_eq!(cache.get_ntt_table(3).unwrap().root(), root);
    }
    assert_eq!(cache.init_ntt_table(&[3, 3]), Ok(()));
    assert_eq!(cache.init_ntt_table(&[3, 4, 5]), Ok(()));
    assert!(cache.contains(4) && cache.contains(5) && !cache.contains(6));
    assert_eq!(cache.init_ntt_table(&[]), Ok(()));
    assert_eq!(cache.get_ntt_table(3).unwrap().root(), root);
}

#[test]
fn least_of_the_odd_powers() {
    for degree in [2u32, 4, 16, 64, 2048] {
        let first = FF::try_primitive_root(degree).unwrap();
        let least = bfv::field::ntt_fields::least_odd_power(first, degree);
        let square = first * first;
        let mut power = first;
        let mut expected = first.get();
        for _ in 0..degree {
            expected = expected.min(power.get());
            power = power * square;
        }
        assert_eq!(least.get(), expected);
        assert!(FF::is_primitive_root(least, degree));
        assert_eq!(FF::try_minimal_primitive_root(degree).unwrap(), least);
    }
}

#[test]
fn signed_numbers_in_the_field() {
    assert_eq!(bfv::utils::from_signed::<FF>(0), FF::new(0));
    assert_eq!(bfv::utils::from_signed::<FF>(5), FF::new(5));
    assert_eq!(bfv::utils::from_signed::<FF>(-1), FF::new(132120576));
    assert_eq!(bfv::utils::from_signed::<FF>(-132120576), FF::new(1));
    assert_eq!(bfv::utils::from_signed::<FF>(132120576), FF::new(132120576));
    assert_eq!(bfv::utils::from_signed::<bfv::PlainField>(-21), bfv::PlainField::new(40));
}
