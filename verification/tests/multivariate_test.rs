use rand::SeedableRng;
use rand_chacha::ChaCha12Rng;
use bfv::{
    CipherField, DenseMultilinearExtension, Field, FieldCore, ListOfProductsOfPolynomials, Random,
};

// field type
type FF = CipherField;
type PolyFf = DenseMultilinearExtension<FF>;

fn field_vec(elems: &[u32]) -> Vec<FF> {
    elems.iter().map(|x| FF::new(*x)).collect()
}

fn evaluate_mle_data_arry(data: &[FF], point: &[FF]) -> FF {
    if data.len() != (1 << point.len()) {
        panic!("Data size mismatch with number of variables.")
    }
    let nv = point.len();
    let mut a = data.to_vec();

    for i in 1..nv + 1 {
        let r = point[i - 1];
        for b in 0..(1 << (nv - i)) {
            a[b] = a[b << 1] * (FF::one() - r) + a[(b << 1) + 1] * r;
        }
    }

    a[0]
}

#[test]
fn evaluate_mle_at_a_point() {
    let poly = PolyFf::from_evaluations_vec(2, field_vec(&[1, 2, 3, 4]));

    let point = vec![FF::new(0), FF::new(1)];
    assert_eq!(poly.evaluate(&point), FF::new(3));
}

#[test]
fn evaluate_mle_at_a_random_point() {
    let mut rng = ChaCha12Rng::from_entropy();
    let poly = PolyFf::random(2, &mut rng);
    let point: Vec<_> = (0..2).map(|_| FF::random(&mut rng)).collect();
    assert_eq!(
        poly.evaluate(&point),
        evaluate_mle_data_arry(&poly.evaluations, &point),
    );
}

#[test]
fn mle_arithmetic() {
    const NV: usize = 10;
    let mut rng = ChaCha12Rng::from_entropy();
    for _ in 0..20 {
        let point: Vec<_> = (0..NV).map(|_| FF::random(&mut rng)).collect();
        let poly1 = PolyFf::random(NV, &mut rng);
        let poly2 = PolyFf::random(NV, &mut rng);
        let v1 = poly1.evaluate(&point);
        let v2 = poly2.evaluate(&point);
        // test add
        assert_eq!(poly1.add(&poly2).evaluate(&point), v1 + v2);
        // test sub
        assert_eq!(poly1.sub(&poly2).evaluate(&point), v1 - v2);
        // test negate
        assert_eq!(-poly1.evaluate(&point), -v1);
        // test add assign
        {
            let mut poly1 = poly1.clone();
            poly1.add_assign(&poly2);
            assert_eq!(poly1.evaluate(&point), v1 + v2);
        }
        // test sub assign
        {
            let mut poly1 = poly1.clone();
            poly1.sub_assign(&poly2);
            assert_eq!(poly1.evaluate(&point), v1 - v2);
        }
        // test add assign with scalar
        {
            let mut poly1 = poly1.clone();
            let scalar = FF::random(&mut rng);
            poly1.add_assign_scaled(scalar, &poly2);
            assert_eq!(poly1.evaluate(&point), v1 + scalar * v2);
        }
        // test additive identity
        {
            assert_eq!(poly1.add(&PolyFf::zero()), poly1);
            assert_eq!(PolyFf::zero().add(&poly1), poly1);
        }
    }
}

#[test]
fn evaluate_lists_of_products_at_a_point() {
    let nv = 2;
    let mut poly = ListOfProductsOfPolynomials::new(nv);
    let products = vec![field_vec(&[1, 2, 3, 4]), field_vec(&[5, 4, 2, 9])];
    let products: Vec<(u64, DenseMultilinearExtension<FF>)> = products
        .into_iter()
        .enumerate()
        .map(|(i, x)| (i as u64, DenseMultilinearExtension::from_evaluations_vec(nv, x)))
        .collect();
    let coeff = FF::new(4);
    poly.add_product(products, coeff);

    let point = field_vec(&[0, 1]);
    assert_eq!(poly.evaluate(&point), FF::new(24));
}

#[test]
fn a_polynomial_is_registered_once() {
    let nv = 1;
    let mut poly = ListOfProductsOfPolynomials::<FF>::new(nv);
    let f = DenseMultilinearExtension::from_evaluations_vec(nv, field_vec(&[2, 3]));
    let g = DenseMultilinearExtension::from_evaluations_vec(nv, field_vec(&[5, 7]));
    poly.add_product(vec![(10, f.clone()), (20, g.clone())], FF::new(1));
    poly.add_product(vec![(20, g.clone()), (20, g), (10, f)], FF::new(2));
    assert_eq!(poly.flattened_ml_extensions.len(), 2);
    assert_eq!(poly.products[0].1, vec![0, 1]);
    assert_eq!(poly.products[1].1, vec![1, 1, 0]);
    let info = poly.info();
    assert_eq!(info.max_multiplicands, 3);
    assert_eq!(info.num_variables, 1);
    // at the point 1: 3·7 + 2·7·7·3 = 315
    assert_eq!(poly.evaluate(&field_vec(&[1])), FF::new(315));
}

#[test]
fn fixing_variables_step_by_step() {
    let poly = PolyFf::from_evaluations_slice(2, &field_vec(&[1, 2, 3, 4]));
    assert_eq!(poly.num_vars(), 2);
    let fixed = poly.fix_variables(&field_vec(&[1]));
    assert_eq!(fixed.num_vars, 1);
    assert_eq!(fixed.to_evaluations(), field_vec(&[2, 4]));
    let fixed = poly.fix_variables(&field_vec(&[2]));
    assert_eq!(fixed.to_evaluations(), field_vec(&[3, 5]));
    assert_eq!(poly.fix_variables(&[]).to_evaluations(), field_vec(&[1, 2, 3, 4]));
    assert_eq!(poly.index(3), FF::new(4));
    assert!(PolyFf::zero().is_zero());
    assert!(!poly.is_zero());
    assert_eq!(poly.neg().to_evaluations(), field_vec(&[132120576, 132120575, 132120574, 132120573]));
}

#[test]
fn a_new_handle_keeps_its_first_polynomial() {
    let nv = 1;
    let mut poly = ListOfProductsOfPolynomials::<FF>::new(nv);
    let f = DenseMultilinearExtension::from_evaluations_vec(nv, field_vec(&[2, 3]));
    let g = DenseMultilinearExtension::from_evaluations_vec(nv, field_vec(&[5, 7]));
    let h = DenseMultilinearExtension::from_evaluations_vec(nv, field_vec(&[11, 13]));
    // the handle 7 comes with f first, and with g after it
    poly.add_product(vec![(7, f.clone()), (7, g.clone())], FF::new(1));
    assert_eq!(poly.flattened_ml_extensions.len(), 1);
    assert_eq!(poly.flattened_ml_extensions[0], f);
    assert_eq!(poly.products[0].1, vec![0, 0]);
    // at 1 the value is 3 * 3
    assert_eq!(poly.evaluate(&field_vec(&[1])), FF::new(9));
    // a registered handle keeps its polynomial, a new one brings its own
    poly.add_product(vec![(7, h.clone()), (8, h.clone())], FF::new(2));
    assert_eq!(poly.flattened_ml_extensions.len(), 2);
    assert_eq!(poly.flattened_ml_extensions[0], f);
    assert_eq!(poly.flattened_ml_extensions[1], h);
    assert_eq!(poly.products[1].1, vec![0, 1]);
    assert_eq!(poly.evaluate(&field_vec(&[1])), FF::new(9 + 2 * 3 * 13));
}
