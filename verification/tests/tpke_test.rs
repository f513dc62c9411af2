use bfv::bfv::tpke::{to_bits, to_poly};
use rand::SeedableRng;
use rand_chacha::ChaCha12Rng;
use bfv::utils::sample::{
    binary_from_word, cbd_from_bytes, count_ones, sample_binary_field_vec, sample_cbd_field_vec,
    sample_ternary_field_vec, ternary_from_word,
};
use bfv::{
    BFVPlaintext, CipherField, Field, FieldBinarySampler, FieldCore, FieldTernarySampler,
    PlainField, Polynomial, Random, ThresholdPKE, ThresholdPolicy, DIMENSION_N,
};

type F = PlainField;

#[test]
fn tpke_test() {
    let total_number = 3;
    let threshold_number = 2;
    let indices = [F::new(1), F::new(2), F::new(3)];
    let msg_bytes = b"this is the message";

    let mut ctx =
        ThresholdPKE::gen_context(total_number, threshold_number, indices.to_vec()).unwrap();

    let (sk1, pk1) = ThresholdPKE::gen_keypair(&mut ctx);
    let (sk2, pk2) = ThresholdPKE::gen_keypair(&mut ctx);
    let (sk3, pk3) = ThresholdPKE::gen_keypair(&mut ctx);

    let (sk, pk) = ThresholdPKE::gen_keypair(&mut ctx);

    let pks = [pk1, pk2, pk3].to_vec();

    let (vec_c, nonce, c_bytes) = ThresholdPKE::encrypt_bytes(&mut ctx, &pks, msg_bytes).unwrap();

    let c1 = ThresholdPKE::re_encrypt(&mut ctx, &vec_c[0], &sk1, &pk);
    let c2 = ThresholdPKE::re_encrypt(&mut ctx, &vec_c[1], &sk2, &pk);
    let c3 = ThresholdPKE::re_encrypt(&mut ctx, &vec_c[2], &sk3, &pk);

    let ctxts = [c1, c2, c3].to_vec();
    let chosen_indices = [F::new(1), F::new(2), F::new(3)].to_vec();

    let c = ThresholdPKE::combine(&ctx, &ctxts, &chosen_indices);

    let m_res = ThresholdPKE::decrypt_bytes(&ctx, &sk, &c, &nonce, &c_bytes).unwrap();

    assert_eq!(msg_bytes, m_res.as_slice());
}

#[test]
fn scenario_two_of_three() {
    let mut ctx =
        ThresholdPKE::gen_context(3, 2, vec![F::new(1), F::new(2), F::new(3)]).unwrap();
    let (sk1, pk1) = ThresholdPKE::gen_keypair(&mut ctx);
    let (sk2, pk2) = ThresholdPKE::gen_keypair(&mut ctx);
    let (_sk3, pk3) = ThresholdPKE::gen_keypair(&mut ctx);
    let (sk, pk) = ThresholdPKE::gen_keypair(&mut ctx);
    let mut m = vec![F::zero(); DIMENSION_N];
    for i in 0..DIMENSION_N {
        m[i] = F::new((i % 61) as u16);
    }
    let m = BFVPlaintext::new(Polynomial::new(m));
    let shares = ThresholdPKE::encrypt(&mut ctx, &vec![pk1, pk2, pk3], &m);
    assert_eq!(shares.len(), 3);
    let c1 = ThresholdPKE::re_encrypt(&mut ctx, &shares[0], &sk1, &pk);
    let c2 = ThresholdPKE::re_encrypt(&mut ctx, &shares[1], &sk2, &pk);
    let c = ThresholdPKE::combine(&ctx, &vec![c1, c2], &[F::new(1), F::new(2)]);
    assert_eq!(ThresholdPKE::decrypt(&ctx, &sk, &c), m);
    assert_eq!(ctx.policy().total_number(), 3);
    assert_eq!(ctx.policy().threshold_number(), 2);
    assert_eq!(ctx.policy().indices(), &[F::new(1), F::new(2), F::new(3)]);
    assert_eq!(ctx.bfv_ctx().rlwe_dimension(), DIMENSION_N);
}

#[test]
fn lagrange_coefficients() {
    // for the indices 1, 2: 2/(2-1) = 2 and 1/(1-2) = -1
    let coeffs = ThresholdPKE::gen_lagrange_coeffs(&[F::new(1), F::new(2)]);
    assert_eq!(coeffs, vec![F::new(2), F::new(60)]);
    // for the indices 1, 2, 3: 3, -3, 1
    let coeffs = ThresholdPKE::gen_lagrange_coeffs(&[F::new(1), F::new(2), F::new(3)]);
    assert_eq!(coeffs, vec![F::new(3), F::new(58), F::new(1)]);
    assert_eq!(ThresholdPKE::gen_lagrange_coeffs(&[F::new(5)]), vec![F::new(1)]);
    // the coefficients add up to one
    let coeffs = ThresholdPKE::gen_lagrange_coeffs(&[F::new(7), F::new(11), F::new(40), F::new(60)]);
    assert_eq!(coeffs.iter().fold(F::zero(), |acc, c| acc + *c), F::one());
}

#[test]
fn shares_lie_on_a_polynomial() {
    let policy = ThresholdPolicy::new(4, 2, vec![F::new(1), F::new(2), F::new(3), F::new(4)]);
    // 5 + 3x at 1, 2, 3, 4
    let poly = Polynomial::new(vec![F::new(5), F::new(3)]);
    assert_eq!(
        policy.share_coefficient(&poly),
        vec![F::new(8), F::new(11), F::new(14), F::new(17)]
    );
    let secret = Polynomial::new(vec![F::new(17), F::new(42), F::new(0)]);
    let shares = policy.secret_sharing(&secret, &mut ChaCha12Rng::from_entropy());
    assert_eq!(shares.len(), 4);
    let coeffs = ThresholdPKE::gen_lagrange_coeffs(&[F::new(2), F::new(4)]);
    for i in 0..3 {
        assert_eq!(shares[1].get(i) * coeffs[0] + shares[3].get(i) * coeffs[1], secret.get(i));
        // a line through the shares of the first two nodes meets the share of the third
        let step = shares[1].get(i) - shares[0].get(i);
        assert_eq!(shares[1].get(i) + step, shares[2].get(i));
    }
}

#[test]
fn key_as_polynomial() {
    let mut key = [0u8; 32];
    key[0] = 0b0000_0101;
    key[1] = 0x80;
    key[31] = 0xff;
    let poly = to_poly(&key);
    assert_eq!(poly.coeff_count(), DIMENSION_N);
    assert_eq!(poly.get(0), F::one());
    assert_eq!(poly.get(1), F::zero());
    assert_eq!(poly.get(2), F::one());
    assert_eq!(poly.get(15), F::one());
    assert_eq!(poly.get(14), F::zero());
    assert_eq!(poly.get(255), F::one());
    assert_eq!(poly.get(256), F::zero());
    assert_eq!(to_bits(&poly), key);
    let mut key = [0u8; 32];
    for (i, byte) in key.iter_mut().enumerate() {
        *byte = (i * 37 + 11) as u8;
    }
    assert_eq!(to_bits(&to_poly(&key)), key);
}

#[test]
fn sealing_and_opening() {
    let mut ctx = ThresholdPKE::gen_context(1, 1, vec![F::new(1)]).unwrap();
    let (sk, pk) = ThresholdPKE::gen_keypair(&mut ctx);
    let (c, nonce, sealed) =
        ThresholdPKE::encrypt_bytes(&mut ctx, &vec![pk], b"payload").unwrap();
    // the sealed bytes are the payload and a tag of 16 bytes, and not the payload itself
    assert_eq!(sealed.len(), b"payload".len() + 16);
    assert_ne!(&sealed[..7], b"payload");
    let combined = ThresholdPKE::combine(&ctx, &c, &[F::new(1)]);
    assert_eq!(
        ThresholdPKE::decrypt_bytes(&ctx, &sk, &combined, &nonce, &sealed).unwrap(),
        b"payload"
    );
    // another nonce, or bytes that were changed, do not open
    let mut other = nonce;
    other[0] ^= 1;
    assert_eq!(ThresholdPKE::decrypt_bytes(&ctx, &sk, &combined, &other, &sealed), None);
    let mut changed = sealed.clone();
    changed[0] ^= 1;
    assert_eq!(ThresholdPKE::decrypt_bytes(&ctx, &sk, &combined, &nonce, &changed), None);
    assert_eq!(ThresholdPKE::decrypt_bytes(&ctx, &sk, &combined, &nonce, b"payload"), None);
}

#[test]
fn samplers() {
    let v: Vec<CipherField> = binary_from_word(0b1011, 6);
    let words: Vec<u32> = v.iter().map(|x| x.get()).collect();
    assert_eq!(words, vec![1, 1, 0, 1, 0, 0]);
    let v: Vec<CipherField> = ternary_from_word(0b11_10_01_00, 5);
    let words: Vec<u32> = v.iter().map(|x| x.get()).collect();
    assert_eq!(words, vec![0, 0, 1, 132120576, 0]);
    assert_eq!(count_ones(0b1011_0001), 4);
    assert_eq!(cbd_from_bytes::<CipherField>([0xff, 0x01, 0xe3, 0x00, 0x00, 0xe0]).get(), 11);
    assert_eq!(
        cbd_from_bytes::<CipherField>([0x00, 0x00, 0xe0, 0xff, 0xff, 0xff]).get(),
        132120577 - 21
    );
    let mut rng = ChaCha12Rng::from_entropy();
    let b: Vec<F> = sample_binary_field_vec(100, &mut rng);
    assert_eq!(b.len(), 100);
    assert!(b.iter().all(|x| x.get() <= 1));
    assert!(b.iter().any(|x| x.get() == 1));
    let t: Vec<F> = sample_ternary_field_vec(100, &mut rng);
    assert_eq!(t.len(), 100);
    assert!(t.iter().all(|x| x.get() <= 1 || x.get() == 60));
    let c: Vec<CipherField> = sample_cbd_field_vec(100, &mut rng);
    assert_eq!(c.len(), 100);
    assert!(c.iter().all(|x| x.get() <= 21 || x.get() >= 132120577 - 21));
    let x: F = FieldBinarySampler.sample(&mut rng);
    assert!(x.get() <= 1);
    let x: F = FieldTernarySampler.sample(&mut rng);
    assert!(x.get() <= 1 || x.get() == 60);
    let x = CipherField::random(&mut rng);
    assert!(x.get() < 132120577);
    // uniform elements are canonical, and not all of them the least one
    let uniform = Polynomial::<CipherField>::random(100, &mut rng);
    assert!(uniform.as_slice().iter().all(|x| x.get() < 132120577));
    assert!(uniform.as_slice().iter().any(|x| x.get() != 0));
    assert!(uniform.as_slice().iter().any(|x| x.get() != 132120576));
    // six random bytes are not always the same six bytes
    let a: Vec<CipherField> = sample_cbd_field_vec(400, &mut rng);
    assert!(a.iter().any(|x| *x != a[0]));
    // nor are the random words
    let words: Vec<F> = sample_binary_field_vec(400, &mut rng);
    assert!(words.iter().any(|x| x.get() == 0));
}
