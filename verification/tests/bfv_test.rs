use bfv::bfv::scheme::{scale_down, scale_up};
use bfv::{
    BFVCiphertext, BFVPlaintext, BFVPublicKey, BFVScheme, BFVSecretKey, CipherField, Field,
    FieldCore, PlainField, Polynomial, Random, DIMENSION_N,
};

#[test]
fn bfv_enc_dec_test() {
    let mut ctx = BFVScheme::gen_context().unwrap();
    let (sk, pk) = BFVScheme::gen_keypair(&mut ctx);

    for _ in 0..1000 {
        let msg = Polynomial::<PlainField>::random(ctx.rlwe_dimension(), ctx.csrng_mut());
        let msg = BFVPlaintext(msg);

        let c = BFVScheme::encrypt(&mut ctx, &pk, &msg);

        let m = BFVScheme::decrypt(&ctx, &sk, &c);
        assert_eq!(msg, m);
    }
}

#[test]
fn bfv_add_test() {
    let mut ctx = BFVScheme::gen_context().unwrap();
    let (sk, pk) = BFVScheme::gen_keypair(&mut ctx);
    for _ in 0..1000 {
        let m1_poly = Polynomial::<PlainField>::random(ctx.rlwe_dimension(), ctx.csrng_mut());
        let m1 = BFVPlaintext(m1_poly.clone());

        let m2_poly = Polynomial::<PlainField>::random(ctx.rlwe_dimension(), ctx.csrng_mut());
        let m2 = BFVPlaintext(m2_poly.clone());

        let m_add = BFVPlaintext(m1_poly.add(&m2_poly));

        let c1 = BFVScheme::encrypt(&mut ctx, &pk, &m1);
        let c2 = BFVScheme::encrypt(&mut ctx, &pk, &m2);
        let c3 = BFVScheme::evalute_add(&ctx, &c1, &c2);

        let m3 = BFVScheme::decrypt(&ctx, &sk, &c3);
        assert_eq!(m3, m_add);
    }
}

#[test]
fn bfv_mul_scalar_test() {
    let mut ctx = BFVScheme::gen_context().unwrap();
    let (sk, pk) = BFVScheme::gen_keypair(&mut ctx);
    for _ in 0..1000 {
        let m_poly = Polynomial::<PlainField>::random(ctx.rlwe_dimension(), ctx.csrng_mut());
        let m = BFVPlaintext(m_poly.clone());

        let c = BFVScheme::encrypt(&mut ctx, &pk, &m);

        let scalar = PlainField::random(ctx.csrng_mut());
        let m_scalar = BFVPlaintext(m_poly.mul_scalar(scalar));

        let c_scalar = BFVScheme::evaluate_mul_scalar(&ctx, &scalar, &c);

        let m_res = BFVScheme::decrypt(&ctx, &sk, &c_scalar);
        assert_eq!(m_scalar, m_res);
    }
}

#[test]
fn bfv_inner_product_test() {
    let mut ctx = BFVScheme::gen_context().unwrap();
    let (sk, pk) = BFVScheme::gen_keypair(&mut ctx);
    const N: usize = 20;

    for _ in 0..200 {
        let mut scalars = Vec::new();
        let mut msgs = Vec::new();
        let mut msgs_poly = Vec::new();
        for i in 0..N {
            msgs_poly.push(Polynomial::<PlainField>::random(
                ctx.rlwe_dimension(),
                ctx.csrng_mut(),
            ));
            msgs.push(BFVPlaintext(msgs_poly[i].clone()));

            scalars.push(PlainField::random(ctx.csrng_mut()));
        }
        let m_ip = msgs_poly.iter().zip(scalars.iter()).fold(
            Polynomial::<PlainField>::zero(ctx.rlwe_dimension()),
            |acc, (m, s)| acc.add(&m.mul_scalar(*s)),
        );

        let m_ip = BFVPlaintext(m_ip);

        let mut ctxts: Vec<BFVCiphertext> = Vec::new();
        for m in msgs.iter() {
            ctxts.push(BFVScheme::encrypt(&mut ctx, &pk, m));
        }

        let c_ip = BFVScheme::evaluate_inner_product(&ctx, &ctxts, &scalars);
        let m_res = BFVScheme::decrypt(&ctx, &sk, &c_ip);

        assert_eq!(m_res, m_ip);
    }
}

#[test]
fn scenario_encrypt_one_to_twenty() {
    let mut ctx = BFVScheme::gen_context().unwrap();
    let (sk, pk) = BFVScheme::gen_keypair(&mut ctx);
    let mut m = vec![PlainField::zero(); DIMENSION_N];
    for i in 0..20 {
        m[i] = PlainField::new(i as u16 + 1);
    }
    let m = BFVPlaintext::new(Polynomial::new(m));
    let c = BFVScheme::encrypt(&mut ctx, &pk, &m);
    assert_eq!(BFVScheme::decrypt(&ctx, &sk, &c), m);
    assert_eq!(ctx.rlwe_dimension(), 1024);
}

#[test]
fn rounding_of_coefficients() {
    let q: u64 = 132120577;
    for m in 0u16..61 {
        let up = scale_up(PlainField::new(m)).get() as u64;
        let exact = if m > 30 {
            q - (q * (61 - m as u64) + 30) / 61
        } else {
            (q * m as u64 + 30) / 61
        };
        assert_eq!(up, exact);
        assert_eq!(scale_down(CipherField::new(up as u32)).get(), m);
        let noisy = ((up + 1_000_000) % q) as u32;
        assert_eq!(scale_down(CipherField::new(noisy)).get(), m);
        let noisy = ((up + q - 1_000_000) % q) as u32;
        assert_eq!(scale_down(CipherField::new(noisy)).get(), m);
    }
    assert_eq!(scale_up(PlainField::new(1)).get(), 2165911);
    assert_eq!(scale_up(PlainField::new(60)).get(), 132120577 - 2165911);
}

#[test]
fn keys_and_ciphertexts_as_bytes() {
    let c = BFVCiphertext([
        Polynomial::new(vec![CipherField::new(1), CipherField::new(0x01020304)]),
        Polynomial::new(vec![CipherField::new(7)]),
    ]);
    let bytes = c.to_vec();
    assert_eq!(
        bytes,
        vec![0, 0, 0, 2, 0, 0, 0, 1, 0, 0, 0, 1, 1, 2, 3, 4, 0, 0, 0, 7]
    );
    assert_eq!(BFVCiphertext::from_vec(&bytes), c);
    let pk = BFVPublicKey::new([
        Polynomial::new(vec![CipherField::new(5)]),
        Polynomial::new(vec![CipherField::new(6), CipherField::new(9)]),
    ]);
    let bytes = pk.to_vec();
    assert_eq!(bytes, vec![0, 0, 0, 1, 0, 0, 0, 2, 0, 0, 0, 5, 0, 0, 0, 6, 0, 0, 0, 9]);
    assert_eq!(BFVPublicKey::from_vec(&bytes), pk);
    let sk = BFVSecretKey::from_vec(&[0, 0, 0, 1, 7, 223, 255, 0]);
    assert_eq!(sk.secret_key().as_slice(), &[CipherField::new(1), CipherField::new(132120320)]);
    assert_eq!(sk.to_vec(), vec![0, 0, 0, 1, 7, 223, 255, 0]);
}

#[test]
fn secret_keys_are_ternary() {
    let mut ctx = BFVScheme::gen_context().unwrap();
    let sk = BFVSecretKey::new(&mut ctx);
    assert_eq!(sk.secret_key().coeff_count(), DIMENSION_N);
    for c in sk.secret_key().as_slice() {
        assert!(c.get() <= 1 || c.get() == 132120576);
    }
    let pk = sk.gen_pubkey(&mut ctx);
    assert_eq!(pk.0[0].coeff_count(), DIMENSION_N);
    assert_eq!(pk.0[1].coeff_count(), DIMENSION_N);
}
