use lattice_codec::encoder::{EncodeError, Encoder, Poly};
use lattice_codec::wide::U256;

fn small() -> Encoder {
    Encoder::new(8, 2, 4, 4, U256::from_u64(257), 12289)
}

fn vals(xs: &[u64]) -> Vec<U256> {
    xs.iter().map(|x| U256::from_u64(*x)).collect()
}

#[test]
fn test_encoder() {
    let ecd = small();
    let mut state: u64 = 0x9e37_79b9_7f4a_7c15;
    for _ in 0..50 {
        let mut msg = Vec::new();
        for _ in 0..2 {
            state = state.wrapping_mul(6364136223846793005).wrapping_add(1442695040888963407);
            msg.push(U256::from_u64((state >> 33) % 257));
        }
        let m = ecd.encode(&msg).unwrap();
        let mout = ecd.decode(&m);
        assert_eq!(msg, mout);
    }
}

#[test]
fn scenario_digits_by_hand() {
    let ecd = small();
    let p = ecd.encode(&vals(&[5, 200])).unwrap();
    // 5 = 1 + 1*4; 200 = 0 + 2*4 + 0*16 + 3*64
    assert_eq!(p.coeffs, vec![1, 0, 1, 2, 0, 0, 0, 3]);
    assert_eq!(ecd.decode(&p), vals(&[5, 200]));
}

#[test]
fn encode_reduces_mod_p_and_zero_fills() {
    let ecd = small();
    let p = ecd.encode(&vals(&[257 + 5])).unwrap();
    assert_eq!(p.coeffs, vec![1, 0, 1, 0, 0, 0, 0, 0]);
    assert_eq!(ecd.decode(&p), vals(&[5, 0]));
}

#[test]
fn encode_empty_is_zero() {
    let ecd = small();
    let p = ecd.encode(&[]).unwrap();
    assert_eq!(p.coeffs, vec![0; 8]);
}

#[test]
fn top_digit_is_uncapped() {
    let ecd = small();
    let p = ecd.encode(&vals(&[256])).unwrap();
    assert_eq!(p.coeffs, vec![0, 0, 0, 0, 0, 0, 4, 0]);
    assert_eq!(ecd.decode(&p), vals(&[256, 0]));
}

#[test]
fn encode_too_long_is_refused() {
    let ecd = small();
    assert_eq!(ecd.encode(&vals(&[1, 2, 3])).err(), Some(EncodeError::InvalidLength));
    let mut p = Poly { coeffs: vec![7; 8] };
    assert_eq!(ecd.encode_assign(&vals(&[1, 2, 3]), &mut p), Err(EncodeError::InvalidLength));
    assert_eq!(p.coeffs, vec![7; 8]);
}

#[test]
fn decode_reads_balanced_coefficients() {
    let ecd = small();
    // q - 1 reads as -1, so slot 0 is -1 mod 257.
    let p = Poly { coeffs: vec![12288, 0, 0, 0, 0, 0, 0, 0] };
    assert_eq!(ecd.decode(&p), vals(&[256, 0]));
    // 6144 <= q / 2 stays positive: 6144 mod 257 = 233.
    let p = Poly { coeffs: vec![6144, 0, 0, 0, 0, 0, 0, 0] };
    assert_eq!(ecd.decode(&p), vals(&[233, 0]));
    // 6145 > q / 2 reads as 6145 - 12289 = -6144, which is 24 mod 257.
    let p = Poly { coeffs: vec![6145, 0, 0, 0, 0, 0, 0, 0] };
    assert_eq!(ecd.decode(&p), vals(&[24, 0]));
}

#[test]
fn decode_recombines_negative_digits() {
    let ecd = small();
    // digits (-1, 1, 0, 0): -1 + 4 = 3
    let p = Poly { coeffs: vec![12288, 0, 1, 0, 0, 0, 0, 0] };
    assert_eq!(ecd.decode(&p), vals(&[3, 0]));
    // digits (0, 0, 0, -1): -64 mod 257 = 193
    let p = Poly { coeffs: vec![0, 0, 0, 0, 0, 0, 12288, 0] };
    assert_eq!(ecd.decode(&p), vals(&[193, 0]));
}

#[test]
fn chunk_encode_matches_single_calls() {
    let ecd = small();
    let v = vals(&[5, 200, 1, 256, 0, 17]);
    let mut out = vec![Poly { coeffs: vec![] }, Poly { coeffs: vec![] }, Poly { coeffs: vec![] }];
    assert_eq!(ecd.encode_chunk_assign(&v, &mut out), Ok(()));
    for c in 0..3 {
        let mut single = Poly { coeffs: vec![] };
        ecd.encode_assign(&v[2 * c..2 * c + 2], &mut single).unwrap();
        assert_eq!(out[c].coeffs, single.coeffs);
    }
    let mut back = vec![U256::from_u64(9); 6];
    assert_eq!(ecd.decode_chunk_assign(&out, &mut back), Ok(()));
    assert_eq!(back, v);
}

#[test]
fn chunk_length_mismatch_is_refused() {
    let ecd = small();
    let v = vals(&[5, 200, 1]);
    let mut out = vec![Poly { coeffs: vec![] }, Poly { coeffs: vec![] }];
    assert_eq!(ecd.encode_chunk_assign(&v, &mut out), Err(EncodeError::InvalidLength));
    assert!(out[0].coeffs.is_empty());
    let polys = vec![ecd.encode(&vals(&[1, 2])).unwrap()];
    let mut back = vec![U256::from_u64(9); 3];
    assert_eq!(ecd.decode_chunk_assign(&polys, &mut back), Err(EncodeError::InvalidLength));
    assert_eq!(back, vals(&[9, 9, 9]));
}

#[test]
fn round_trip_wide_modulus() {
    // p = 2^64 + 1 with b = 2^16 and kap = 4: the top digit reaches 2^16.
    let p = U256::from_u128((1u128 << 64) + 1);
    let ecd = Encoder::new(12, 3, 4, 1 << 16, p, (1u64 << 62) + 57);
    let v = vec![U256::from_u128(1u128 << 64), U256::from_u64(u64::MAX), U256::from_u64(12345)];
    let enc = ecd.encode(&v).unwrap();
    assert_eq!(enc.coeffs[9], 1 << 16);
    assert_eq!(ecd.decode(&enc), v);
}
