//! Sampling and packing.
use ikpir::backend::prg::Keystream;
use ikpir::lwe::{
    decode_value, encode_value, round_and_extract, sample_ternary, sample_ternary_vec,
};
use ikpir::params::{Arity, FilterParams};

fn params_for(value_len: u32) -> FilterParams {
    FilterParams::recommended(Arity::Segmented4, 1024, value_len).unwrap()
}

#[test]
fn ternary_sample_in_support() {
    let mut rng = Keystream::from_seed([42u8; 32]);
    for _ in 0..10_000 {
        let s = sample_ternary(&mut rng);
        assert!(
            s == 0 || s == 1 || s == u32::MAX,
            "value {} out of support",
            s
        );
    }
}

#[test]
fn ternary_vector_length() {
    let mut rng = Keystream::from_seed([1u8; 32]);
    let v = sample_ternary_vec(&mut rng, 500);
    assert_eq!(v.len(), 500);
}

#[test]
fn encode_decode_round_trip_32_bytes() {
    let params = params_for(32);
    let mut value = [0u8; 32];
    for (i, b) in value.iter_mut().enumerate() {
        *b = i as u8;
    }
    let payloads = encode_value(&value, &params).unwrap();
    let dec = decode_value(&payloads, &params).unwrap();
    assert_eq!(dec, value.to_vec());
}

#[test]
fn encode_decode_round_trip_various_lengths() {
    for len in [1u32, 7, 16, 31, 63, 128] {
        let params = params_for(len);
        let mut v = vec![0u8; len as usize];
        for (i, b) in v.iter_mut().enumerate() {
            *b = ((i * 37) & 0xFF) as u8;
        }
        let payloads = encode_value(&v, &params).unwrap();
        let dec = decode_value(&payloads, &params).unwrap();
        assert_eq!(dec, v);
    }
}

#[test]
fn encode_rejects_wrong_length() {
    let params = params_for(32);
    assert!(encode_value(&[0u8; 31], &params).is_none());
    assert!(encode_value(&[0u8; 33], &params).is_none());
}

#[test]
fn round_and_extract_tolerates_small_noise() {
    let params = params_for(32);
    let mut value = [0u8; 32];
    for (i, b) in value.iter_mut().enumerate() {
        *b = (i * 13) as u8;
    }
    let payloads = encode_value(&value, &params).unwrap();
    let scale = params.scale();
    let tolerance = (scale / 2).saturating_sub(16);
    // Lift to scaled representation, add noise, round-and-extract, decode.
    let noisy: Vec<u32> = payloads
        .iter()
        .map(|&p| p.wrapping_mul(scale).wrapping_add(tolerance))
        .collect();
    let recovered = round_and_extract(&noisy, &params);
    let dec = decode_value(&recovered, &params).unwrap();
    assert_eq!(dec, value.to_vec());
}

#[test]
fn packing_is_exact() {
    let params = FilterParams {
        arity: Arity::Segmented4,
        num_buckets: 16,
        fingerprint_bits: 12,
        row_elems: 4,
        mat_elem_bit_len: 6,
        value_len: 3,
    };
    // 0xAB, 0xCD, 0xEF, least significant bit first, six bits at a time.
    let payloads = encode_value(&[0xAB, 0xCD, 0xEF], &params).unwrap();
    assert_eq!(payloads, vec![0x2B, 0x36, 0x3C, 0x3B]);
    assert_eq!(
        decode_value(&payloads, &params),
        Some(vec![0xAB, 0xCD, 0xEF])
    );
    assert_eq!(decode_value(&payloads[..3], &params), None);
}

#[test]
fn wide_elements_round_trip() {
    let params = FilterParams {
        arity: Arity::Segmented4,
        num_buckets: 16,
        fingerprint_bits: 12,
        row_elems: 3,
        mat_elem_bit_len: 31,
        value_len: 9,
    };
    let value: Vec<u8> = (0..9).map(|i| (i * 29 + 3) as u8).collect();
    let payloads = encode_value(&value, &params).unwrap();
    assert_eq!(decode_value(&payloads, &params), Some(value));
}
