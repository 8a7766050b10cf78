//! Seeds, fingerprints and candidate buckets.
use ikpir::hash::{candidates, derive_segment_seeds, prg_u32_stream, IndexScheme, SegmentedScheme};
use ikpir::params::{Arity, FilterParams, SEED_LEN};

fn make_params_for_arity(arity: Arity, _approx_buckets: u32, value_len: u32) -> FilterParams {
    if arity.is_segmented() {
        FilterParams::recommended(arity, _approx_buckets, value_len).unwrap()
    } else {
        // Standard arities are not supported by `recommended`; construct directly.
        // Use valid num_buckets per the scheme's constraint:
        //   Standard2: power of 2  → 256 = 2^8
        //   Standard3: power of 3  → 243 = 3^5
        //   Standard4: power of 4  → 256 = 4^4
        let num_buckets = match arity {
            Arity::Standard3 => 243,
            _ => 256,
        };
        FilterParams {
            arity,
            num_buckets,
            fingerprint_bits: 12,
            row_elems: (value_len as u64 * 8).div_ceil(8) as u32,
            mat_elem_bit_len: 8,
            value_len,
        }
    }
}

#[test]
fn candidates_are_in_range_for_all_arities() {
    let value_len = 32;
    for &arity in &[
        Arity::Standard2,
        Arity::Segmented2,
        Arity::Standard3,
        Arity::Segmented3,
        Arity::Standard4,
        Arity::Segmented4,
    ] {
        let p = make_params_for_arity(arity, 256, value_len);
        for i in 0u32..100 {
            let foot = candidates(&i.to_le_bytes(), &p);
            assert_eq!(foot.degree, arity.degree(), "arity={:?}", arity);
            assert_ne!(foot.tag, 0);
            for &idx in foot.slots() {
                assert!(idx < p.num_buckets, "arity={:?} idx={}", arity, idx);
            }
        }
    }
}

#[test]
fn candidates_are_deterministic() {
    let p = FilterParams::recommended(Arity::Segmented4, 256, 32).unwrap();
    let a = candidates(b"hello", &p);
    let b = candidates(b"hello", &p);
    assert_eq!(a.tag, b.tag);
    assert_eq!(a.indices, b.indices);
}

#[test]
fn prg_is_deterministic_and_seed_sensitive() {
    let seed_a = [7u8; SEED_LEN];
    let mut seed_b = [7u8; SEED_LEN];
    seed_b[0] = 8;
    let a1 = prg_u32_stream(&seed_a, 100);
    let a2 = prg_u32_stream(&seed_a, 100);
    let b = prg_u32_stream(&seed_b, 100);
    assert_eq!(a1, a2);
    assert_ne!(a1, b);
}

#[test]
fn derive_segment_seeds_is_deterministic_and_seed_sensitive() {
    let seed_a = [42u8; SEED_LEN];
    let mut seed_b = [42u8; SEED_LEN];
    seed_b[0] ^= 0xFF;
    let a1 = derive_segment_seeds(&seed_a, 4);
    let a2 = derive_segment_seeds(&seed_a, 4);
    let b = derive_segment_seeds(&seed_b, 4);
    assert_eq!(a1, a2, "identical inputs must yield identical outputs");
    assert_eq!(a1.len(), 4);
    assert_ne!(
        a1, b,
        "different master seed must yield different segment seeds"
    );
}

#[test]
fn derive_segment_seeds_are_pairwise_distinct() {
    let seed = [7u8; SEED_LEN];
    for k in [2u32, 3, 4] {
        let seeds = derive_segment_seeds(&seed, k);
        assert_eq!(seeds.len(), k as usize);
        for i in 0..k as usize {
            for j in (i + 1)..k as usize {
                assert_ne!(seeds[i], seeds[j], "segment seeds {i} and {j} collided");
            }
        }
    }
}

#[test]
fn derive_segment_seeds_prefix_stable_across_k() {
    // With the same master seed, the first two derived seeds must not depend on k —
    // both come from the same ChaCha20 PRG prefix regardless of total length.
    let seed = [13u8; SEED_LEN];
    let k2 = derive_segment_seeds(&seed, 2);
    let k4 = derive_segment_seeds(&seed, 4);
    assert_eq!(k2[0], k4[0]);
    assert_eq!(k2[1], k4[1]);
}

#[test]
fn segmented4_candidates_live_in_distinct_segments() {
    let p = FilterParams::recommended(Arity::Segmented4, 1000, 32).unwrap();
    let seg = p.num_buckets / 4;
    for i in 0u32..200 {
        let foot = candidates(&i.to_le_bytes(), &p);
        for (pos, &idx) in foot.slots().iter().enumerate() {
            let low = pos as u32 * seg;
            let high = low + seg;
            assert!(idx >= low && idx < high);
        }
    }
}

#[test]
fn the_alternates_of_every_candidate_are_the_candidates() {
    for degree in [2u32, 3, 4] {
        let scheme = SegmentedScheme {
            degree,
            segment_size: 37,
        };
        for i in 0u32..50 {
            let (tag, buckets) = scheme.hash_item(&i.to_le_bytes(), 12);
            assert!(tag > 0 && tag < 1 << 12);
            for j in 0..degree as usize {
                let again = scheme.all_indices(buckets[j], tag);
                assert_eq!(again[..degree as usize], buckets[..degree as usize]);
            }
        }
    }
}

#[test]
fn derived_seeds_are_stretches_of_the_key_stream() {
    let seed = [9u8; SEED_LEN];
    let words = prg_u32_stream(&seed, 16);
    let seeds = derive_segment_seeds(&seed, 2);
    for j in 0..2 {
        let bytes: Vec<u8> = words[8 * j..8 * j + 8]
            .iter()
            .flat_map(|w| w.to_le_bytes())
            .collect();
        assert_eq!(seeds[j].to_vec(), bytes);
    }
}

#[test]
fn fingerprints_and_candidates_have_exact_values() {
    let four = SegmentedScheme {
        degree: 4,
        segment_size: 64,
    };
    assert_eq!(four.hash_item(b"hello", 12), (3685, [0, 74, 153, 198]));
    assert_eq!(four.all_indices(153, 3685), [0, 74, 153, 198]);
    let three = SegmentedScheme {
        degree: 3,
        segment_size: 37,
    };
    assert_eq!(three.hash_item(b"", 12), (884, [10, 71, 107, 0]));
}

#[test]
fn candidates_without_segments_cycle() {
    fn digit_add(mut x: u32, mut y: u32, base: u32) -> u32 {
        let (mut sum, mut place) = (0, 1);
        while x > 0 || y > 0 {
            sum += (x % base + y % base) % base * place;
            place *= base;
            x /= base;
            y /= base;
        }
        sum
    }
    for (arity, step, expected) in [
        (Arity::Standard2, 138, vec![192, 74]),
        (Arity::Standard3, 89, vec![153, 242, 76]),
        (Arity::Standard4, 138, vec![192, 74, 192, 74]),
    ] {
        let p = make_params_for_arity(arity, 256, 32);
        let foot = candidates(b"hello", &p);
        let slots = foot.slots();
        assert_eq!(foot.tag, 3685);
        assert_eq!(slots, &expected[..]);
        for j in 0..slots.len() {
            let next = slots[(j + 1) % slots.len()];
            assert_eq!(digit_add(slots[j], step, arity.degree()), next);
        }
    }
}
