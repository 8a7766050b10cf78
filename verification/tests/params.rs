//! Filter parameters.
use ikpir::params::{
    mat_elem_bit_len_for, next_power_of_2_u64, Arity, FilterParams, ParamError,
};

#[test]
fn arity_degree_matches_variant() {
    assert_eq!(Arity::Standard2.degree(), 2);
    assert_eq!(Arity::Segmented2.degree(), 2);
    assert_eq!(Arity::Standard3.degree(), 3);
    assert_eq!(Arity::Segmented3.degree(), 3);
    assert_eq!(Arity::Standard4.degree(), 4);
    assert_eq!(Arity::Segmented4.degree(), 4);
}

#[test]
fn default_arity_is_segmented4() {
    assert_eq!(Arity::default(), Arity::Segmented4);
}

#[test]
fn recommended_seg4_is_power_of_2_and_k_times_seg() {
    let p = FilterParams::recommended(Arity::Segmented4, 1000, 32).unwrap();
    assert_eq!(p.num_buckets & (p.num_buckets - 1), 0);
    assert_eq!(p.num_buckets, 4 * p.seg());
    // seg is a power of 2, at least as large as ceil(num_items / (load * b)).
    let seg = p.seg();
    assert_eq!(seg & (seg - 1), 0);
}

#[test]
fn recommended_seg3_is_3_times_pow2() {
    let p = FilterParams::recommended(Arity::Segmented3, 500, 32).unwrap();
    assert_eq!(p.num_buckets % 3, 0);
    let seg = p.num_buckets / 3;
    assert_eq!(seg & (seg - 1), 0); // seg is power of 2
}

#[test]
fn recommended_rejects_standard_arities() {
    for arity in [Arity::Standard2, Arity::Standard3, Arity::Standard4] {
        assert_eq!(
            FilterParams::recommended(arity, 100, 32),
            Err(ParamError::ArityNotSupportedForPir)
        );
    }
}

#[test]
fn empty_inputs_rejected() {
    assert!(FilterParams::recommended(Arity::Segmented4, 0, 32).is_err());
    assert!(FilterParams::recommended(Arity::Segmented4, 100, 0).is_err());
}

#[test]
fn scale_is_consistent_with_mat_elem_bit_len() {
    let p = FilterParams::recommended(Arity::Segmented4, 1000, 32).unwrap();
    assert_eq!(p.scale(), 1u32 << (32 - p.mat_elem_bit_len));
}

#[test]
fn row_elems_is_large_enough() {
    let p = FilterParams::recommended(Arity::Segmented4, 1000, 32).unwrap();
    let total_bits = p.row_elems as u64 * p.mat_elem_bit_len as u64;
    assert!(total_bits >= p.value_len as u64 * 8);
}

#[test]
fn seg_is_num_buckets_over_degree() {
    for &arity in &[Arity::Segmented2, Arity::Segmented3, Arity::Segmented4] {
        let p = FilterParams::recommended(arity, 500, 32).unwrap();
        assert_eq!(p.seg(), p.num_buckets / arity.degree());
        assert!(p.seg() >= 1);
    }
}

#[test]
fn next_power_of_2_cases() {
    assert_eq!(next_power_of_2_u64(0), 1);
    assert_eq!(next_power_of_2_u64(1), 1);
    assert_eq!(next_power_of_2_u64(2), 2);
    assert_eq!(next_power_of_2_u64(3), 4);
    assert_eq!(next_power_of_2_u64(1024), 1024);
    assert_eq!(next_power_of_2_u64(1025), 2048);
}

#[test]
fn row_elems_bucket_is_b_times_slot_elems() {
    let p = FilterParams::recommended(Arity::Segmented4, 1000, 32).unwrap();
    let slot_elems = p.fp_elems() + p.val_elems();
    assert_eq!(p.row_elems_bucket(), p.slots_per_bucket() * slot_elems);
    assert_eq!(p.val_elems(), p.row_elems);
}

#[test]
fn noise_budget_uses_seg_not_num_buckets() {
    // For seg=512, B should satisfy 2·seg·P² < 2^32.
    let p = FilterParams::recommended(Arity::Segmented4, 1000, 32).unwrap();
    let seg = p.seg() as u64;
    let peak = 2u64 * seg * (1u64 << (2 * p.mat_elem_bit_len));
    assert!(
        peak < (1u64 << 32),
        "noise budget violated: 2·{seg}·P² = {peak}"
    );
}

#[test]
fn every_parameter_error_has_an_input() {
    assert_eq!(
        FilterParams::recommended(Arity::Segmented4, 0, 32),
        Err(ParamError::EmptyDatabase)
    );
    assert_eq!(
        FilterParams::recommended(Arity::Segmented4, 100, 0),
        Err(ParamError::EmptyValue)
    );
    assert_eq!(
        FilterParams::recommended(Arity::Segmented4, u32::MAX, 32),
        Err(ParamError::TooManyItems)
    );
    assert_eq!(
        FilterParams::recommended(Arity::Segmented4, 1_000_000, u32::MAX),
        Err(ParamError::ValueTooLarge)
    );
    assert_eq!(ParamError::EmptyDatabase.message(), "database is empty");
}

#[test]
fn recommended_sizes_are_exact() {
    let p = FilterParams::recommended(Arity::Segmented4, 1000, 32).unwrap();
    assert_eq!(p.seg(), 512);
    assert_eq!(p.num_buckets, 2048);
    assert_eq!(p.fingerprint_bits, 12);
    assert_eq!(p.mat_elem_bit_len, 10);
    assert_eq!(mat_elem_bit_len_for(1000), 9);
    assert_eq!(mat_elem_bit_len_for(262_145), 4);
    assert_eq!(p.value_len, 32);
    assert_eq!(Arity::Segmented3.name(), "segmented-3ary");
}

#[test]
fn segments_stop_where_the_noise_budget_does() {
    let p = FilterParams::recommended(Arity::Segmented4, 15_938_355, 32).unwrap();
    assert_eq!(p.seg(), 1 << 22);
    assert_eq!(p.mat_elem_bit_len, 4);
    assert!(2 * u64::from(p.seg()) * (1u64 << (2 * p.mat_elem_bit_len)) < 1u64 << 32);
    for (arity, items) in [
        (Arity::Segmented4, 15_938_356),
        (Arity::Segmented4, 16_777_216),
        (Arity::Segmented2, 16_000_000),
    ] {
        assert_eq!(
            FilterParams::recommended(arity, items, 32),
            Err(ParamError::TooManyItems)
        );
    }
}
