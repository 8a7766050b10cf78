//! Choice of the plaintext width. The chances are floating-point estimates; the library picks
//! the width and lays the rows out.
use ikpir::pir_params::{reshape_dims, row_width, widest_admitted, KAPPA, MAX_PLAINTEXT_BITS};

/// `(arity, bucket_size, num_buckets)`.
const PAPER_MATRIX: &[(u32, u32, u32)] = &[
    (2, 4, 262_144),
    (3, 2, 786_432),
    (3, 3, 393_216),
    (4, 1, 1_048_576),
    (4, 2, 524_288),
];

/// Whether the Bernstein tail of ternary noise stays within a cell's share.
fn frodo_holds(
    arity: u32,
    segment_rows: u32,
    bucket_size: u32,
    fingerprint_bits: u32,
    value_bits: u32,
    pb: u32,
) -> bool {
    let t = 2f64.powi(31 - pb as i32);
    let p = 2f64.powi(pb as i32);
    let denom = (4.0 / 3.0) * f64::from(segment_rows) * p * p + (2.0 / 3.0) * p * t;
    let log2_tail = 1.0 - (t * t / denom) / std::f64::consts::LN_2;
    let width = row_width(bucket_size, fingerprint_bits, value_bits, pb);
    let log2_target = -f64::from(KAPPA + 1) - f64::from(arity * width).log2();
    log2_tail <= log2_target
}

/// Whether Gaussian noise of width `sigma` stays within a cell's share.
fn simple_holds(
    arity: u32,
    segment_rows: u32,
    bucket_size: u32,
    fingerprint_bits: u32,
    value_bits: u32,
    sigma: f64,
    pb: u32,
) -> bool {
    let width = row_width(bucket_size, fingerprint_bits, value_bits, pb);
    let (_, reshape_rows, _) = reshape_dims(segment_rows, width);
    let ln_2_over_delta =
        std::f64::consts::LN_2 * (f64::from(KAPPA + 2) + f64::from(arity * width).log2());
    let factor = 2.0 * std::f64::consts::SQRT_2 * sigma * ln_2_over_delta.sqrt();
    2f64.powi((32 - pb) as i32) >= factor * 2f64.powi(pb as i32) * f64::from(reshape_rows).sqrt()
}

fn frodo_max_plaintext_bits(
    arity: u32,
    segment_rows: u32,
    bucket_size: u32,
    fingerprint_bits: u32,
    value_bits: u32,
) -> u32 {
    let admitted: Vec<bool> = (1..=MAX_PLAINTEXT_BITS)
        .map(|pb| {
            frodo_holds(
                arity,
                segment_rows,
                bucket_size,
                fingerprint_bits,
                value_bits,
                pb,
            )
        })
        .collect();
    widest_admitted(&admitted).expect("a width of one bit is admitted")
}

fn simple_max_plaintext_bits(
    arity: u32,
    segment_rows: u32,
    bucket_size: u32,
    fingerprint_bits: u32,
    value_bits: u32,
    sigma: f64,
) -> u32 {
    let admitted: Vec<bool> = (1..=MAX_PLAINTEXT_BITS)
        .map(|pb| {
            simple_holds(
                arity,
                segment_rows,
                bucket_size,
                fingerprint_bits,
                value_bits,
                sigma,
                pb,
            )
        })
        .collect();
    widest_admitted(&admitted).expect("a width of one bit is admitted")
}

#[test]
fn frodo_paper_matrix() {
    for &(arity, bs, nb) in PAPER_MATRIX {
        let seg = nb / arity;
        for vb in [2048u32, 8192] {
            let pb = frodo_max_plaintext_bits(arity, seg, bs, 64, vb);
            assert_eq!(
                pb, 9,
                "(arity={arity}, bs={bs}, nb={nb}, vb={vb}): got {pb}, want 9"
            );
        }
    }
}

#[test]
fn simple_paper_matrix() {
    let expected: &[[u32; 2]] = &[
        [9, 8], // (2, 4, 262144)
        [9, 8], // (3, 2, 786432)
        [9, 9], // (3, 3, 393216)
        [9, 9], // (4, 1, 1048576)
        [9, 9], // (4, 2, 524288)
    ];
    for (&(arity, bs, nb), exp) in PAPER_MATRIX.iter().zip(expected) {
        let seg = nb / arity;
        for (i, &vb) in [2048u32, 8192].iter().enumerate() {
            let pb = simple_max_plaintext_bits(arity, seg, bs, 64, vb, 6.4);
            assert_eq!(
                pb, exp[i],
                "(arity={arity}, bs={bs}, nb={nb}, vb={vb}): got {pb}, want {}",
                exp[i]
            );
        }
    }
}

#[test]
fn frodo_dev_scale_spot_values() {
    let cases: &[(u32, u32, u32, u32, u32)] = &[
        // (arity, bucket_size, num_buckets, value_bits, expected pb)
        (4, 1, 16384, 2048, 11),
        (4, 1, 16384, 8192, 11),
        (2, 4, 16384, 2048, 10),
        (2, 4, 16384, 8192, 10),
        (3, 2, 24576, 2048, 10),
        (3, 2, 24576, 8192, 10),
    ];
    for &(arity, bs, nb, vb, exp) in cases {
        let seg = nb / arity;
        let pb = frodo_max_plaintext_bits(arity, seg, bs, 64, vb);
        assert_eq!(pb, exp, "(arity={arity}, bs={bs}, nb={nb}, vb={vb})");
    }
}

#[test]
fn simple_dev_scale_spot_values() {
    let cases: &[(u32, u32, u32, u32, u32)] = &[
        (4, 1, 16384, 2048, 10),
        (4, 1, 16384, 8192, 9),
        (2, 4, 16384, 2048, 9),
        (2, 4, 16384, 8192, 9),
        (3, 2, 24576, 2048, 9),
        (3, 2, 24576, 8192, 9),
    ];
    for &(arity, bs, nb, vb, exp) in cases {
        let seg = nb / arity;
        let pb = simple_max_plaintext_bits(arity, seg, bs, 64, vb, 6.4);
        assert_eq!(pb, exp, "(arity={arity}, bs={bs}, nb={nb}, vb={vb})");
    }
}

#[test]
fn frodo_returned_pb_is_maximal() {
    for &(arity, bs, nb) in PAPER_MATRIX {
        let seg = nb / arity;
        for vb in [2048u32, 8192] {
            let pb = frodo_max_plaintext_bits(arity, seg, bs, 64, vb);
            assert!(
                frodo_holds(arity, seg, bs, 64, vb, pb),
                "bound must hold at returned pb={pb} (arity={arity}, bs={bs}, nb={nb}, vb={vb})"
            );
            assert!(
                !frodo_holds(arity, seg, bs, 64, vb, pb + 1),
                "pb + 1 must violate the bound (arity={arity}, bs={bs}, nb={nb}, vb={vb})"
            );
        }
    }
}

#[test]
fn simple_returned_pb_is_maximal() {
    for &(arity, bs, nb) in PAPER_MATRIX {
        let seg = nb / arity;
        for vb in [2048u32, 8192] {
            let pb = simple_max_plaintext_bits(arity, seg, bs, 64, vb, 6.4);
            assert!(
                simple_holds(arity, seg, bs, 64, vb, 6.4, pb),
                "bound must hold at returned pb={pb} (arity={arity}, bs={bs}, nb={nb}, vb={vb})"
            );
            assert!(
                !simple_holds(arity, seg, bs, 64, vb, 6.4, pb + 1),
                "pb + 1 must violate the bound (arity={arity}, bs={bs}, nb={nb}, vb={vb})"
            );
        }
    }
}

#[test]
fn frodo_passing_set_is_downward_closed() {
    for &(arity, bs, nb) in PAPER_MATRIX {
        let seg = nb / arity;
        for vb in [2048u32, 8192] {
            let pb = frodo_max_plaintext_bits(arity, seg, bs, 64, vb);
            for p in 1..pb {
                assert!(
                    frodo_holds(arity, seg, bs, 64, vb, p),
                    "pb={p} must also pass below the chosen {pb} \
                     (arity={arity}, bs={bs}, nb={nb}, vb={vb})"
                );
            }
        }
    }
}

#[test]
fn simple_passing_set_is_downward_closed() {
    for &(arity, bs, nb) in PAPER_MATRIX {
        let seg = nb / arity;
        for vb in [2048u32, 8192] {
            let pb = simple_max_plaintext_bits(arity, seg, bs, 64, vb, 6.4);
            for p in 1..pb {
                assert!(
                    simple_holds(arity, seg, bs, 64, vb, 6.4, p),
                    "pb={p} must also pass below the chosen {pb} \
                     (arity={arity}, bs={bs}, nb={nb}, vb={vb})"
                );
            }
        }
    }
}

#[test]
fn frodo_monotone_in_segment_rows() {
    let mut last = u32::MAX;
    for log_s in 4..=22 {
        let pb = frodo_max_plaintext_bits(4, 1u32 << log_s, 1, 64, 8192);
        assert!(
            pb <= last,
            "pb must not grow with segment_rows (log_s={log_s})"
        );
        last = pb;
    }
}

#[test]
fn simple_monotone_in_segment_rows() {
    let mut last = u32::MAX;
    for log_s in 4..=22 {
        let pb = simple_max_plaintext_bits(4, 1u32 << log_s, 1, 64, 8192, 6.4);
        assert!(
            pb <= last,
            "pb must not grow with segment_rows (log_s={log_s})"
        );
        last = pb;
    }
}

#[test]
fn simple_monotone_in_sigma_and_value_bits() {
    let s = 1u32 << 19;
    assert!(
        simple_max_plaintext_bits(4, s, 2, 64, 2048, 12.8)
            <= simple_max_plaintext_bits(4, s, 2, 64, 2048, 6.4)
    );
    assert!(
        simple_max_plaintext_bits(4, s, 2, 64, 8192, 6.4)
            <= simple_max_plaintext_bits(4, s, 2, 64, 256, 6.4)
    );
}

#[test]
fn frodo_monotone_in_fingerprint_bits() {
    let seg = 1_048_576 / 4;
    let pb_f64 = frodo_max_plaintext_bits(4, seg, 1, 64, 8192);
    assert_eq!(pb_f64, 9);
    let pb_f1 = frodo_max_plaintext_bits(4, seg, 1, 1, 8192);
    assert!(
        pb_f1 >= pb_f64,
        "narrower fingerprint must not shrink the operating point"
    );
}

#[test]
fn the_widest_width_wins() {
    assert_eq!(widest_admitted(&[]), None);
    assert_eq!(widest_admitted(&[false, false]), None);
    assert_eq!(widest_admitted(&[true, true, false]), Some(2));
    assert_eq!(widest_admitted(&[false, true, false, true]), Some(4));
}

#[test]
fn rows_and_folds_are_exact() {
    assert_eq!(row_width(4, 12, 8, 8), 12);
    assert_eq!(row_width(1, 64, 8192, 9), 918);
    // The square root of 100 / 4 is 5.
    assert_eq!(reshape_dims(100, 4), (5, 20, 20));
    // Never below one.
    assert_eq!(reshape_dims(3, 1000), (1, 3, 1000));
    // The square root of 25 / 4 is 2.5, which is rounded up.
    assert_eq!(reshape_dims(25, 4), (3, 9, 12));
    assert_eq!(reshape_dims(0, 7), (1, 0, 7));
}
