//! Slot writes folded into row deltas.
use ikpir::backend::frodo::backend::FrodoPirBackend;
use ikpir::geometry::{CuckooParams, SchemeKind};
use ikpir::server::hint_patch::fold_mutations_into_row_deltas;
use ikpir::server::slots::{pack_slot_cells, SlotMutation};
use ikpir::wire::hint_delta::HintDeltaBundle;

/// 2-ary fixture: 64 buckets (32 per segment), `bucket_size = 4`,
/// `fingerprint_bits = 12`, `value_bits = 8`, `plaintext_bits = 8`.
/// `cells_per_slot = ⌈(12+8)/8⌉ = 3`, `value_size_in_cells = 1`.
fn params_2ary() -> CuckooParams {
    CuckooParams {
        scheme_kind: SchemeKind::Segmented2ary,
        num_buckets: 64,
        bucket_size: 4,
        fingerprint_bits: 12,
        value_bits: 8,
        plaintext_bits: 8,
    }
}

/// Build a `value_size_in_cells()`-long zeroed cell vector.
fn zero_value_cells(params: &CuckooParams) -> Vec<u32> {
    vec![0u32; params.value_size_in_cells() as usize]
}

/// Build a `value_size_in_cells()`-long cell vector with `val` in
/// cell `0` and zeros elsewhere — keeps the test deltas easy to
/// reason about.
fn nonzero_value_cells(params: &CuckooParams, val: u32) -> Vec<u32> {
    let mut v = vec![0u32; params.value_size_in_cells() as usize];
    v[0] = val;
    v
}

/// A mutation on bucket 33 (= segment 1, bucket-in-seg 1) must land
/// in `out[1]` only.
#[test]
fn single_insert_lands_in_correct_segment() {
    let p = params_2ary();
    // Bucket 33 → seg_idx = 33 / 32 = 1, bucket_in_seg = 1
    let m = SlotMutation {
        bucket: 33,
        slot: 0,
        old_fingerprint: 0,
        new_fingerprint: 7,
        old_value_cells: zero_value_cells(&p),
        new_value_cells: nonzero_value_cells(&p, 42),
    };
    let out = fold_mutations_into_row_deltas(&[m], &p);
    assert!(out[0].is_empty(), "seg 0 must be untouched");
    assert!(!out[1].is_empty(), "seg 1 must have an entry");
    assert_eq!(out[1][0].0, 1, "bucket_in_seg == 1");
}

/// Delete must produce the exact negation of the corresponding
/// insert's deltas (cell-by-cell).
#[test]
fn single_delete_produces_negated_deltas() {
    let p = params_2ary();
    // Insert first, then delete — deltas should be negations of each other.
    let insert_m = SlotMutation {
        bucket: 5,
        slot: 1,
        old_fingerprint: 0,
        new_fingerprint: 99,
        old_value_cells: zero_value_cells(&p),
        new_value_cells: nonzero_value_cells(&p, 77),
    };
    let delete_m = SlotMutation {
        bucket: 5,
        slot: 1,
        old_fingerprint: 99,
        new_fingerprint: 0,
        old_value_cells: nonzero_value_cells(&p, 77),
        new_value_cells: zero_value_cells(&p),
    };
    let ins = fold_mutations_into_row_deltas(&[insert_m], &p);
    let del = fold_mutations_into_row_deltas(&[delete_m], &p);
    assert!(!ins[0].is_empty());
    assert!(!del[0].is_empty());
    for ((ir, ic), (dr, dc)) in ins[0].iter().zip(del[0].iter()) {
        assert_eq!(ir, dr);
        for ((io, id), (d_o, d_d)) in ic.iter().zip(dc.iter()) {
            assert_eq!(io, d_o);
            assert_eq!(*id, -*d_d, "delete delta must negate insert delta");
        }
    }
}

/// Two mutations on the same slot must sum: insert(val=10) then
/// update(val=10 → val=20) must produce the same net delta as a
/// single insert(val=20) from empty.
#[test]
fn two_mutations_same_slot_sum_correctly() {
    let p = params_2ary();
    // Insert (empty→fp=3, val=10), then update (fp=3,val=10 → fp=3,val=20).
    // Net should equal insert-from-empty with val=20.
    let insert_m = SlotMutation {
        bucket: 10,
        slot: 2,
        old_fingerprint: 0,
        new_fingerprint: 3,
        old_value_cells: zero_value_cells(&p),
        new_value_cells: nonzero_value_cells(&p, 10),
    };
    let update_m = SlotMutation {
        bucket: 10,
        slot: 2,
        old_fingerprint: 3,
        new_fingerprint: 3,
        old_value_cells: nonzero_value_cells(&p, 10),
        new_value_cells: nonzero_value_cells(&p, 20),
    };
    let net_expected = SlotMutation {
        bucket: 10,
        slot: 2,
        old_fingerprint: 0,
        new_fingerprint: 3,
        old_value_cells: zero_value_cells(&p),
        new_value_cells: nonzero_value_cells(&p, 20),
    };
    let chained = fold_mutations_into_row_deltas(&[insert_m, update_m], &p);
    let expected = fold_mutations_into_row_deltas(&[net_expected], &p);
    assert_eq!(
        chained, expected,
        "chained insert+update must equal single-step net delta"
    );
}

/// A no-op mutation (old == new) must emit nothing — the
/// zero-delta filter drops the row entirely.
#[test]
fn noop_mutation_emits_nothing() {
    let p = params_2ary();
    // old == new → delta is zero → row entry must be dropped.
    let m = SlotMutation {
        bucket: 7,
        slot: 0,
        old_fingerprint: 5,
        new_fingerprint: 5,
        old_value_cells: nonzero_value_cells(&p, 99),
        new_value_cells: nonzero_value_cells(&p, 99),
    };
    let out = fold_mutations_into_row_deltas(&[m], &p);
    assert!(
        out.iter().all(|seg| seg.is_empty()),
        "no-op mutation must produce empty output"
    );
}

/// Mutations on different buckets within the same segment land in
/// distinct row entries, sorted by row index (BTreeMap ordering).
#[test]
fn multiple_buckets_same_segment_preserve_sparsity() {
    let p = params_2ary();
    // Touch buckets 2 and 5 (both in seg 0) at different slots.
    let m1 = SlotMutation {
        bucket: 2,
        slot: 0,
        old_fingerprint: 0,
        new_fingerprint: 11,
        old_value_cells: zero_value_cells(&p),
        new_value_cells: nonzero_value_cells(&p, 1),
    };
    let m2 = SlotMutation {
        bucket: 5,
        slot: 1,
        old_fingerprint: 0,
        new_fingerprint: 22,
        old_value_cells: zero_value_cells(&p),
        new_value_cells: nonzero_value_cells(&p, 2),
    };
    let out = fold_mutations_into_row_deltas(&[m1, m2], &p);
    assert!(out[1].is_empty(), "seg 1 untouched");
    assert_eq!(out[0].len(), 2, "two rows in seg 0");
    // BTreeMap order: row 2 < row 5
    assert_eq!(out[0][0].0, 2);
    assert_eq!(out[0][1].0, 5);
}

/// Two writes to one slot telescope to the last contents minus the first, however large each
/// of them is, and every delta stays below the modulus.
#[test]
fn repeated_writes_to_one_slot_telescope() {
    let p = params_2ary();

    // fp/value chosen to push every packed cell toward its bit-packed
    // maximum ("hits p-1 where possible" -- fp and value bits straddle
    // cell boundaries, so not every cell lands exactly on p-1, but
    // every cell is pushed to the top of its packed range).
    let old1_fp = 0u64;
    let old1_val = zero_value_cells(&p);
    let new1_fp = 0xFFFu64; // fingerprint_bits = 12, all bits set
    let new1_val = nonzero_value_cells(&p, 0xFF); // value_bits = 8, all bits set

    let new2_fp = 0x001u64;
    let new2_val = nonzero_value_cells(&p, 0x01);

    let m1 = SlotMutation {
        bucket: 9,
        slot: 2,
        old_fingerprint: old1_fp,
        new_fingerprint: new1_fp,
        old_value_cells: old1_val.clone(),
        new_value_cells: new1_val.clone(),
    };
    let m2 = SlotMutation {
        bucket: 9,
        slot: 2,
        old_fingerprint: new1_fp,
        new_fingerprint: new2_fp,
        old_value_cells: new1_val.clone(),
        new_value_cells: new2_val.clone(),
    };

    let batched = fold_mutations_into_row_deltas(&[m1, m2], &p);

    let net = SlotMutation {
        bucket: 9,
        slot: 2,
        old_fingerprint: old1_fp,
        new_fingerprint: new2_fp,
        old_value_cells: old1_val,
        new_value_cells: new2_val,
    };
    let expected = fold_mutations_into_row_deltas(&[net], &p);

    assert_eq!(
        batched, expected,
        "two writes to one slot in a batch must telescope to final - initial"
    );

    let p_bound = 1i64 << p.plaintext_bits;
    for seg in &batched {
        for (_row, cells) in seg {
            for (_off, delta) in cells {
                assert!(
                    delta.abs() < p_bound,
                    "telescoped delta {delta} must satisfy |delta| < p ({p_bound})"
                );
            }
        }
    }

    // Second case: the second mutation exactly restores the slot's
    // original (empty) contents, so the net delta is all-zero and the
    // row must be dropped entirely, even though each individual
    // mutation was itself a large, non-trivial write.
    let m1b = SlotMutation {
        bucket: 11,
        slot: 1,
        old_fingerprint: 0,
        new_fingerprint: new1_fp,
        old_value_cells: zero_value_cells(&p),
        new_value_cells: new1_val.clone(),
    };
    let m2b = SlotMutation {
        bucket: 11,
        slot: 1,
        old_fingerprint: new1_fp,
        new_fingerprint: 0,
        old_value_cells: new1_val,
        new_value_cells: zero_value_cells(&p),
    };
    let restored = fold_mutations_into_row_deltas(&[m1b, m2b], &p);
    assert!(
        restored.iter().all(|seg| seg.is_empty()),
        "a batch that restores a slot's original contents must emit nothing, \
         even though it is two large individual writes, not a single no-op"
    );
}

/// Twelve bits of fingerprint, then eight bits of value, eight bits at a time.
#[test]
fn packed_cells_are_exact() {
    let p = params_2ary();
    assert_eq!(p.cells_per_slot(), 3);
    assert_eq!(p.value_size_in_cells(), 1);
    let mut cells = vec![0u32; 3];
    pack_slot_cells(&p, 0xABC, &[0xDE], &mut cells);
    assert_eq!(cells, vec![0xBC, 0xEA, 0x0D]);
}

#[test]
fn deltas_are_exact_and_fit_the_wire() {
    let p = params_2ary();
    let m = SlotMutation {
        bucket: 33,
        slot: 1,
        old_fingerprint: 0,
        new_fingerprint: 0xABC,
        old_value_cells: zero_value_cells(&p),
        new_value_cells: nonzero_value_cells(&p, 0xDE),
    };
    let out = fold_mutations_into_row_deltas(&[m], &p);
    assert_eq!(
        out,
        vec![
            Vec::new(),
            vec![(1, vec![(3, 0xBC), (4, 0xEA), (5, 0x0D)])]
        ]
    );
    let bundle = HintDeltaBundle::<FrodoPirBackend>::new(1, out, p);
    let bytes = bundle.encode();
    assert_eq!(HintDeltaBundle::decode(&bytes, p), Ok(bundle));
}

#[test]
fn rows_and_offsets_are_sorted_whatever_the_order_of_the_writes() {
    let p = params_2ary();
    let write = |bucket: u32, slot: u32, value: u32| SlotMutation {
        bucket,
        slot,
        old_fingerprint: 0,
        new_fingerprint: 1,
        old_value_cells: zero_value_cells(&p),
        new_value_cells: nonzero_value_cells(&p, value),
    };
    let there = fold_mutations_into_row_deltas(&[write(9, 3, 5), write(2, 1, 6), write(9, 0, 7)], &p);
    let back = fold_mutations_into_row_deltas(&[write(9, 0, 7), write(2, 1, 6), write(9, 3, 5)], &p);
    assert_eq!(there, back);
    let rows: Vec<u32> = there[0].iter().map(|(r, _)| *r).collect();
    assert_eq!(rows, vec![2, 9]);
    for (_, cells) in &there[0] {
        assert!(cells.windows(2).all(|w| w[0].0 < w[1].0));
    }
}

/// The fingerprint's twelve bits come first, the value's eight after them.
#[test]
fn slots_pack_the_fingerprint_before_the_value() {
    let p = params_2ary();
    let mut cells = [0u32; 3];
    pack_slot_cells(&p, 0xABC, &[0x5D], &mut cells);
    assert_eq!(cells, [0xBC, 0xDA, 0x5]);
    let mut other = [0u32; 3];
    pack_slot_cells(&p, 0xABC, &[0x5C], &mut other);
    assert_ne!(cells, other);
    pack_slot_cells(&p, 0x7ABC, &[0x5D], &mut other);
    assert_eq!(cells, other, "bits past the fingerprint's width are cut");
}
