use flash::batch::SparseBatch;
use flash::doph::DOPH;

fn sample_batch() -> SparseBatch {
    SparseBatch {
        markers: vec![0, 4, 5, 7],
        indices: vec![88, 91, 120, 18223, 4, 177, 12],
    }
}

fn sample_seeds() -> Vec<u32> {
    (0..16).map(|i| 0x9e3779b9u32.wrapping_mul(i as u32 + 1)).collect()
}

fn sample_family() -> DOPH {
    DOPH::with_seeds(4, 4, 4, &sample_seeds(), 0x1234_5678, 0x9abc_def1)
}

#[test]
fn hash_output_shape_and_range() {
    let doph = sample_family();
    let batch = sample_batch();
    let hashes = doph.hash(&batch);
    assert_eq!(hashes.len(), 12);
    for i in 0..hashes.len() {
        assert!(hashes.get(i) < 16);
    }
}

#[test]
fn hash_is_idempotent() {
    let doph = sample_family();
    let batch = sample_batch();
    let first = doph.hash(&batch);
    let second = doph.hash(&batch);
    assert_eq!(first.len(), second.len());
    for i in 0..first.len() {
        assert_eq!(first.get(i), second.get(i));
    }
}

#[test]
fn equal_seeds_give_equal_hashes() {
    let a = sample_family();
    let b = sample_family();
    let batch = sample_batch();
    let ha = a.hash(&batch);
    let hb = b.hash(&batch);
    assert_eq!(ha.len(), hb.len());
    for i in 0..ha.len() {
        assert_eq!(ha.get(i), hb.get(i));
    }
}

#[test]
fn hash_agrees_across_partitioning() {
    let doph = sample_family();
    let whole = doph.hash(&sample_batch());

    let parts = [
        SparseBatch { markers: vec![0, 4], indices: vec![88, 91, 120, 18223] },
        SparseBatch { markers: vec![0, 1], indices: vec![4] },
        SparseBatch { markers: vec![0, 2], indices: vec![177, 12] },
    ];
    for (n, part) in parts.iter().enumerate() {
        let h = doph.hash(part);
        assert_eq!(h.len(), 4);
        for t in 0..4 {
            assert_eq!(h.get(t), whole.get(n * 4 + t));
        }
    }
}

#[test]
fn densification_fills_every_bin() {
    // One active index occupies at most one bin; the other 15 bins can only
    // be filled through the probe sequence, and every emitted compound hash
    // must still lie in [0, 2^range_pow).
    let doph = sample_family();
    let batch = SparseBatch { markers: vec![0, 1], indices: vec![7] };
    let hashes = doph.hash(&batch);
    assert_eq!(hashes.len(), 4);
    for i in 0..hashes.len() {
        assert!(hashes.get(i) < 16);
    }
}

#[test]
fn fresh_family_hashes_in_range() {
    let doph = DOPH::new(8, 2, 10);
    let batch = sample_batch();
    let hashes = doph.hash(&batch);
    assert_eq!(hashes.len(), 24);
    for i in 0..hashes.len() {
        assert!(hashes.get(i) < 1024);
    }
}
