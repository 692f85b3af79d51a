use sr_core::blt::BLT;

fn create_blt(elements: impl IntoIterator<Item = u64>, capacity: usize) -> BLT {
    let mut sketch = BLT::new(capacity, 0);
    for item in elements.into_iter() {
        sketch.add(item);
    }
    sketch
}

#[test]
fn create_blt_test() {
    let set = 1000000_3_00000u64..1000000_301000u64;

    assert_eq!(1000, create_blt(set, 2048).recover().unwrap().len())
}

#[test]
fn small_difference_decodes_exactly() {
    // A = {0..999}, B = {1..1000}: the symmetric difference is {0, 1000}.
    let mut a = create_blt(0u64..1000u64, 2048);
    let b = create_blt(1u64..1001u64, 2048);
    a.merge(&b);
    let mut recovered = a.recover().unwrap();
    recovered.sort();
    assert_eq!(recovered, vec![0u64, 1000u64]);
}

#[test]
fn identical_sets_merge_to_empty() {
    let mut a = create_blt(0u64..1000u64, 2048);
    let b = create_blt(0u64..1000u64, 2048);
    a.merge(&b);
    let recovered = a.recover().unwrap();
    assert!(recovered.is_empty());
}

#[test]
fn add_then_remove_leaves_empty() {
    let mut a = BLT::new(64, 9);
    a.add(12345);
    a.remove(12345);
    let recovered = a.recover().unwrap();
    assert!(recovered.is_empty());
}

#[test]
fn large_shared_prefix_decodes() {
    // A = [0..10^6), B = [500..10^6 + 500): the difference holds 1000
    // elements, and 1500 requested cells are enough to peel it.
    let mut a = create_blt(0u64..1_000_000u64, 1500);
    let b = create_blt(500u64..1_000_500u64, 1500);
    a.merge(&b);
    let (res, success) = a.try_recover();
    assert!(success);
    assert_eq!(res.len(), 1000);
    for e in res {
        assert!(e < 500 || (1_000_000..1_000_500).contains(&e));
    }
}

#[test]
fn overloaded_sketch_fails_to_decode() {
    // The same 1000-element difference cannot be peeled from 256 cells.
    let mut a = create_blt(0u64..1_000_000u64, 256);
    let b = create_blt(500u64..1_000_500u64, 256);
    a.merge(&b);
    assert!(a.recover().is_err());
}

#[test]
fn digest_depends_on_input() {
    let b = BLT::new(16, 0);
    assert_eq!(b.compute_hash(7), b.compute_hash(7));
    assert_ne!(b.compute_hash(7), b.compute_hash(8));
    assert_ne!(b.compute_hash(7), 7);
}

#[test]
fn digest_depends_on_seed() {
    let b0 = BLT::new(16, 0);
    let b1 = BLT::new(16, 1);
    assert_ne!(b0.compute_hash(7), b1.compute_hash(7));
}
