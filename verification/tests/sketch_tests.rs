use sr_core::sketch::Sketch;

fn create_sketch(elements: impl IntoIterator<Item = u64>) -> Sketch {
    let mut sketch = Sketch::new(400);
    for item in elements.into_iter() {
        sketch.add(item);
    }
    sketch
}

#[test]
fn create_sketch_alice() {
    let set = 1000000_3_00000u64..1000000_301000u64;

    create_sketch(set);
}

#[test]
fn counted_add_then_remove_recovers_empty() {
    let mut s = Sketch::new(64);
    s.add(42);
    s.remove(42);
    let recovered = s.recover().unwrap();
    assert!(recovered.is_empty());
}

#[test]
fn counted_small_difference_decodes() {
    let mut a = Sketch::new(64);
    for e in [1u64, 2, 3] {
        a.add(e);
    }
    let mut b = Sketch::new(64);
    for e in [2u64, 3, 4] {
        b.add(e);
    }
    a.merge(&b);
    let mut recovered = a.recover().unwrap();
    recovered.sort();
    assert_eq!(recovered, vec![1u64, 4u64]);
}

#[test]
fn counted_order_of_operations_is_irrelevant() {
    // Two sketches built from the same multiset of operations in different
    // orders cancel exactly under a merge.
    let mut a = Sketch::new(128);
    for e in [10u64, 20, 30, 20] {
        a.add(e);
    }
    a.remove(20);
    let mut b = Sketch::new(128);
    b.remove(20);
    for e in [20u64, 30, 20, 10] {
        b.add(e);
    }
    a.merge(&b);
    let recovered = a.recover().unwrap();
    assert!(recovered.is_empty());
}

#[test]
fn counted_unbalanced_removal_is_recovered() {
    // A removal without a matching insertion leaves a cell of count -1,
    // which the counted peel can still emit.
    let mut a = Sketch::new(64);
    a.add(5);
    a.remove(5);
    a.remove(77);
    let recovered = a.recover().unwrap();
    assert_eq!(recovered, vec![77u64]);
}

#[test]
fn counted_overload_fails() {
    let mut a = Sketch::new(16);
    for e in 0u64..500u64 {
        a.add(e);
    }
    assert!(a.recover().is_err());
}

#[test]
fn counted_try_recover_reports_success() {
    let mut a = Sketch::new(64);
    for e in [3u64, 9, 27] {
        a.add(e);
    }
    let (mut res, success) = a.try_recover();
    assert!(success);
    res.sort();
    assert_eq!(res, vec![3u64, 9, 27]);
}

#[test]
fn counted_try_recover_reports_failure() {
    let mut a = Sketch::new(16);
    for e in 0u64..500u64 {
        a.add(e);
    }
    let (_, success) = a.try_recover();
    assert!(!success);
}
