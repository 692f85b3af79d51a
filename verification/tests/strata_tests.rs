use sr_core::strata::Strata;

#[test]
fn create_create_strata() {
    let mut a = Strata::new();
    let mut b = Strata::new();

    for x in 0..512 {
        a.add(x);
    }

    for x in 1000 + 0..1000 + 512 {
        b.add(x);
    }

    let estimate = a.clone().destructive_strata_decode_estimator(&b);
    println!("estimate {}", estimate);
    assert!(estimate >= 500 && estimate <= 2000);

    for x in 0..512 {
        a.remove(x);
    }

    for x in 1000 + 0..1000 + 512 {
        b.remove(x);
    }

    assert_eq!(a.clone().destructive_strata_decode_estimator(&b), 0);
}

#[test]
fn estimator_of_identical_ladders_is_zero() {
    let mut a = Strata::new();
    let mut b = Strata::new();
    for x in 0..256u64 {
        a.add(x);
        b.add(x);
    }
    assert_eq!(a.destructive_strata_decode_estimator(&b), 0);
}

#[test]
fn empty_ladders_estimate_zero() {
    let mut a = Strata::new();
    let b = Strata::new();
    assert_eq!(a.destructive_strata_decode_estimator(&b), 0);
}
