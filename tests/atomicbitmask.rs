use rust_colors::atomicbitmask::AtomicBitMask;

#[test]
fn basic_test() {
    let num_bits = 33;

    let mut mask = AtomicBitMask::new(num_bits);
    for i in 0..num_bits {
        assert!(!mask.test_and_set(i), "Bit was set before write");
    }

    for i in 0..num_bits {
        assert!(mask.test(i), "Bit was unset after write");
    }

    for i in 0..num_bits {
        assert!(mask.test_and_set(i), "Bit was set before write");
    }
}

#[test]
fn iter_set_test() {
    let mut mask = AtomicBitMask::new(128);

    mask.test_and_set(5);
    mask.test_and_set(7);
    mask.test_and_set(19);
    mask.test_and_set(63);
    mask.test_and_set(64);
    mask.test_and_set(65);

    assert!(mask.test(5));
    assert!(mask.test(7));
    assert!(mask.test(19));
    assert!(mask.test(63));
    assert!(mask.test(64));
    assert!(mask.test(65));

    let mut set = Vec::new();
    let mut it = mask.iter_set();
    while let Some(i) = it.next() {
        set.push(i);
    }

    assert_eq!(set.len(), 6);
    assert_eq!(set[0], 5);
    assert_eq!(set[1], 7);
    assert_eq!(set[2], 19);
    assert_eq!(set[3], 63);
    assert_eq!(set[4], 64);
    assert_eq!(set[5], 65);
}

#[test]
fn set_then_test_then_clear() {
    let mut mask = AtomicBitMask::new(100);
    assert!(!mask.test_and_set(70));
    assert!(mask.test(70));
    assert!(mask.clear(70));
    assert!(!mask.test(70));
    assert!(!mask.clear(70));
    assert!(!mask.test(69));
    assert!(!mask.test(71));
}

#[test]
fn clear_leaves_other_bits() {
    let mut mask = AtomicBitMask::new(64);
    mask.test_and_set(0);
    mask.test_and_set(63);
    mask.clear(0);
    assert!(!mask.test(0));
    assert!(mask.test(63));
}

#[test]
fn iter_empty_and_last_bit() {
    let mask = AtomicBitMask::new(0);
    assert_eq!(mask.iter_set().next(), None);

    let mut mask = AtomicBitMask::new(200);
    let mut it = mask.iter_set();
    assert_eq!(it.next(), None);
    assert_eq!(it.next(), None);
    mask.test_and_set(199);
    mask.test_and_set(0);
    let mut it = mask.iter_set();
    assert_eq!(it.next(), Some(0));
    assert_eq!(it.next(), Some(199));
    assert_eq!(it.next(), None);
}
