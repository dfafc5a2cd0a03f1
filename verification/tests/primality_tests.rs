use fermats_kitchen::bignum::BigInt;
use fermats_kitchen::primality::{
    fermats_test, first_100_primes, miller_rabin_test, probabilistic_primality_test,
    Primality, PrimalityTestOptions,
};

#[test]
fn it_works() {
    let int = BigInt::from_u64(10213);
    assert!(int.eq_small(10213));

    let d = BigInt::from_limbs(vec![111u32], false);

    let int = int.rem_euclid(&d);

    assert!(int.eq_small(1));
}

#[test]
fn test_fermats_test() {
    let a = BigInt::from_u64(2);

    // Special case test for n == 1.
    assert!(!fermats_test(&BigInt::from_u64(1), a.clone()));

    for p in first_100_primes() {
        let n = BigInt::from_u64(p as u64);
        assert!(fermats_test(&n, a.clone()));
    }

    // Composites that are not Carmichael.
    for c in [2 * 3, 3 * 7, 2 * 11, 11 * 18, 53 * 59] {
        let n = BigInt::from_u64(c);
        assert!(!fermats_test(&n, a.clone()));
    }

    // These should pass. Test may be somewhat meaningless but if they
    // don't, something is surely amiss.
    for carmichael in [561, 41041, 825265] {
        let n = BigInt::from_u64(carmichael);
        assert!(fermats_test(&n, a.clone()));
    }
}

#[test]
fn test_miller_rabin_test() {
    let a = BigInt::from_u64(2);

    // Special case test for n == 1.
    assert!(!miller_rabin_test(&BigInt::from_u64(1), a.clone()));
    // Special case test for n == 2.
    assert!(miller_rabin_test(&BigInt::from_u64(2), a.clone()));

    for p in first_100_primes() {
        let n = BigInt::from_u64(p as u64);
        assert!(miller_rabin_test(&n, a.clone()));
    }

    // Composites that are not Carmichael.
    for c in [2 * 3, 3 * 7, 2 * 11, 11 * 18, 53 * 59] {
        let n = BigInt::from_u64(c);
        assert!(!miller_rabin_test(&n, a.clone()));
    }

    // These should not pass. 2 is a Miller-Rabin witness for these numbers.
    for carmichael in [561, 41041, 825265] {
        let n = BigInt::from_u64(carmichael);
        assert!(!miller_rabin_test(&n, a.clone()));
    }
}

#[test]
fn fermats_rejects_one_for_any_nonzero_base() {
    for a in [1u64, 2, 3, 100, 824] {
        assert!(!fermats_test(&BigInt::from_u64(1), BigInt::from_u64(a)));
    }
    let negative_base = BigInt::from_limbs(vec![5u32], true);
    assert!(!fermats_test(&BigInt::from_u64(1), negative_base));
}

#[test]
fn miller_rabin_accepts_two_for_any_nonzero_base() {
    for a in [1u64, 2, 3, 100, 824] {
        assert!(miller_rabin_test(&BigInt::from_u64(2), BigInt::from_u64(a)));
    }
    let negative_base = BigInt::from_limbs(vec![5u32], true);
    assert!(miller_rabin_test(&BigInt::from_u64(2), negative_base));
}

#[test]
fn tests_work_beyond_one_digit() {
    // 2^32 + 15 is prime; 2^32 - 1 is composite (3 * 5 * 17 * 257 * 65537).
    let two = BigInt::from_u64(2);
    let p = BigInt::from_u64(4294967311);
    assert!(fermats_test(&p, two.clone()));
    assert!(miller_rabin_test(&p, two.clone()));
    let c = BigInt::from_u64(4294967295);
    assert!(!fermats_test(&c, two.clone()));
    assert!(!miller_rabin_test(&c, two));
}

#[test]
fn negative_bases_are_valid_witnesses() {
    let minus_five = BigInt::from_limbs(vec![5u32], true);
    let seven = BigInt::from_u64(7);
    // (-5)^7 = -78125 = 2 (mod 7), and -5 = 2 (mod 7) as well.
    assert!(fermats_test(&seven, minus_five.clone()));
    assert!(miller_rabin_test(&seven, minus_five.clone()));
    let minus_three = BigInt::from_limbs(vec![3u32], true);
    let eight = BigInt::from_u64(8);
    // (-3)^8 = 6561 = 1 (mod 8), while -3 = 5 (mod 8).
    assert!(!fermats_test(&eight, minus_three.clone()));
    assert!(!miller_rabin_test(&eight, minus_three));
}

#[test]
fn first_primes_table_is_the_first_hundred() {
    let table = first_100_primes();
    assert_eq!(table.len(), 100);
    assert_eq!(table[0], 2);
    assert_eq!(table[1], 3);
    assert_eq!(table[24], 97);
    assert_eq!(table[99], 541);
    for w in table.windows(2) {
        assert!(w[0] < w[1]);
    }
}

#[test]
fn classifier_decides_small_candidates_exactly() {
    let bases = vec![BigInt::from_u64(2), BigInt::from_u64(3)];
    assert_eq!(
        probabilistic_primality_test(&BigInt::from_u64(97), &bases),
        Primality::Prime
    );
    assert_eq!(
        probabilistic_primality_test(&BigInt::from_u64(541), &bases),
        Primality::Prime
    );
    assert_eq!(
        probabilistic_primality_test(&BigInt::from_u64(91), &bases),
        Primality::Composite
    );
    assert_eq!(
        probabilistic_primality_test(&BigInt::from_u64(1), &bases),
        Primality::Composite
    );
}

#[test]
fn classifier_screens_large_candidates_with_both_tests() {
    let bases = vec![BigInt::from_u64(2), BigInt::from_u64(3)];
    assert_eq!(
        probabilistic_primality_test(&BigInt::from_u64(1009), &bases),
        Primality::ProbablyPrime
    );
    assert_eq!(
        probabilistic_primality_test(&BigInt::from_u64(1001), &bases),
        Primality::Composite
    );
    // The Carmichael number 561 fools Fermat but not Miller-Rabin.
    assert_eq!(
        probabilistic_primality_test(&BigInt::from_u64(561), &bases),
        Primality::Composite
    );
}

#[test]
fn suggested_options_default_to_sixteen_rounds() {
    let opts = PrimalityTestOptions::suggested(&BigInt::from_u64(1000));
    assert_eq!(opts.rounds, 16);
}

#[test]
fn rem_euclid_is_non_negative_for_negative_dividends() {
    let minus_seven = BigInt::from_limbs(vec![7u32], true);
    let five = BigInt::from_u64(5);
    assert!(minus_seven.rem_euclid(&five).eq_small(3));
    let minus_ten = BigInt::from_limbs(vec![10u32], true);
    assert!(minus_ten.rem_euclid(&five).eq_small(0));
    let seven = BigInt::from_u64(7);
    assert!(seven.rem_euclid(&five).eq_small(2));
}

#[test]
fn from_limbs_normalizes_its_input() {
    let a = BigInt::from_limbs(vec![5u32, 0, 0], false);
    assert!(a.equals(&BigInt::from_u64(5)));
    let z = BigInt::from_limbs(vec![0u32, 0], true);
    assert!(z.is_zero());
    assert!(!z.is_positive());
    let two_limbs = BigInt::from_limbs(vec![0x2345_6789u32, 0x1], false);
    assert!(two_limbs.equals(&BigInt::from_u64(0x1_2345_6789)));
    assert!(two_limbs.gt_one());
    assert!(!two_limbs.is_even());
}
