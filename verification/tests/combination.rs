use schulze_stv::combination::{
    binomial_fits, decode_combination, encode_combination, make_binomial,
};

#[test]
fn test_binomial() {
    let expected: Vec<Vec<usize>> = vec![
        vec![1, 0, 0, 0, 0, 0],
        vec![1, 1, 0, 0, 0, 0],
        vec![1, 2, 1, 0, 0, 0],
        vec![1, 3, 3, 1, 0, 0],
        vec![1, 4, 6, 4, 1, 0],
        vec![1, 5, 10, 10, 5, 1],
        vec![1, 6, 15, 20, 15, 6],
        vec![1, 7, 21, 35, 35, 21],
        vec![1, 8, 28, 56, 70, 56],
        vec![1, 9, 36, 84, 126, 126],
        vec![1, 10, 45, 120, 210, 252],
    ];
    assert_eq!(make_binomial(10, 5), expected);
}

#[test]
fn test_encode_combination() {
    let binomial = make_binomial(5, 3);
    assert_eq!(encode_combination(&binomial, &[0, 1, 2]), 0);
    assert_eq!(encode_combination(&binomial, &[0, 1, 3]), 1);
    assert_eq!(encode_combination(&binomial, &[0, 2, 3]), 2);
    assert_eq!(encode_combination(&binomial, &[1, 2, 3]), 3);
    assert_eq!(encode_combination(&binomial, &[0, 1, 4]), 4);
    assert_eq!(encode_combination(&binomial, &[0, 2, 4]), 5);
    assert_eq!(encode_combination(&binomial, &[1, 2, 4]), 6);
    assert_eq!(encode_combination(&binomial, &[0, 3, 4]), 7);
    assert_eq!(encode_combination(&binomial, &[1, 3, 4]), 8);
    assert_eq!(encode_combination(&binomial, &[2, 3, 4]), 9);
    assert_eq!(encode_combination(&binomial, &[0, 1, 5]), 10);
}

#[test]
fn test_decode_combination() {
    let binomial = make_binomial(5, 3);
    assert_eq!(decode_combination(&binomial, 3, 0), [0, 1, 2]);
    assert_eq!(decode_combination(&binomial, 3, 1), [0, 1, 3]);
    assert_eq!(decode_combination(&binomial, 3, 2), [0, 2, 3]);
    assert_eq!(decode_combination(&binomial, 3, 3), [1, 2, 3]);
    assert_eq!(decode_combination(&binomial, 3, 4), [0, 1, 4]);
    assert_eq!(decode_combination(&binomial, 3, 5), [0, 2, 4]);
    assert_eq!(decode_combination(&binomial, 3, 6), [1, 2, 4]);
    assert_eq!(decode_combination(&binomial, 3, 7), [0, 3, 4]);
    assert_eq!(decode_combination(&binomial, 3, 8), [1, 3, 4]);
    assert_eq!(decode_combination(&binomial, 3, 9), [2, 3, 4]);
    assert_eq!(decode_combination(&binomial, 3, 10), [0, 1, 5]);
}

#[test]
fn round_trip_of_every_committee() {
    let binomial = make_binomial(7, 4);
    for k in 0..=4usize {
        for m in 0..binomial[7][k] {
            let c = decode_combination(&binomial, k, m);
            assert_eq!(c.len(), k);
            assert!(c.windows(2).all(|w| w[0] < w[1]));
            assert!(c.iter().all(|&x| x < 7));
            assert_eq!(encode_combination(&binomial, &c), m);
        }
    }
}

#[test]
fn tables_that_fit() {
    assert!(binomial_fits(0, 0));
    assert!(binomial_fits(10, 5));
    assert!(binomial_fits(5, 10));
    assert!(binomial_fits(66, 33));
    assert!(binomial_fits(1000, 2));
}

#[test]
fn tables_that_do_not_fit() {
    // C(68, 34) is above 2^64.
    assert!(!binomial_fits(68, 34));
    assert!(!binomial_fits(200, 100));
    assert!(!binomial_fits(usize::MAX, 1));
    assert!(!binomial_fits(1, usize::MAX));
}
