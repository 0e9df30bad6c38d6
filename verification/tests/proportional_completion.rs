use schulze_stv::proportional_completion::Preference::{Equal as _2, Greater as _1, Less as _3};
use schulze_stv::proportional_completion::{
    decode_bits, encode_pattern, key_order, proportional_completion, Preference,
};
use schulze_stv::rational::Rational;
use schulze_stv::traits::Weight;
use std::cmp::Ordering;

fn q(n: i64) -> Rational {
    Rational::from_i64(n)
}

fn big(digits: &str) -> Rational {
    let mut acc = q(0);
    for d in digits.bytes() {
        acc = acc.times(&q(10)).plus(&q((d - b'0') as i64));
    }
    acc
}

fn ratio(n: &str, d: &str) -> Rational {
    big(n).over(&big(d))
}

fn seats(a: &[Preference]) -> Vec<usize> {
    (0..a.len()).filter(|&i| a[i] == _1).collect()
}

fn sorted(v: Vec<(Vec<usize>, Rational)>) -> Vec<(Vec<usize>, String)> {
    let mut v1: Vec<(Vec<usize>, String)> = v.into_iter().map(|(a, w)| (a, w.to_text())).collect();
    v1.sort();
    v1
}

fn total(v: &[(Vec<usize>, Rational)]) -> Rational {
    v.iter().fold(q(0), |acc, (_, w)| acc.plus(w))
}

#[test]
fn test_proportional_completion_1() {
    let patterns: Vec<(Vec<Preference>, Rational)> = vec![
        (vec![_1, _1, _1, _1], q(46)),
        (vec![_1, _1, _1, _2], q(15)),
        (vec![_1, _1, _1, _3], q(24)),
        (vec![_1, _1, _2, _1], q(8)),
        (vec![_1, _1, _2, _2], q(10)),
        (vec![_1, _1, _3, _1], q(10)),
        (vec![_1, _1, _3, _3], q(19)),
        (vec![_1, _2, _1, _1], q(8)),
        (vec![_1, _2, _1, _2], q(29)),
        (vec![_1, _2, _2, _1], q(10)),
        (vec![_1, _2, _2, _2], q(26)),
        (vec![_1, _3, _1, _1], q(10)),
        (vec![_1, _3, _1, _3], q(15)),
        (vec![_1, _3, _2, _1], q(1)),
        (vec![_1, _3, _3, _1], q(9)),
        (vec![_1, _3, _3, _3], q(41)),
        (vec![_2, _1, _1, _1], q(3)),
        (vec![_2, _1, _1, _2], q(5)),
        (vec![_2, _1, _2, _1], q(5)),
        (vec![_2, _1, _2, _2], q(10)),
        (vec![_2, _2, _1, _1], q(7)),
        (vec![_2, _2, _1, _2], q(22)),
        (vec![_2, _2, _2, _1], q(14)),
        (vec![_2, _2, _2, _2], q(23)),
        (vec![_2, _3, _3, _3], q(1)),
        (vec![_3, _1, _1, _1], q(1)),
        (vec![_3, _1, _1, _3], q(3)),
        (vec![_3, _1, _3, _1], q(4)),
        (vec![_3, _1, _3, _3], q(5)),
        (vec![_3, _3, _1, _1], q(4)),
        (vec![_3, _3, _1, _3], q(11)),
        (vec![_3, _3, _3, _1], q(6)),
        (vec![_3, _3, _3, _3], q(55)),
    ];
    let expected: Vec<(Vec<Preference>, Rational)> = vec![
        (
            vec![_1, _1, _1, _1],
            ratio("45513455366183031714312799", "392675963004164103979050"),
        ),
        (vec![_1, _1, _1, _3], q(313141398725389).over(&q(5802708856700))),
        (vec![_1, _1, _3, _1], q(398610303226324835).over(&q(17955446458922532))),
        (vec![_1, _1, _3, _3], q(56713304320).over(&q(2097364647))),
        (vec![_1, _3, _1, _1], ratio("323263789854293839067", "10819009863732307590")),
        (vec![_1, _3, _1, _3], q(2664088261).over(&q(79938130))),
        (vec![_1, _3, _3, _1], q(10276259658824).over(&q(618385674987))),
        (vec![_1, _3, _3, _3], q(14567002).over(&q(288933))),
        (vec![_3, _1, _1, _1], q(9026619205849313).over(&q(2353019619161400))),
        (vec![_3, _1, _1, _3], q(25937418993).over(&q(4983004600))),
        (vec![_3, _1, _3, _1], q(16829300885).over(&q(2878135428))),
        (vec![_3, _1, _3, _3], q(2025680).over(&q(300181))),
        (vec![_3, _3, _1, _1], q(57854720993).over(&q(8103800865))),
        (vec![_3, _3, _1, _3], q(4456496).over(&q(291745))),
        (vec![_3, _3, _3, _1], q(837524).over(&q(99123))),
        (vec![_3, _3, _3, _3], q(40878).over(&q(703))),
    ];
    let expected: Vec<(Vec<usize>, Rational)> =
        expected.into_iter().map(|(a, w)| (seats(&a), w)).collect();
    assert_eq!(sorted(proportional_completion(&patterns)), sorted(expected));
}

#[test]
fn test_proportional_completion_2() {
    let patterns: Vec<(Vec<Preference>, Rational)> = vec![(vec![_1, _3], q(1)), (vec![_3, _2], q(1))];
    let expected: Vec<(Vec<usize>, Rational)> = vec![(vec![], q(1)), (vec![0], q(1))];
    assert_eq!(sorted(proportional_completion(&patterns)), sorted(expected));
}

#[test]
fn completion_keeps_the_total_weight() {
    let patterns: Vec<(Vec<Preference>, Rational)> = vec![
        (vec![_2, _1, _3], q(7)),
        (vec![_1, _2, _2], q(5)),
        (vec![_2, _2, _2], q(3)),
        (vec![_3, _1, _2], q(11)),
        (vec![_1, _3, _1], q(0)),
        (vec![_1, _3, _3], q(2)),
    ];
    let out = proportional_completion(&patterns);
    assert!(total(&out).fuzzy_eq(&q(28)));
    for (_, w) in &out {
        assert!(q(0).less_than(w));
    }
    let mut seen: Vec<&Vec<usize>> = out.iter().map(|(a, _)| a).collect();
    seen.sort();
    seen.dedup();
    assert_eq!(seen.len(), out.len());
}

#[test]
fn completion_of_patterns_without_ties_adds_up_duplicates() {
    let patterns: Vec<(Vec<Preference>, Rational)> = vec![
        (vec![_1, _3], q(4)),
        (vec![_3, _1], q(2)),
        (vec![_1, _3], q(3)),
        (vec![_3, _3], q(0)),
        (vec![_1, _1], q(1)),
    ];
    let expected: Vec<(Vec<usize>, Rational)> =
        vec![(vec![0], q(7)), (vec![1], q(2)), (vec![0, 1], q(1))];
    assert_eq!(sorted(proportional_completion(&patterns)), sorted(expected));
}

#[test]
fn completion_splits_in_halves_when_nothing_breaks_the_ties() {
    let patterns: Vec<(Vec<Preference>, Rational)> =
        vec![(vec![_2, _1, _2], q(3)), (vec![_2, _3, _2], q(5))];
    let expected: Vec<(Vec<usize>, Rational)> = vec![
        (vec![1], q(3).over(&q(2))),
        (vec![0, 1, 2], q(3).over(&q(2))),
        (vec![], q(5).over(&q(2))),
        (vec![0, 2], q(5).over(&q(2))),
    ];
    assert_eq!(sorted(proportional_completion(&patterns)), sorted(expected));
}

#[test]
fn completion_shares_out_in_proportion() {
    // One seat: 6 prefer it, 2 prefer the challenger, 4 are tied.
    let patterns: Vec<(Vec<Preference>, Rational)> =
        vec![(vec![_1], q(6)), (vec![_3], q(2)), (vec![_2], q(4))];
    let expected: Vec<(Vec<usize>, Rational)> = vec![(vec![0], q(9)), (vec![], q(3))];
    assert_eq!(sorted(proportional_completion(&patterns)), sorted(expected));
}

#[test]
fn completion_of_nothing_is_nothing() {
    let none: Vec<(Vec<Preference>, Rational)> = vec![];
    assert!(proportional_completion(&none).is_empty());
    let zero: Vec<(Vec<Preference>, Rational)> = vec![(vec![_2, _1], q(0))];
    assert!(proportional_completion(&zero).is_empty());
}

#[test]
fn pattern_masks() {
    assert_eq!(encode_pattern(&[]), (0, 0));
    assert_eq!(encode_pattern(&[_1, _2, _3, _2, _1]), (0b01010, 0b10001));
    assert_eq!(encode_pattern(&[_3, _3]), (0, 0));
    assert_eq!(encode_pattern(&vec![_1; 64]), (0, u64::MAX));
    assert_eq!(decode_bits(0), Vec::<usize>::new());
    assert_eq!(decode_bits(0b10110), [1, 2, 4]);
    assert_eq!(decode_bits(1 << 63), [63]);
    assert_eq!(decode_bits(encode_pattern(&[_1, _2, _3, _2, _1]).1), [0, 4]);
}

#[test]
fn order_of_keys() {
    assert_eq!(key_order(&(1, 5), &(2, 0)), Ordering::Less);
    assert_eq!(key_order(&(2, 0), &(1, 5)), Ordering::Greater);
    assert_eq!(key_order(&(2, 3), &(2, 4)), Ordering::Less);
    assert_eq!(key_order(&(2, 4), &(2, 3)), Ordering::Greater);
    assert_eq!(key_order(&(2, 4), &(2, 4)), Ordering::Equal);
}
