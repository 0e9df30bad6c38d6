use schulze_stv::rational::Rational;
use schulze_stv::traits::Weight;
use schulze_stv::vote_management::strength;

fn q(n: i64) -> Rational {
    Rational::from_i64(n)
}

fn ratio(n: i64, d: i64) -> Rational {
    q(n).over(&q(d))
}

#[test]
fn test_strength_1() {
    let ballots: Vec<(Vec<usize>, Rational)> =
        vec![(vec![0], q(12)), (vec![1], q(0)), (vec![0, 1], q(51)), (vec![], q(27))];
    assert!(strength(2, &ballots).fuzzy_eq(&ratio(63, 2)));
}

#[test]
fn test_strength_2() {
    let ballots: Vec<(Vec<usize>, Rational)> =
        vec![(vec![0], q(38)), (vec![1], q(27)), (vec![0, 1], q(12))];
    assert!(strength(2, &ballots).fuzzy_eq(&ratio(77, 2)));
}

#[test]
fn test_strength_3() {
    let m = 1_000000;
    let ballots: Vec<(Vec<usize>, Rational)> = vec![
        (vec![0, 1, 2, 3], ratio(36_597383, m)),
        (vec![0, 1, 2], ratio(5_481150, m)),
        (vec![0, 1, 3], ratio(13_279131, m)),
        (vec![0, 1], ratio(4_859413, m)),
        (vec![0, 2, 3], ratio(35_425375, m)),
        (vec![0, 2], ratio(5_490934, m)),
        (vec![0, 3], ratio(22_855333, m)),
        (vec![0], ratio(19_835570, m)),
        (vec![1, 2, 3], ratio(22_928716, m)),
        (vec![1, 2], ratio(5_538309, m)),
        (vec![1, 3], ratio(13_130227, m)),
        (vec![1], ratio(6_056291, m)),
        (vec![2, 3], ratio(23_992772, m)),
        (vec![2], ratio(16_699207, m)),
        (vec![3], ratio(98_165759, m)),
        (vec![], ratio(129_664430, m)),
    ];
    assert!(strength(4, &ballots).fuzzy_eq(&ratio(77_389937, m)));
}

#[test]
fn strength_without_seats_is_zero() {
    let ballots: Vec<(Vec<usize>, Rational)> = vec![(vec![], q(5))];
    assert!(strength(0, &ballots).is_zero());
}

#[test]
fn rational_arithmetic() {
    assert_eq!(ratio(6, 4).to_text(), "3/2");
    assert_eq!(ratio(1, 3).plus(&ratio(1, 6)).to_text(), "1/2");
    assert_eq!(ratio(1, 3).minus(&ratio(1, 2)).to_text(), "-1/6");
    assert_eq!(ratio(2, 3).times(&ratio(3, 4)).to_text(), "1/2");
    assert_eq!(q(7).duplicate().to_text(), "7");
    assert!(ratio(1, 3).less_than(&ratio(1, 2)));
    assert!(!ratio(1, 2).less_than(&ratio(1, 2)));
    assert!(q(0).is_zero());
    assert!(!ratio(1, 1000).is_zero());
    assert!(Rational::one().fuzzy_eq(&ratio(5, 5)));
    assert!(Rational::zero().fuzzy_eq(&q(0)));
}

#[test]
fn strength_of_one_seat_is_the_weight_behind_it() {
    let ballots: Vec<(Vec<usize>, Rational)> =
        vec![(vec![0], q(5)), (vec![], q(3)), (vec![0], ratio(1, 2))];
    assert!(strength(1, &ballots).fuzzy_eq(&ratio(11, 2)));
}

#[test]
fn strength_is_held_down_by_the_weakest_seats() {
    // Seat 1 has the weight 2 behind it, and both seats together 12.
    let ballots: Vec<(Vec<usize>, Rational)> = vec![(vec![0], q(10)), (vec![1], q(2))];
    assert!(strength(2, &ballots).fuzzy_eq(&q(2)));
    // Shared ballots even the seats out.
    let shared: Vec<(Vec<usize>, Rational)> = vec![(vec![0], q(10)), (vec![0, 1], q(2))];
    assert!(strength(2, &shared).fuzzy_eq(&q(2)));
    let even: Vec<(Vec<usize>, Rational)> = vec![(vec![0, 1], q(10)), (vec![1], q(2))];
    assert!(strength(2, &even).fuzzy_eq(&q(6)));
}

#[test]
fn strength_times_the_seats_is_within_the_total_weight() {
    let ballots: Vec<(Vec<usize>, Rational)> = vec![
        (vec![0, 1, 2], q(7)),
        (vec![0], q(3)),
        (vec![1, 2], q(4)),
        (vec![], q(20)),
        (vec![2], q(1)),
    ];
    let r = strength(3, &ballots);
    assert!(!r.less_than(&q(0)));
    assert!(!q(35).less_than(&r.times(&q(3))));
    assert!(r.fuzzy_eq(&q(5)));
}

#[test]
fn strength_without_ballots_is_zero() {
    let ballots: Vec<(Vec<usize>, Rational)> = Vec::new();
    assert!(strength(3, &ballots).is_zero());
}

#[test]
fn rationals_are_written_in_lowest_terms() {
    assert_eq!(q(0).to_text(), "0");
    assert_eq!(q(5).to_text(), "5");
    assert_eq!(q(-12).to_text(), "-12");
    assert_eq!(ratio(-6, 4).to_text(), "-3/2");
    assert_eq!(ratio(3, -6).to_text(), "-1/2");
    assert_eq!(ratio(10, 5).to_text(), "2");
    assert_eq!(ratio(0, 7).to_text(), "0");
    assert_eq!(ratio(1_000_000_007, 1_000_000).to_text(), "1000000007/1000000");
}
