use schulze_stv::combination::{encode_combination, make_binomial};
use schulze_stv::proportional_completion::Preference::{Equal, Greater, Less};
use schulze_stv::rational::Rational;
use schulze_stv::schulze_stv::{
    all_strengths, ballots_valid, elect, preferred, replacements, schulze_stv, Refusal, NO_SEAT,
};
use schulze_stv::traits::Weight;

fn q(n: i64) -> Rational {
    Rational::from_i64(n)
}

fn texts(table: &[Vec<Rational>]) -> Vec<Vec<String>> {
    table.iter().map(|row| row.iter().map(|w| w.to_text()).collect()).collect()
}

#[test]
fn test_replacements() {
    let set = vec![2, 4, 6, 8, 10, 12];
    let opponent = 9;
    let expected: Vec<Vec<usize>> = vec![
        vec![4, 6, 8, 9, 10, 12],
        vec![2, 6, 8, 9, 10, 12],
        vec![2, 4, 8, 9, 10, 12],
        vec![2, 4, 6, 9, 10, 12],
        vec![2, 4, 6, 8, 9, 12],
        vec![2, 4, 6, 8, 9, 10],
    ];
    assert_eq!(replacements(&set, opponent), expected);
}

#[test]
fn replacements_at_the_ends() {
    assert_eq!(replacements(&[3, 5], 0), vec![vec![0, 5], vec![0, 3]]);
    assert_eq!(replacements(&[3, 5], 9), vec![vec![5, 9], vec![3, 9]]);
    assert_eq!(replacements(&[], 9), Vec::<Vec<usize>>::new());
}

#[test]
fn test_schulze_stv_1() {
    let (a, b, c, d, e) = (0, 1, 2, 3, 4);
    let order = |x: [usize; 5], w: i64| -> (Vec<Vec<usize>>, Rational) {
        (x.iter().map(|&i| vec![i]).collect(), q(w))
    };
    let ballots: Vec<(Vec<Vec<usize>>, Rational)> = vec![
        order([a, b, c, d, e], 60),
        order([a, c, e, b, d], 45),
        order([a, d, b, e, c], 30),
        order([a, e, d, c, b], 15),
        order([b, a, e, d, c], 12),
        order([b, c, d, e, a], 48),
        order([b, d, a, c, e], 39),
        order([b, e, c, a, d], 21),
        order([c, a, d, b, e], 27),
        order([c, b, a, e, d], 9),
        order([c, d, e, a, b], 51),
        order([c, e, b, d, a], 33),
        order([d, a, c, e, b], 42),
        order([d, b, e, c, a], 18),
        order([d, c, b, a, e], 6),
        order([d, e, a, b, c], 54),
        order([e, a, b, c, d], 57),
        order([e, b, d, a, c], 36),
        order([e, c, a, d, b], 24),
        order([e, d, c, b, a], 3),
    ];
    let binomial = make_binomial(5, 3);
    let mut strengths: Vec<Vec<Rational>> = (0..10).map(|_| Vec::new()).collect();
    let expected: Vec<(Vec<usize>, Vec<Rational>)> = vec![
        (vec![a, b, c], vec![q(0), q(0), q(0), q(169), q(152)]),
        (vec![a, b, d], vec![q(0), q(0), q(162), q(0), q(159)]),
        (vec![a, b, e], vec![q(0), q(0), q(168), q(153), q(0)]),
        (vec![a, c, d], vec![q(0), q(158), q(0), q(0), q(163)]),
        (vec![a, c, e], vec![q(0), q(164), q(0), q(157), q(0)]),
        (vec![a, d, e], vec![q(0), q(167), q(154), q(0), q(0)]),
        (vec![b, c, d], vec![q(141), q(0), q(0), q(0), q(165)]),
        (vec![b, c, e], vec![q(146), q(0), q(0), q(160), q(0)]),
        (vec![b, d, e], vec![q(151), q(0), q(155), q(0), q(0)]),
        (vec![c, d, e], vec![q(156), q(150), q(0), q(0), q(0)]),
    ];
    for (m, v) in expected {
        strengths[encode_combination(&binomial, &m)] = v;
    }
    assert_eq!(texts(&all_strengths(5, 3, &ballots)), texts(&strengths));
    let expected: Vec<Vec<usize>> = vec![vec![a, d, e]];
    assert_eq!(schulze_stv(5, 3, &ballots), expected);
}

#[test]
fn test_schulze_stv_2() {
    let ballots: Vec<(Vec<Vec<usize>>, Rational)> = vec![
        (vec![vec![0], vec![1], vec![2]], q(12)),
        (vec![vec![0], vec![2], vec![1]], q(26)),
        (vec![vec![0], vec![2], vec![1]], q(12)),
        (vec![vec![2], vec![0], vec![1]], q(13)),
        (vec![vec![1]], q(27)),
    ];
    let binomial = make_binomial(3, 2);
    let mut strengths: Vec<Vec<Rational>> = (0..3).map(|_| Vec::new()).collect();
    let expected: Vec<(Vec<usize>, Vec<Rational>)> = vec![
        (vec![0, 1], vec![q(0), q(0), q(77).over(&q(2))]),
        (vec![0, 2], vec![q(0), q(63).over(&q(2)), q(0)]),
        (vec![1, 2], vec![q(130).over(&q(7)), q(0), q(0)]),
    ];
    for (m, v) in expected {
        strengths[encode_combination(&binomial, &m)] = v;
    }
    assert_eq!(texts(&all_strengths(3, 2, &ballots)), texts(&strengths));
    let expected: Vec<Vec<usize>> = vec![vec![0, 1]];
    assert_eq!(schulze_stv(3, 2, &ballots), expected);
}

#[test]
fn strength_of_a_committee_against_its_members_is_zero() {
    let ballots: Vec<(Vec<Vec<usize>>, Rational)> = vec![
        (vec![vec![0, 1], vec![2]], q(5)),
        (vec![vec![3], vec![2, 0]], q(4)),
        (vec![vec![1]], q(2)),
    ];
    let binomial = make_binomial(4, 2);
    let table = all_strengths(4, 2, &ballots);
    assert_eq!(table.len(), 6);
    for a in 0..4usize {
        for b in a + 1..4 {
            let row = &table[encode_combination(&binomial, &[a, b])];
            assert_eq!(row.len(), 4);
            assert!(row[a].is_zero());
            assert!(row[b].is_zero());
        }
    }
}

#[test]
fn tied_election_has_several_winners() {
    let ballots: Vec<(Vec<Vec<usize>>, Rational)> =
        vec![(vec![vec![0], vec![1]], q(1)), (vec![vec![1], vec![0]], q(1))];
    let mut winners = schulze_stv(2, 1, &ballots);
    winners.sort();
    assert_eq!(winners, vec![vec![0], vec![1]]);
}

#[test]
fn single_winner_election() {
    let ballots: Vec<(Vec<Vec<usize>>, Rational)> = vec![
        (vec![vec![0], vec![1], vec![2]], q(3)),
        (vec![vec![1], vec![2], vec![0]], q(2)),
        (vec![vec![2], vec![1], vec![0]], q(2)),
    ];
    assert_eq!(schulze_stv(3, 1, &ballots), vec![vec![1]]);
}

#[test]
fn election_of_every_candidate() {
    let ballots: Vec<(Vec<Vec<usize>>, Rational)> = vec![(vec![vec![0], vec![1]], q(1))];
    assert_eq!(schulze_stv(2, 2, &ballots), vec![vec![0, 1]]);
    assert_eq!(schulze_stv(2, 3, &ballots), Vec::<Vec<usize>>::new());
}

#[test]
fn preference_patterns() {
    // Seats: candidate 1 has seat 0, candidate 3 has seat 1, candidate 4 has seat 2.
    let seats = [NO_SEAT, 0, NO_SEAT, 1, 2];
    let ballot = vec![vec![1], vec![0, 3], vec![2]];
    assert_eq!(preferred(3, &seats, 0, &ballot), [Greater, Equal, Less]);
    assert_eq!(preferred(3, &seats, 2, &ballot), [Greater, Greater, Less]);
    let short = vec![vec![3]];
    assert_eq!(preferred(3, &seats, 0, &short), [Equal, Greater, Equal]);
    assert_eq!(preferred(3, &seats, 0, &[]), [Equal, Equal, Equal]);
}

#[test]
fn ballots_that_may_be_tallied() {
    let none: Vec<(Vec<Vec<usize>>, Rational)> = Vec::new();
    assert!(ballots_valid(&none, 0));
    let some = vec![
        (vec![vec![0], vec![1, 2]], Rational::from_i64(3)),
        (vec![], Rational::from_i64(0)),
        (vec![vec![2, 2], vec![0]], Rational::from_i64(1)),
    ];
    assert!(ballots_valid(&some, 3));
    assert!(ballots_valid(&some, 4));
}

#[test]
fn ballots_that_may_not_be_tallied() {
    let beyond = vec![(vec![vec![0], vec![3]], Rational::from_i64(1))];
    assert!(!ballots_valid(&beyond, 3));
    let twice = vec![(vec![vec![0, 1], vec![2], vec![1]], Rational::from_i64(1))];
    assert!(!ballots_valid(&twice, 3));
    let negative = vec![(vec![vec![0]], Rational::from_i64(-1))];
    assert!(!ballots_valid(&negative, 3));
}

#[test]
fn elections_that_are_refused() {
    let ballots = vec![(vec![vec![0], vec![1]], Rational::from_i64(1))];
    assert!(matches!(elect(2, 65, &ballots), Err(Refusal::TooManySeats)));
    assert!(matches!(elect(200, 64, &ballots), Err(Refusal::TooManyCommittees)));
    assert!(matches!(elect(1, 1, &ballots), Err(Refusal::BadBallots)));
}

#[test]
fn an_election_that_is_held() {
    let ballots = vec![
        (vec![vec![0], vec![1], vec![2]], Rational::from_i64(12)),
        (vec![vec![0], vec![2], vec![1]], Rational::from_i64(26)),
        (vec![vec![0], vec![2], vec![1]], Rational::from_i64(12)),
        (vec![vec![2], vec![0], vec![1]], Rational::from_i64(13)),
        (vec![vec![1]], Rational::from_i64(27)),
    ];
    match elect(3, 2, &ballots) {
        Ok(winners) => assert_eq!(winners, vec![vec![0, 1]]),
        Err(_) => panic!("the election was refused"),
    }
}
