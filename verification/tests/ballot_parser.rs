use schulze_stv::ballot_parser::{chars_of, parse_ballot_files, BallotParser, FileError, ParseError};
use schulze_stv::rational::Rational;
use schulze_stv::schulze_stv::schulze_stv;
use schulze_stv::traits::Weight;

fn q(n: i64) -> Rational {
    Rational::from_i64(n)
}

fn ratio(n: i64, d: i64) -> Rational {
    q(n).over(&q(d))
}

fn lines(text: &[&str]) -> Vec<String> {
    text.iter().map(|l| l.to_string()).collect()
}

fn read(text: &[&str]) -> Result<BallotParser<Rational>, (usize, ParseError)> {
    let mut bp = BallotParser::new();
    bp.add_ballots(&lines(text))?;
    Ok(bp)
}

fn fault(line: &str) -> ParseError {
    let mut bp: BallotParser<Rational> = BallotParser::new();
    match bp.add_ballot(line) {
        Ok(()) => panic!("the line was taken: {}", line),
        Err(e) => {
            assert!(bp.ballots.is_empty());
            e
        }
    }
}

#[test]
fn characters_of_a_text() {
    assert_eq!(chars_of("a > é"), vec!['a', ' ', '>', ' ', 'é']);
    assert_eq!(chars_of(""), Vec::<char>::new());
}

#[test]
fn a_ballot_without_weight_weighs_one() {
    let bp = read(&["Ann > Bob = Cid > Dee"]).ok().unwrap();
    assert_eq!(bp.candidates, vec!["Ann", "Bob", "Cid", "Dee"]);
    assert_eq!(bp.ballots.len(), 1);
    assert_eq!(bp.ballots[0].0, vec![vec![0], vec![1, 2], vec![3]]);
    assert!(bp.ballots[0].1.fuzzy_eq(&q(1)));
}

#[test]
fn names_are_numbered_as_they_first_appear() {
    let bp = read(&["b > a", "c = a > b", "d"]).ok().unwrap();
    assert_eq!(bp.candidates, vec!["b", "a", "c", "d"]);
    assert_eq!(bp.ballots[0].0, vec![vec![0], vec![1]]);
    assert_eq!(bp.ballots[1].0, vec![vec![2, 1], vec![0]]);
    assert_eq!(bp.ballots[2].0, vec![vec![3]]);
}

#[test]
fn weights_are_integers_and_fractions() {
    let bp = read(&["12: a", "7/2 : b", " -3/-4 : c > a", "+5/10:a", "0012: b"]);
    let bp = match bp {
        Ok(bp) => bp,
        Err((n, e)) => panic!("line {}: {}", n, e.message()),
    };
    assert_eq!(bp.ballots.len(), 5);
    assert!(bp.ballots[0].1.fuzzy_eq(&q(12)));
    assert!(bp.ballots[1].1.fuzzy_eq(&ratio(7, 2)));
    assert!(bp.ballots[2].1.fuzzy_eq(&ratio(3, 4)));
    assert!(bp.ballots[3].1.fuzzy_eq(&ratio(1, 2)));
    assert!(bp.ballots[4].1.fuzzy_eq(&q(12)));
    assert_eq!(bp.ballots[2].0, vec![vec![2], vec![0]]);
}

#[test]
fn a_weight_below_zero_is_refused() {
    let r = read(&["12: a", " +3/-4 : c > a"]);
    match r {
        Err((1, ParseError::NonPositiveWeight)) => {}
        _ => panic!("the weight was taken"),
    }
}

#[test]
fn blank_lines_are_passed_over() {
    let bp = read(&["", "   ", "\t", "a > b", " \r"]).ok().unwrap();
    assert_eq!(bp.ballots.len(), 1);
    assert_eq!(bp.candidates, vec!["a", "b"]);
}

#[test]
fn white_space_inside_a_name_stays() {
    let bp = read(&["  2 :  Ann  Lee =Bob\t>  Cid "]).ok().unwrap();
    assert_eq!(bp.candidates, vec!["Ann  Lee", "Bob", "Cid"]);
    assert_eq!(bp.ballots[0].0, vec![vec![0, 1], vec![2]]);
    assert!(bp.ballots[0].1.fuzzy_eq(&q(2)));
}

#[test]
fn names_tell_upper_from_lower_case() {
    let bp = read(&["ann > Ann"]).ok().unwrap();
    assert_eq!(bp.candidates, vec!["ann", "Ann"]);
}

#[test]
fn an_empty_name_is_refused() {
    assert!(matches!(fault("a > b ="), ParseError::EmptyName));
    assert!(matches!(fault("a >> b"), ParseError::EmptyName));
    assert!(matches!(fault("> a"), ParseError::EmptyName));
    assert!(matches!(fault("3:"), ParseError::EmptyName));
    assert_eq!(fault("=").message(), "empty candidate name");
}

#[test]
fn a_name_twice_on_a_ballot_is_refused() {
    match fault("a > b = a") {
        ParseError::Repeated(name) => assert_eq!(name, "a"),
        _ => panic!("another error"),
    }
    assert_eq!(fault("x y > z >  x y ").message(), "candidate repeated: x y");
}

#[test]
fn a_text_that_is_no_weight_is_refused() {
    assert!(matches!(fault("x: a"), ParseError::BadWeight));
    assert!(matches!(fault(": a"), ParseError::BadWeight));
    assert!(matches!(fault("1/0: a"), ParseError::BadWeight));
    assert!(matches!(fault("1/: a"), ParseError::BadWeight));
    assert!(matches!(fault("/2: a"), ParseError::BadWeight));
    assert!(matches!(fault("1/2/3: a"), ParseError::BadWeight));
    assert!(matches!(fault("1 / 2: a"), ParseError::BadWeight));
    assert!(matches!(fault("1.5: a"), ParseError::BadWeight));
    assert!(matches!(fault("-: a"), ParseError::BadWeight));
    assert!(matches!(fault("--1: a"), ParseError::BadWeight));
    assert_eq!(fault("one: a").message(), "cannot parse ballot weight");
}

#[test]
fn a_weight_of_zero_or_less_is_refused() {
    assert!(matches!(fault("0: a"), ParseError::NonPositiveWeight));
    assert!(matches!(fault("-1: a"), ParseError::NonPositiveWeight));
    assert!(matches!(fault("0/5: a"), ParseError::NonPositiveWeight));
    assert!(matches!(fault("-1/3: a"), ParseError::NonPositiveWeight));
    assert_eq!(fault("-2: a").message(), "non-positive ballot weight");
}

#[test]
fn a_second_colon_is_refused() {
    assert!(matches!(fault("1: a:b > c"), ParseError::Malformed));
    assert!(matches!(fault("1: 2: a"), ParseError::Malformed));
    assert_eq!(fault("1::a").message(), "more than one colon");
}

#[test]
fn the_weight_is_judged_before_the_names() {
    assert!(matches!(fault("x: a = a"), ParseError::BadWeight));
    assert!(matches!(fault("0: a:b"), ParseError::NonPositiveWeight));
    assert!(matches!(fault("1: a = a : b"), ParseError::Malformed));
}

#[test]
fn names_before_a_fault_stay_known() {
    let mut bp: BallotParser<Rational> = BallotParser::new();
    assert!(bp.add_ballot("a > b").is_ok());
    assert!(bp.add_ballot("c > d > c > e").is_err());
    assert_eq!(bp.candidates, vec!["a", "b", "c", "d"]);
    assert_eq!(bp.ballots.len(), 1);
    assert!(bp.add_ballot("e > a").is_ok());
    assert_eq!(bp.ballots[1].0, vec![vec![4], vec![0]]);
}

#[test]
fn the_first_line_at_fault_is_given_with_its_number() {
    match read(&["a > b", "", "b > a", "2: a = a", "x: a"]) {
        Err((3, ParseError::Repeated(name))) => assert_eq!(name, "a"),
        _ => panic!("another result"),
    }
}

#[test]
fn files_are_read_in_their_order() {
    let files = vec![
        ("first".to_string(), lines(&["3: a > b", "b"])),
        ("second".to_string(), lines(&[])),
        ("third".to_string(), lines(&["", "c = a"])),
    ];
    let bp: BallotParser<Rational> = parse_ballot_files(&files).ok().unwrap();
    assert_eq!(bp.candidates, vec!["a", "b", "c"]);
    assert_eq!(bp.ballots.len(), 3);
    assert_eq!(bp.ballots[2].0, vec![vec![2, 0]]);
    assert!(bp.ballots[0].1.fuzzy_eq(&q(3)));
}

#[test]
fn a_fault_is_given_with_file_and_line() {
    let files = vec![
        ("first".to_string(), lines(&["3: a > b", "b"])),
        ("second".to_string(), lines(&["", "a >", "b = b"])),
        ("third".to_string(), lines(&["0: a"])),
    ];
    match parse_ballot_files::<Rational>(&files) {
        Err(FileError { file, line, error }) => {
            assert_eq!(file, "second");
            assert_eq!(line, 2);
            assert!(matches!(error, ParseError::EmptyName));
        }
        Ok(_) => panic!("the files were taken"),
    }
}

#[test]
fn no_files_give_no_ballots() {
    let files: Vec<(String, Vec<String>)> = Vec::new();
    let bp: BallotParser<Rational> = parse_ballot_files(&files).ok().unwrap();
    assert!(bp.candidates.is_empty());
    assert!(bp.ballots.is_empty());
}

#[test]
fn ballots_that_were_read_are_tallied() {
    let bp: BallotParser<Rational> = read(&[
        "12: a > b > c",
        "26: a > c > b",
        "12: a > c > b",
        "13: c > a > b",
        "27: b",
    ])
    .ok()
    .unwrap();
    let winners = schulze_stv(bp.candidates.len(), 2, &bp.ballots);
    assert_eq!(winners, vec![vec![0, 1]]);
}
