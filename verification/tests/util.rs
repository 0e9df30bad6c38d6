use schulze_stv::util::{combine_dups, combine_dups2, merge_combine};

#[test]
fn runs_are_folded() {
    let items = vec![1, 1, 2, 3, 3, 3, 3, 4, 5, 5];
    let out = combine_dups2(
        items,
        |a: &i32, b: &i32| a == b,
        |a: i32| format!("one({a})"),
        |a: i32, b: i32| format!("two({a},{b})"),
        |g: String, a: i32| format!("more({g},{a})"),
    );
    assert_eq!(
        out,
        ["two(1,1)", "one(2)", "more(more(two(3,3),3),3)", "one(4)", "two(5,5)"]
    );
    let none: Vec<String> =
        combine_dups2(Vec::<i32>::new(), |a, b| a == b, |a| a.to_string(), |a, _| a.to_string(), |g, _| g);
    assert!(none.is_empty());
    let one = combine_dups2(vec![7], |a: &i32, b: &i32| a == b, |a| a, |a, b| a + b, |g, a| g + a);
    assert_eq!(one, [7]);
    let three = combine_dups2(vec![7, 7, 7], |a: &i32, b: &i32| a == b, |a| a, |a, b| a + b, |g, a| g + a);
    assert_eq!(three, [21]);
}

#[test]
fn runs_are_collected() {
    let items = vec![(1, 'a'), (1, 'b'), (2, 'c'), (3, 'd'), (3, 'e'), (3, 'f')];
    let out = combine_dups(
        items,
        |a: &(i32, char), b: &(i32, char)| a.0 == b.0,
        |a: (i32, char)| vec![a.1],
        |mut g: Vec<char>, a: (i32, char)| {
            g.push(a.1);
            g
        },
    );
    assert_eq!(out, vec![vec!['a', 'b'], vec!['c'], vec!['d', 'e', 'f']]);
}

#[test]
fn merge_of_two_ascending_lists() {
    let left = vec![(1, 10), (3, 30), (5, 50), (7, 70)];
    let right = vec![(0, 1), (3, 3), (4, 4), (7, 7), (8, 8), (9, 9)];
    let out = merge_combine(
        left,
        right,
        |a: &(i32, i32), b: &(i32, i32)| a.0.cmp(&b.0),
        |a: (i32, i32), b: (i32, i32)| (a.0, a.1 + b.1),
    );
    assert_eq!(out, [(0, 1), (1, 10), (3, 33), (4, 4), (5, 50), (7, 77), (8, 8), (9, 9)]);
    let order = |a: &i32, b: &i32| a.cmp(b);
    assert_eq!(merge_combine(vec![], vec![1, 2], order, |a, _| a), [1, 2]);
    assert_eq!(merge_combine(vec![1, 2], vec![], order, |a, _| a), [1, 2]);
    assert_eq!(merge_combine(vec![5, 6], vec![1, 2], order, |a, _| a), [1, 2, 5, 6]);
    assert_eq!(merge_combine(vec![1, 2], vec![2, 6], order, |a, b| a + b), [1, 4, 6]);
}
