use schulze_stv::schulze::schulze_graph;
use schulze_stv::schwartz_set::schwartz_set;

fn sorted(v: &[usize]) -> Vec<usize> {
    let mut v1 = v.to_vec();
    v1.sort();
    v1
}

#[test]
fn test_schwartz_set_1() {
    let defeaters: Vec<Vec<usize>> = vec![vec![], vec![0]];
    assert_eq!(sorted(&schwartz_set(&[0, 1], &defeaters)), [0]);
}

#[test]
fn test_schwartz_set_2() {
    let defeaters: Vec<Vec<usize>> = vec![vec![1], vec![]];
    assert_eq!(sorted(&schwartz_set(&[0, 1], &defeaters)), [1]);
}

#[test]
fn test_schwartz_set_3() {
    let defeaters: Vec<Vec<usize>> = vec![vec![], vec![]];
    assert_eq!(sorted(&schwartz_set(&[0, 1], &defeaters)), [0, 1]);
}

#[test]
fn test_schwartz_set_4() {
    let defeaters: Vec<Vec<usize>> = vec![vec![2], vec![0], vec![1]];
    assert_eq!(sorted(&schwartz_set(&[0, 1, 2], &defeaters)), [0, 1, 2]);
}

#[test]
fn test_schwartz_set_5() {
    let defeaters: Vec<Vec<usize>> = vec![vec![2, 3], vec![0], vec![1], vec![]];
    assert_eq!(sorted(&schwartz_set(&[0, 1, 2, 3], &defeaters)), [3]);
}

#[test]
fn schwartz_set_of_no_candidates_is_empty() {
    let defeaters: Vec<Vec<usize>> = vec![vec![1], vec![0]];
    assert!(schwartz_set(&[], &defeaters).is_empty());
}

#[test]
fn schwartz_set_counts_only_defeats_among_the_candidates() {
    // 2 defeats 0 and 1, but is not a candidate.
    let defeaters: Vec<Vec<usize>> = vec![vec![2], vec![0, 2], vec![]];
    assert_eq!(sorted(&schwartz_set(&[0, 1], &defeaters)), [0]);
    assert_eq!(sorted(&schwartz_set(&[1, 0, 1], &defeaters)), [0]);
}

#[test]
fn schwartz_set_of_two_circles() {
    // 0 and 1 defeat each other, 2 and 3 defeat each other, 4 is defeated by 0 and by 2.
    let defeaters: Vec<Vec<usize>> = vec![vec![1], vec![0], vec![3], vec![2], vec![0, 2]];
    assert_eq!(sorted(&schwartz_set(&[4, 3, 2, 1, 0], &defeaters)), [0, 1, 2, 3]);
}

#[test]
fn schwartz_set_of_a_long_chain() {
    let n = 20000;
    let mut defeaters: Vec<Vec<usize>> = vec![vec![]; n];
    for v in 1..n {
        defeaters[v].push(v - 1);
    }
    let candidates: Vec<usize> = (0..n).rev().collect();
    assert_eq!(schwartz_set(&candidates, &defeaters), [0]);
}

#[test]
fn test_schulze_1() {
    let defeat_groups: Vec<Vec<(usize, usize)>> = vec![
        vec![(1, 3)],
        vec![(4, 3)],
        vec![(0, 3)],
        vec![(2, 1)],
        vec![(3, 2)],
        vec![(4, 1)],
        vec![(0, 2)],
        vec![(1, 0)],
        vec![(2, 4)],
        vec![(4, 0)],
    ];
    assert_eq!(schulze_graph(5, &defeat_groups), [4]);
}

#[test]
fn schulze_with_one_group_is_the_schwartz_set() {
    let edges = vec![(0, 1), (1, 2), (2, 0), (0, 3), (3, 4)];
    let mut defeaters: Vec<Vec<usize>> = vec![vec![]; 5];
    for &(a, b) in &edges {
        defeaters[b].push(a);
    }
    let all: Vec<usize> = (0..5).collect();
    assert_eq!(sorted(&schulze_graph(5, &[edges])), sorted(&schwartz_set(&all, &defeaters)));
    assert_eq!(sorted(&schulze_graph(5, &[vec![(0, 1), (1, 2), (2, 0), (0, 3), (3, 4)]])), [0, 1, 2]);
}

#[test]
fn schulze_without_defeats_keeps_everyone() {
    assert_eq!(sorted(&schulze_graph(3, &[])), [0, 1, 2]);
    assert!(schulze_graph(0, &[]).is_empty());
}

#[test]
fn schulze_breaks_a_circle_at_its_weakest_defeat() {
    // 0 beats 1 strongly, 1 beats 2, 2 beats 0 weakly.
    let groups = vec![vec![(0, 1)], vec![(1, 2)], vec![(2, 0)]];
    assert_eq!(schulze_graph(3, &groups), [0]);
}
