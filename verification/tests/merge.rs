use rust_insight::merge::{solve1, solve2};

#[test]
fn test_solve1() {
    let ans = solve1(vec![1, 2, 4, 5, 8], vec![2, 3, 4, 5, 6, 7]);
    assert_eq!(ans, vec![1, 2, 2, 3, 4, 4, 5, 5, 6, 7, 8]);
}

#[test]
fn test_solve2() {
    let ans = solve2(vec![1, 2, 4, 5, 8], vec![2, 3, 4, 5, 6, 7]);
    assert_eq!(ans, vec![1, 2, 2, 3, 4, 4, 5, 5, 6, 7, 8]);
}

#[test]
fn solve1_sorts_unsorted_input() {
    assert_eq!(solve1(vec![5, -1, 3], vec![0, 9, -7]), vec![-7, -1, 0, 3, 5, 9]);
}

#[test]
fn solve2_merges_unsorted_input_front_by_front() {
    // The merge compares fronts only: 5 > 0, so 0 goes first, and so on.
    assert_eq!(solve2(vec![5, -1, 3], vec![0, 9, -7]), vec![0, 5, -1, 3, 9, -7]);
}

#[test]
fn solve_empty_inputs() {
    assert_eq!(solve1(vec![], vec![]), Vec::<i32>::new());
    assert_eq!(solve2(vec![], vec![]), Vec::<i32>::new());
    assert_eq!(solve2(vec![], vec![1, 2]), vec![1, 2]);
    assert_eq!(solve2(vec![3], vec![]), vec![3]);
}

#[test]
fn solutions_agree_on_sorted_inputs() {
    let a = vec![-3, -3, 0, 7, 100];
    let b = vec![-5, 0, 0, 8];
    assert_eq!(solve1(a.clone(), b.clone()), solve2(a, b));
}

#[test]
fn solve_extreme_values() {
    let a = vec![i32::MIN, 0, i32::MAX];
    let b = vec![i32::MIN, i32::MAX];
    let expected = vec![i32::MIN, i32::MIN, 0, i32::MAX, i32::MAX];
    assert_eq!(solve1(a.clone(), b.clone()), expected);
    assert_eq!(solve2(a, b), expected);
}
