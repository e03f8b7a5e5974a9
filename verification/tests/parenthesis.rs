use rust_insight::parenthesis::solve;

#[test]
fn test_solve() {
    let ans = solve(vec!['(', ')', '(', ')', '(', ')', '(', ')', '(', ')']);
    assert_eq!(ans, true);
}

#[test]
fn solve_nested_and_concatenated() {
    assert!(solve(vec!['(', '(', ')', '(', ')', ')']));
    assert!(solve(vec![]));
}

#[test]
fn solve_rejects_early_close() {
    assert!(!solve(vec![')', '(']));
    assert!(!solve(vec!['(', ')', ')', '(']));
}

#[test]
fn solve_rejects_unclosed() {
    assert!(!solve(vec!['(', '(', ')']));
}

#[test]
fn solve_reads_other_characters_as_closing() {
    assert!(solve(vec!['(', 'x']));
    assert!(!solve(vec!['a']));
}

#[test]
fn balanced_sequences_concatenate_and_nest() {
    let x = vec!['(', ')'];
    let y = vec!['(', '(', ')', ')'];
    assert!(solve(x.clone()) && solve(y.clone()));
    let mut xy = x.clone();
    xy.extend(y.iter());
    assert!(solve(xy.clone()));
    let mut wrapped = vec!['('];
    wrapped.extend(xy.iter());
    wrapped.push(')');
    assert!(solve(wrapped));
}
