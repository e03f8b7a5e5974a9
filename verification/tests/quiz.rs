use rust_insight::quiz::{draw_mode, draw_problem, mode_of_roll, Problem, Quiz, QuizMode};

#[test]
fn answers() {
    assert_eq!(Problem { mode: QuizMode::Addition, op1: 30, op2: 45 }.answer(), 75);
    assert_eq!(Problem { mode: QuizMode::Subtraction, op1: 20, op2: 50 }.answer(), -30);
}

#[test]
fn roll_selects_mode() {
    assert_eq!(mode_of_roll(1), QuizMode::Addition);
    assert_eq!(mode_of_roll(2), QuizMode::Subtraction);
}

#[test]
fn drawn_problems_stay_in_range() {
    for _ in 0..200 {
        let mode = draw_mode();
        let p = draw_problem(mode);
        assert_eq!(p.mode, mode);
        assert!((0..100).contains(&p.op1) && (0..100).contains(&p.op2));
    }
}

#[test]
fn three_right_answers_clear() {
    let mut quiz = Quiz::new();
    let p = Problem { mode: QuizMode::Addition, op1: 1, op2: 2 };
    assert!(!quiz.submit(&p, 4));
    assert_eq!(quiz.num_correct, 0);
    for _ in 0..3 {
        assert!(!quiz.is_cleared());
        assert!(quiz.submit(&p, 3));
    }
    assert!(quiz.is_cleared());
}
