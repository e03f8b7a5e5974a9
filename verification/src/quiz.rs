//! An arithmetic quiz: random addition and subtraction problems until
//! three answers are right.

use vstd::prelude::*;
use rand::Rng;

verus! {

/// Whether a problem asks for a sum or a difference.
#[derive(Clone, Copy, Debug, PartialEq, Eq)]
pub enum QuizMode {
    Addition,
    Subtraction,
}

/// A problem: two operands from 0 to 99 and what to do with them.
#[derive(Clone, Copy, Debug, PartialEq, Eq)]
pub struct Problem {
    pub mode: QuizMode,
    pub op1: i32,
    pub op2: i32,
}

/// The right answer to a problem.
pub open spec fn answer_of(p: Problem) -> int {
    match p.mode {
        QuizMode::Addition => p.op1 + p.op2,
        QuizMode::Subtraction => p.op1 - p.op2,
    }
}

/// Operands of a problem lie in 0 to 99.
pub open spec fn operands_in_range(p: Problem) -> bool {
    0 <= p.op1 < 100 && 0 <= p.op2 < 100
}

/// How many right answers clear the quiz.
pub const ANSWERS_TO_CLEAR: u32 = 3;

/// Draws an integer from `low` to `high`, both included, with
/// `rand::Rng::random_range` on the thread's generator. Trusted: the
/// result lies in that range; which value comes is left open.
#[verifier::external_body]
fn random_inclusive(low: i32, high: i32) -> (n: i32)
    requires
        low <= high,
    ensures
        low <= n <= high,
{
    rand::rng().random_range(low..=high)
}

/// The mode that a die roll of 1 or 2 selects.
pub fn mode_of_roll(roll: i32) -> (mode: QuizMode)
    requires
        1 <= roll <= 2,
    ensures
        mode == (if roll == 1 {
            QuizMode::Addition
        } else {
            QuizMode::Subtraction
        }),
{
    if roll == 1 {
        QuizMode::Addition
    } else {
        QuizMode::Subtraction
    }
}

/// Picks addition or subtraction at random.
pub fn draw_mode() -> (mode: QuizMode) {
    mode_of_roll(random_inclusive(1, 2))
}

/// Draws a problem of the given mode with random operands from 0 to 99.
pub fn draw_problem(mode: QuizMode) -> (p: Problem)
    ensures
        p.mode == mode,
        operands_in_range(p),
{
    let op1 = random_inclusive(0, 99);
    let op2 = random_inclusive(0, 99);
    Problem { mode, op1, op2 }
}

impl Problem {
    /// The right answer.
    pub fn answer(&self) -> (n: i32)
        requires
            operands_in_range(*self),
        ensures
            n == answer_of(*self),
    {
        match self.mode {
            QuizMode::Addition => self.op1 + self.op2,
            QuizMode::Subtraction => self.op1 - self.op2,
        }
    }
}

/// The progress of a quiz: how many answers were right so far.
#[derive(Clone, Copy, Debug, PartialEq, Eq)]
pub struct Quiz {
    pub num_correct: u32,
}

impl Quiz {
    /// A quiz with no right answers yet.
    pub fn new() -> (q: Quiz)
        ensures
            q.num_correct == 0,
    {
        Quiz { num_correct: 0 }
    }

    /// The quiz is cleared once three answers were right.
    pub fn is_cleared(&self) -> (cleared: bool)
        ensures
            cleared == (self.num_correct >= ANSWERS_TO_CLEAR),
    {
        self.num_correct >= ANSWERS_TO_CLEAR
    }

    /// Checks an answer to `problem`; a right answer counts towards
    /// clearing. Returns whether it was right.
    pub fn submit(&mut self, problem: &Problem, answer: i32) -> (right: bool)
        requires
            operands_in_range(*problem),
            old(self).num_correct < u32::MAX,
        ensures
            right == (answer == answer_of(*problem)),
            final(self).num_correct == old(self).num_correct + if right {
                1int
            } else {
                0int
            },
    {
        if answer == problem.answer() {
            self.num_correct = self.num_correct + 1;
            true
        } else {
            false
        }
    }
}

} // verus!
