//! The arithmetic quiz: a problem with its answer and three wrong answers
//! to choose among.

use rand::rngs::ThreadRng;
use vstd::prelude::*;

use crate::expression::{
    decimal, generated_form, number_text, parse_postfix, postfix_text, postfix_value, Expr,
    Operator, PostfixExpression, Token, OPERAND_MAX, OPERAND_MIN,
};
use crate::random::{random_range_i32, random_ratio, shuffle_numbers};
use crate::reader::{lemma_postfix_round_trip, read_text};

verus! {

/// The largest answer, in absolute value, that a problem may have.
pub const ANSWER_LIMIT: i32 = 1000;

/// How many answers a problem offers, the right one among them.
pub const CHOICE_COUNT: usize = 4;

/// How often a problem, or a wrong answer, is drawn before the simple way
/// out is taken.
pub const MAX_ATTEMPTS: u32 = 100;

/// How many small offsets there are to pick from.
pub const OFFSET_COUNT: usize = 10;

/// The problem on show.
#[derive(Debug)]
pub struct MathProblem {
    /// The problem in infix form.
    pub display: String,
    /// The right answer.
    pub answer: i32,
    /// The answers on offer, the right one among them.
    pub choices: Vec<i32>,
    /// Where the right answer stands in `choices`.
    pub correct_index: usize,
    /// Whether the player has answered.
    pub answered: bool,
    /// The place of the answer that the player chose.
    pub player_choice: Option<usize>,
}

impl Default for MathProblem {
    fn default() -> (problem: Self)
        ensures
            problem.display@.len() == 0,
            problem.answer == 0,
            problem.choices@.len() == 0,
            problem.correct_index == 0,
            !problem.answered,
            problem.player_choice is None,
    {
        MathProblem {
            display: String::new(),
            answer: 0,
            choices: Vec::new(),
            correct_index: 0,
            answered: false,
            player_choice: None,
        }
    }
}

/// The small offsets by which most wrong answers miss the right one.
pub open spec fn small_offsets() -> Seq<i32> {
    seq![-10i32, -5i32, -3i32, -2i32, -1i32, 1i32, 2i32, 3i32, 5i32, 10i32]
}

/// How far from the right answer a wrong one may lie: as far as the answer
/// lies from zero, and no less than ten or the number of wrong answers.
pub open spec fn reach(correct: i32, count: usize) -> int {
    let magnitude = if correct < 0 {
        -correct
    } else {
        correct as int
    };
    if magnitude >= 10 && magnitude >= count {
        magnitude
    } else if count >= 10 {
        count as int
    } else {
        10
    }
}

/// Wrong answers fit to be offered beside `correct`: all different, none of
/// them right, and each within reach of the right one.
pub open spec fn plausible_distractors(distractors: Seq<i32>, correct: i32, count: usize) -> bool {
    &&& distractors.no_duplicates()
    &&& !distractors.contains(correct)
    &&& forall|k: int|
        0 <= k < distractors.len() ==> -reach(correct, count) <= (#[trigger] distractors[k])
            - correct <= reach(correct, count)
}

impl MathProblem {
    /// A problem as it is posed: four different answers on offer, the right
    /// one where `correct_index` says, and no answer given yet.
    pub open spec fn posed(self) -> bool {
        &&& self.choices@.len() == CHOICE_COUNT
        &&& self.choices@.no_duplicates()
        &&& self.correct_index < self.choices@.len()
        &&& self.choices@[self.correct_index as int] == self.answer
        &&& !self.answered
        &&& self.player_choice is None
    }

    /// The display shows, in infix form, an expression of one or two
    /// operations on numbers from 2 to 12, and the answer is its value.
    pub open spec fn consistent(self) -> bool {
        exists|tokens: Seq<Token>, operations: nat|
            1 <= operations <= 2 && #[trigger] generated_form(tokens, operations) && postfix_value(
                tokens,
            ) == Some(self.answer) && postfix_text(tokens) == Some(self.display@)
    }

    /// The display, read as an infix text under the usual rules, comes to
    /// the answer.
    pub open spec fn reads_to_answer(self) -> bool {
        read_text(self.display@) == Some(self.answer as int)
    }

    /// Whether the player chose the right answer.
    pub fn is_correct(&self) -> (correct: bool)
        ensures
            correct == (self.player_choice == Some(self.correct_index)),
    {
        match self.player_choice {
            Some(choice) => choice == self.correct_index,
            None => false,
        }
    }

    /// A fresh problem with the given text, answer and answers on offer; the
    /// right answer is looked up at its first place among them. There is no
    /// problem unless the right answer is on offer.
    pub fn with_choices(display: String, answer: i32, choices: Vec<i32>) -> (result: Option<
        MathProblem,
    >)
        ensures
            result is Some <==> choices@.contains(answer),
            result matches Some(problem) ==> {
                &&& problem.display == display
                &&& problem.answer == answer
                &&& problem.choices == choices
                &&& choices@.index_of_first(answer) == Some(problem.correct_index as int)
                &&& problem.correct_index < choices@.len()
                &&& problem.choices@[problem.correct_index as int] == answer
                &&& !problem.answered
                &&& problem.player_choice is None
            },
    {
        let mut i: usize = 0;
        while i < choices.len()
            invariant
                i <= choices.len(),
                forall|k: int| 0 <= k < i ==> choices@[k] != answer,
            decreases choices.len() - i,
        {
            if choices[i] == answer {
                proof {
                    choices@.index_of_first_ensures(answer);
                    assert(choices@.contains(answer));
                    let found = choices@.index_of_first(answer)->0;
                    if found < i {
                        assert(choices@[found] != answer);
                    }
                    if i < found {
                        assert(choices@[i as int] != answer);
                    }
                }
                return Some(
                    MathProblem {
                        display,
                        answer,
                        choices,
                        correct_index: i,
                        answered: false,
                        player_choice: None,
                    },
                );
            }
            i += 1;
        }
        None
    }
}

/// Records the player's choice. Only the first choice counts.
pub fn on_choice_click(problem: &mut MathProblem, choice: usize)
    ensures
        final(problem).display == old(problem).display,
        final(problem).answer == old(problem).answer,
        final(problem).choices == old(problem).choices,
        final(problem).correct_index == old(problem).correct_index,
        final(problem).answered,
        final(problem).player_choice == if old(problem).answered {
            old(problem).player_choice
        } else {
            Some(choice)
        },
{
    if !problem.answered {
        problem.answered = true;
        problem.player_choice = Some(choice);
    }
}

/// Whether `value` occurs in `numbers`.
fn contains_number(numbers: &Vec<i32>, value: i32) -> (found: bool)
    ensures
        found == numbers@.contains(value),
{
    let mut i: usize = 0;
    while i < numbers.len()
        invariant
            i <= numbers.len(),
            forall|k: int| 0 <= k < i ==> numbers@[k] != value,
        decreases numbers.len() - i,
    {
        if numbers[i] == value {
            return true;
        }
        i += 1;
    }
    false
}

/// The small offset at place `pick`.
pub fn small_offset(pick: usize) -> (offset: i32)
    requires
        pick < OFFSET_COUNT,
    ensures
        offset == small_offsets()[pick as int],
        -10 <= offset <= 10,
        offset != 0,
{
    let offsets: [i32; 10] = [-10, -5, -3, -2, -1, 1, 2, 3, 5, 10];
    offsets[pick]
}

/// Takes `candidate` among the wrong answers unless it is the right answer
/// or is there already. Says whether it was taken.
pub fn add_distractor(distractors: &mut Vec<i32>, correct: i32, candidate: i32) -> (taken: bool)
    ensures
        taken == (candidate != correct && !old(distractors)@.contains(candidate)),
        final(distractors)@ == if taken {
            old(distractors)@.push(candidate)
        } else {
            old(distractors)@
        },
        old(distractors)@.no_duplicates() ==> final(distractors)@.no_duplicates(),
        !old(distractors)@.contains(correct) ==> !final(distractors)@.contains(correct),
{
    if candidate != correct && !contains_number(distractors, candidate) {
        distractors.push(candidate);
        proof {
            let after = distractors@;
            let before = old(distractors)@;
            if before.no_duplicates() {
                assert forall|i: int, j: int|
                    0 <= i < after.len() && 0 <= j < after.len() && i != j implies after[i]
                    != after[j] by {
                    if i < before.len() && j < before.len() {
                        assert(before[i] != before[j]);
                    } else if i < before.len() {
                        assert(before.contains(before[i]));
                    } else {
                        assert(before.contains(before[j]));
                    }
                }
            }
            if !before.contains(correct) {
                assert forall|i: int| 0 <= i < after.len() implies after[i] != correct by {
                    if i < before.len() {
                        assert(before.contains(before[i]));
                    }
                }
            }
        }
        true
    } else {
        false
    }
}

/// `value` is one of `numbers`.
pub open spec fn holds_value(numbers: Seq<i32>, value: int) -> bool {
    exists|i: int| 0 <= i < numbers.len() && #[trigger] numbers[i] == value
}

/// A list without repeats that holds each whole number above `base` up to
/// `base + run` is at least `run` long.
proof fn lemma_run_fits(numbers: Seq<i32>, base: int, run: nat)
    requires
        numbers.no_duplicates(),
        forall|value: int| base < value <= base + run ==> #[trigger] holds_value(numbers, value),
    ensures
        numbers.len() >= run,
    decreases run,
{
    if run > 0 {
        assert(holds_value(numbers, base + run));
        let at = choose|i: int| 0 <= i < numbers.len() && #[trigger] numbers[i] == base + run;
        let rest = numbers.remove(at);
        assert forall|value: int| base < value <= base + run - 1 implies #[trigger] holds_value(
            rest,
            value,
        ) by {
            assert(holds_value(numbers, value));
            let i = choose|i: int| 0 <= i < numbers.len() && #[trigger] numbers[i] == value;
            if i < at {
                assert(rest[i] == numbers[i]);
            } else {
                assert(rest[i - 1] == numbers[i]);
            }
        }
        assert(rest.no_duplicates()) by {
            assert forall|i: int, j: int|
                0 <= i < rest.len() && 0 <= j < rest.len() && i != j implies rest[i]
                != rest[j] by {
                let from_i = if i < at {
                    i
                } else {
                    i + 1
                };
                let from_j = if j < at {
                    j
                } else {
                    j + 1
                };
                assert(numbers[from_i] != numbers[from_j]);
            }
        }
        lemma_run_fits(rest, base, (run - 1) as nat);
    }
}

/// Fills the wrong answers up to `count` with the nearest numbers above and
/// below the right answer that are not among them yet.
pub fn fill_distractors(distractors: &mut Vec<i32>, correct: i32, count: usize)
    requires
        -0x4000_0000 < correct < 0x4000_0000,
        count < 0x4000_0000,
        old(distractors)@.len() <= count,
        plausible_distractors(old(distractors)@, correct, count),
    ensures
        final(distractors)@.len() == count,
        plausible_distractors(final(distractors)@, correct, count),
        final(distractors)@.take(old(distractors)@.len() as int) == old(distractors)@,
{
    let ghost start = distractors@;
    let mut offset: i32 = 1;
    assert(distractors@.take(start.len() as int) =~= start);
    while distractors.len() < count
        invariant
            -0x4000_0000 < correct < 0x4000_0000,
            count < 0x4000_0000,
            1 <= offset <= distractors@.len() + 1,
            start.len() <= distractors@.len() <= count,
            plausible_distractors(distractors@, correct, count),
            distractors@.take(start.len() as int) == start,
            forall|value: int|
                correct < value < correct + offset ==> #[trigger] holds_value(
                    distractors@,
                    value,
                ),
        decreases 2 * count + 1 - distractors@.len() - offset,
    {
        let ghost before = distractors@;
        let above = correct + offset;
        let below = correct - offset;
        if add_distractor(distractors, correct, above) {
            assert(distractors@[before.len() as int] == correct + offset);
        } else {
            add_distractor(distractors, correct, below);
            proof {
                assert(before.contains(above));
                let at = choose|i: int| 0 <= i < before.len() && before[i] == above;
                assert(distractors@[at] == correct + offset);
            }
        }
        proof {
            assert forall|value: int|
                correct < value < correct + offset + 1 implies #[trigger] holds_value(
                distractors@,
                value,
            ) by {
                if value < correct + offset {
                    assert(holds_value(before, value));
                    let i = choose|i: int| 0 <= i < before.len() && #[trigger] before[i] == value;
                    assert(distractors@[i] == value);
                }
            }
            lemma_run_fits(distractors@, correct as int, offset as nat);
            assert(distractors@.take(start.len() as int) =~= start) by {
                assert(before.take(start.len() as int) == start);
                assert forall|i: int| 0 <= i < start.len() implies distractors@[i] == start[i] by {
                    assert(before.take(start.len() as int)[i] == before[i]);
                }
            }
            assert forall|k: int| 0 <= k < distractors@.len() implies -reach(correct, count) <= (
            #[trigger] distractors@[k]) - correct <= reach(correct, count) by {
                if k < before.len() {
                    assert(before[k] == distractors@[k]);
                }
            }
        }
        offset += 1;
    }
}

/// `count` wrong answers to go with `correct`, all different and none of
/// them right. Most miss the right answer by a small offset; the others are
/// drawn from around it.
pub fn generate_distractors(rng: &mut ThreadRng, correct: i32, count: usize) -> (distractors: Vec<
    i32,
>)
    requires
        -0x4000_0000 < correct < 0x4000_0000,
        count < 0x4000_0000,
    ensures
        distractors@.len() == count,
        plausible_distractors(distractors@, correct, count),
{
    let mut distractors: Vec<i32> = Vec::new();
    let mut attempts: u32 = 0;
    while distractors.len() < count && attempts < MAX_ATTEMPTS
        invariant
            -0x4000_0000 < correct < 0x4000_0000,
            count < 0x4000_0000,
            attempts <= MAX_ATTEMPTS,
            distractors@.len() <= count,
            plausible_distractors(distractors@, correct, count),
        decreases MAX_ATTEMPTS - attempts,
    {
        attempts += 1;
        let distractor = if random_ratio(rng, 7, 10) {
            let pick = random_range_i32(rng, 0, OFFSET_COUNT as i32);
            correct + small_offset(pick as usize)
        } else {
            let magnitude = if correct < 0 {
                -correct
            } else {
                correct
            };
            let range = if magnitude < 10 {
                10
            } else {
                magnitude
            };
            random_range_i32(rng, correct - range, correct + range + 1)
        };
        let ghost before = distractors@;
        add_distractor(&mut distractors, correct, distractor);
        assert forall|k: int| 0 <= k < distractors@.len() implies -reach(correct, count) <= (
        #[trigger] distractors@[k]) - correct <= reach(correct, count) by {
            if k < before.len() {
                assert(before[k] == distractors@[k]);
            }
        }
    }
    fill_distractors(&mut distractors, correct, count);
    distractors
}

/// The same numbers in another order are as many, as different from each
/// other, and hold the same values.
pub proof fn lemma_rearranged(before: Seq<i32>, after: Seq<i32>)
    requires
        before.to_multiset() == after.to_multiset(),
    ensures
        before.len() == after.len(),
        before.no_duplicates() ==> after.no_duplicates(),
        forall|value: i32| before.contains(value) <==> after.contains(value),
{
    before.to_multiset_ensures();
    after.to_multiset_ensures();
    if before.no_duplicates() {
        before.lemma_multiset_has_no_duplicates();
        after.lemma_multiset_has_no_duplicates_conv();
    }
    assert forall|value: i32| before.contains(value) <==> after.contains(value) by {
        vstd::seq_lib::to_multiset_contains(before, value);
        vstd::seq_lib::to_multiset_contains(after, value);
    }
}

/// Poses the problem with the given text and answer: three wrong answers are
/// drawn, the right one is put beside them, and the four are shuffled.
pub fn pose_problem(rng: &mut ThreadRng, display: String, answer: i32) -> (problem: MathProblem)
    requires
        -0x4000_0000 < answer < 0x4000_0000,
    ensures
        problem.posed(),
        problem.display == display,
        problem.answer == answer,
        forall|k: int|
            0 <= k < problem.choices@.len() ==> -reach(answer, 3) <= (
            #[trigger] problem.choices@[k]) - answer <= reach(answer, 3),
{
    let mut choices = generate_distractors(rng, answer, CHOICE_COUNT - 1);
    let ghost wrong = choices@;
    choices.push(answer);
    let ghost ordered = choices@;
    assert(ordered.no_duplicates()) by {
        assert forall|i: int, j: int|
            0 <= i < ordered.len() && 0 <= j < ordered.len() && i != j implies ordered[i]
            != ordered[j] by {
            if i < wrong.len() && j < wrong.len() {
                assert(wrong[i] != wrong[j]);
            } else if i < wrong.len() {
                assert(wrong.contains(wrong[i]));
            } else {
                assert(wrong.contains(wrong[j]));
            }
        }
    }
    assert(ordered[3] == answer);
    assert(ordered.contains(answer));
    shuffle_numbers(rng, &mut choices);
    proof {
        lemma_rearranged(ordered, choices@);
        assert forall|k: int| 0 <= k < choices@.len() implies -reach(answer, 3) <= (
        #[trigger] choices@[k]) - answer <= reach(answer, 3) by {
            assert(choices@.contains(choices@[k]));
            assert(ordered.contains(choices@[k]));
            let at = choose|at: int| 0 <= at < ordered.len() && ordered[at] == choices@[k];
            if at < 3 {
                assert(wrong[at] == ordered[at]);
            }
        }
    }
    MathProblem::with_choices(display, answer, choices).unwrap()
}

/// Sets a new problem: an expression of one or two operations on numbers
/// from 2 to 12 whose value is a whole number of at most 1000 in absolute
/// value, shown in infix form, with four answers to choose among. Should no
/// such expression turn up in a hundred draws, the problem is a sum of two
/// such numbers.
pub fn generate_new_problem(problem: &mut MathProblem)
    ensures
        final(problem).posed(),
        final(problem).consistent(),
        final(problem).reads_to_answer(),
        -ANSWER_LIMIT <= final(problem).answer <= ANSWER_LIMIT,
{
    let mut rng = rand::rng();
    let mut attempt: u32 = 0;
    while attempt < MAX_ATTEMPTS
        invariant
            attempt <= MAX_ATTEMPTS,
        decreases MAX_ATTEMPTS - attempt,
    {
        attempt += 1;
        let num_ops = random_range_i32(&mut rng, 1, 3) as usize;
        if let Some(expression) = PostfixExpression::generate(&mut rng, num_ops) {
            if let Some(answer) = expression.evaluate() {
                if let Some(display) = expression.to_infix() {
                    if -ANSWER_LIMIT <= answer && answer <= ANSWER_LIMIT {
                        *problem = pose_problem(&mut rng, display, answer);
                        proof {
                            assert(generated_form(expression.tokens@, num_ops as nat));
                            lemma_postfix_round_trip(expression.tokens@);
                        }
                        return ;
                    }
                }
            }
        }
    }
    let a = random_range_i32(&mut rng, OPERAND_MIN, OPERAND_MAX + 1);
    let b = random_range_i32(&mut rng, OPERAND_MIN, OPERAND_MAX + 1);
    let answer = a + b;
    proof {
        reveal_strlit(" + ");
    }
    let mut display = number_text(a);
    display.append(" + ");
    display.append(number_text(b).as_str());
    let ghost sum = Expr::Binary(
        Operator::Add,
        Box::new(Expr::Number(a)),
        Box::new(Expr::Number(b)),
    );
    let ghost tokens = seq![Token::Number(a), Token::Number(b), Token::Op(Operator::Add)];
    proof {
        let one = seq![Token::Number(a)];
        let two = seq![Token::Number(a), Token::Number(b)];
        assert(one.drop_last() =~= Seq::<Token>::empty());
        assert(parse_postfix(Seq::<Token>::empty()) == Some(Seq::<Expr>::empty()));
        assert(Seq::<Expr>::empty().push(Expr::Number(a)) =~= seq![Expr::Number(a)]);
        assert(parse_postfix(one) == Some(seq![Expr::Number(a)]));
        assert(two.drop_last() =~= one);
        assert(seq![Expr::Number(a)].push(Expr::Number(b)) =~= seq![
            Expr::Number(a),
            Expr::Number(b),
        ]);
        assert(parse_postfix(two) == Some(seq![Expr::Number(a), Expr::Number(b)]));
        assert(tokens.drop_last() =~= two);
        assert(seq![Expr::Number(a), Expr::Number(b)].take(0).push(sum) =~= seq![sum]);
        assert(parse_postfix(tokens) == Some(seq![sum]));
        assert(Expr::Number(a).value() == Some(a));
        assert(Expr::Number(b).value() == Some(b));
        assert(sum.value() == Some(answer));
        assert(" + "@ =~= seq![' ', '+', ' ']);
        assert(Expr::Number(a).infix() == decimal(a as int));
        assert(Expr::Number(b).infix() == decimal(b as int));
        assert(display@ =~= sum.infix());
        assert(generated_form(tokens, 1));
        lemma_postfix_round_trip(tokens);
    }
    *problem = pose_problem(&mut rng, display, answer);
}

} // verus!
