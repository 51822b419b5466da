use mu_torere::expression::{number_text, Operator, PostfixExpression, Token};
use mu_torere::problem::{
    add_distractor, fill_distractors, generate_distractors, generate_new_problem, on_choice_click,
    pose_problem, small_offset, MathProblem, ANSWER_LIMIT, CHOICE_COUNT,
};

fn all_different(numbers: &[i32]) -> bool {
    let mut sorted = numbers.to_vec();
    sorted.sort();
    sorted.dedup();
    sorted.len() == numbers.len()
}

fn problem_with(answered: bool, player_choice: Option<usize>) -> MathProblem {
    MathProblem {
        display: "3 + 4".to_string(),
        answer: 7,
        choices: vec![5, 7, 8, 17],
        correct_index: 1,
        answered,
        player_choice,
    }
}

#[test]
fn default_problem_is_blank() {
    let problem = MathProblem::default();
    assert_eq!(problem.display, "");
    assert_eq!(problem.answer, 0);
    assert!(problem.choices.is_empty());
    assert_eq!(problem.correct_index, 0);
    assert!(!problem.answered);
    assert_eq!(problem.player_choice, None);
}

#[test]
fn is_correct_compares_the_choice_with_the_correct_index() {
    assert!(!problem_with(false, None).is_correct());
    assert!(problem_with(true, Some(1)).is_correct());
    assert!(!problem_with(true, Some(0)).is_correct());
    assert!(!problem_with(true, Some(3)).is_correct());
}

#[test]
fn only_the_first_choice_counts() {
    let mut problem = problem_with(false, None);
    on_choice_click(&mut problem, 2);
    assert!(problem.answered);
    assert_eq!(problem.player_choice, Some(2));
    on_choice_click(&mut problem, 1);
    assert!(problem.answered);
    assert_eq!(problem.player_choice, Some(2));
    assert_eq!(problem.choices, vec![5, 7, 8, 17]);
    assert_eq!(problem.answer, 7);
    assert_eq!(problem.display, "3 + 4");
}

#[test]
fn with_choices_finds_the_first_place_of_the_answer() {
    let problem = MathProblem::with_choices("9".to_string(), 9, vec![4, 9, 10, 9]).unwrap();
    assert_eq!(problem.correct_index, 1);
    assert_eq!(problem.answer, 9);
    assert_eq!(problem.display, "9");
    assert_eq!(problem.choices, vec![4, 9, 10, 9]);
    assert!(!problem.answered);
    assert_eq!(problem.player_choice, None);
    assert!(MathProblem::with_choices("9".to_string(), 9, vec![4, 8, 10]).is_none());
    assert!(MathProblem::with_choices("9".to_string(), 9, Vec::new()).is_none());
}

#[test]
fn small_offsets_are_the_ten_listed() {
    let offsets: Vec<i32> = (0..10).map(small_offset).collect();
    assert_eq!(offsets, vec![-10, -5, -3, -2, -1, 1, 2, 3, 5, 10]);
}

#[test]
fn add_distractor_skips_the_answer_and_repeats() {
    let mut distractors = vec![4, 6];
    assert!(!add_distractor(&mut distractors, 5, 5));
    assert_eq!(distractors, vec![4, 6]);
    assert!(!add_distractor(&mut distractors, 5, 6));
    assert_eq!(distractors, vec![4, 6]);
    assert!(add_distractor(&mut distractors, 5, 9));
    assert_eq!(distractors, vec![4, 6, 9]);
}

#[test]
fn fill_takes_the_nearest_free_numbers() {
    let mut distractors = Vec::new();
    fill_distractors(&mut distractors, 10, 3);
    assert_eq!(distractors, vec![11, 12, 13]);

    let mut distractors = vec![11];
    fill_distractors(&mut distractors, 10, 3);
    assert_eq!(distractors, vec![11, 9, 12]);

    let mut distractors = vec![11, 9];
    fill_distractors(&mut distractors, 10, 3);
    assert_eq!(distractors, vec![11, 9, 12]);

    let mut distractors = vec![11, 9, 12];
    fill_distractors(&mut distractors, 10, 3);
    assert_eq!(distractors, vec![11, 9, 12]);

    let mut distractors = vec![12, 8];
    fill_distractors(&mut distractors, 10, 5);
    assert_eq!(distractors, vec![12, 8, 11, 13, 14]);
}

#[test]
fn distractors_are_distinct_wrong_and_within_reach() {
    let mut rng = rand::rng();
    for correct in [-1000, -37, -1, 0, 1, 4, 24, 144, 1000] {
        for _ in 0..50 {
            let distractors = generate_distractors(&mut rng, correct, 3);
            assert_eq!(distractors.len(), 3);
            assert!(all_different(&distractors));
            assert!(!distractors.contains(&correct));
            let reach = correct.abs().max(10);
            for d in &distractors {
                assert!((d - correct).abs() <= reach);
            }
        }
    }
}

#[test]
fn distractors_come_in_any_number() {
    let mut rng = rand::rng();
    assert!(generate_distractors(&mut rng, 5, 0).is_empty());
    let one = generate_distractors(&mut rng, 5, 1);
    assert_eq!(one.len(), 1);
    assert_ne!(one[0], 5);
    let many = generate_distractors(&mut rng, 5, 300);
    assert_eq!(many.len(), 300);
    assert!(all_different(&many));
    assert!(!many.contains(&5));
    for d in &many {
        assert!((d - 5).abs() <= 300);
    }
}

#[test]
fn posed_problem_offers_the_answer_among_four() {
    let mut rng = rand::rng();
    for answer in [-20, 0, 7, 144] {
        for _ in 0..50 {
            let problem = pose_problem(&mut rng, number_text(answer), answer);
            assert_eq!(problem.choices.len(), CHOICE_COUNT);
            assert!(all_different(&problem.choices));
            assert_eq!(problem.choices[problem.correct_index], answer);
            assert_eq!(problem.answer, answer);
            assert_eq!(problem.display, answer.to_string());
            assert!(!problem.answered);
            assert_eq!(problem.player_choice, None);
        }
    }
}

#[test]
fn posed_answer_lands_on_every_place() {
    let mut rng = rand::rng();
    let mut seen = [false; 4];
    for _ in 0..400 {
        let problem = pose_problem(&mut rng, "7".to_string(), 7);
        seen[problem.correct_index] = true;
    }
    assert_eq!(seen, [true; 4]);
}

#[test]
fn new_problems_are_well_posed() {
    let mut problem = MathProblem::default();
    for _ in 0..300 {
        on_choice_click(&mut problem, 0);
        generate_new_problem(&mut problem);
        assert_eq!(problem.choices.len(), 4);
        assert!(all_different(&problem.choices));
        assert!(problem.correct_index < 4);
        assert_eq!(problem.choices[problem.correct_index], problem.answer);
        assert!(-ANSWER_LIMIT <= problem.answer && problem.answer <= ANSWER_LIMIT);
        assert!(!problem.answered);
        assert_eq!(problem.player_choice, None);
        assert!(!problem.display.is_empty());
    }
}

#[test]
fn new_problem_display_has_one_or_two_operations_on_small_numbers() {
    let mut problem = MathProblem::default();
    for _ in 0..300 {
        generate_new_problem(&mut problem);
        let mut operations = 0;
        for word in problem.display.replace('(', " ").replace(')', " ").split_whitespace() {
            match word {
                "+" | "\u{2212}" | "\u{00D7}" | "\u{00F7}" => operations += 1,
                number => {
                    let n: i32 = number.parse().unwrap();
                    assert!(2 <= n && n <= 12);
                }
            }
        }
        assert!(operations == 1 || operations == 2);
    }
}

#[test]
fn answer_limit_is_one_thousand() {
    assert_eq!(ANSWER_LIMIT, 1000);
    // 12 x 12 x 12 is beyond the limit, so such a draw is never posed.
    let big = PostfixExpression {
        tokens: vec![
            Token::Number(12),
            Token::Number(12),
            Token::Op(Operator::Multiply),
            Token::Number(12),
            Token::Op(Operator::Multiply),
        ],
    };
    assert_eq!(big.evaluate(), Some(1728));
}
