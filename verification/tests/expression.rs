use mu_torere::expression::{
    number_text, Operator, PostfixExpression, Token, NUMBER_PRECEDENCE, OPERAND_MAX, OPERAND_MIN,
};

fn num(n: i32) -> Token {
    Token::Number(n)
}

fn op(operator: Operator) -> Token {
    Token::Op(operator)
}

fn postfix(tokens: Vec<Token>) -> PostfixExpression {
    PostfixExpression { tokens }
}

/// Reads an infix text of numbers, the four signs and round brackets under
/// the usual rules: products and quotients before sums and differences,
/// equal ranks from the left.
struct Reader {
    words: Vec<String>,
    at: usize,
}

impl Reader {
    fn new(text: &str) -> Reader {
        let spaced = text.replace('(', " ( ").replace(')', " ) ");
        Reader { words: spaced.split_whitespace().map(|w| w.to_string()).collect(), at: 0 }
    }

    fn peek(&self) -> Option<&str> {
        self.words.get(self.at).map(|w| w.as_str())
    }

    fn sum(&mut self) -> i64 {
        let mut value = self.product();
        loop {
            match self.peek() {
                Some("+") => {
                    self.at += 1;
                    value += self.product();
                }
                Some("\u{2212}") => {
                    self.at += 1;
                    value -= self.product();
                }
                _ => return value,
            }
        }
    }

    fn product(&mut self) -> i64 {
        let mut value = self.atom();
        loop {
            match self.peek() {
                Some("\u{00D7}") => {
                    self.at += 1;
                    value *= self.atom();
                }
                Some("\u{00F7}") => {
                    self.at += 1;
                    let divisor = self.atom();
                    assert_eq!(value % divisor, 0);
                    value /= divisor;
                }
                _ => return value,
            }
        }
    }

    fn atom(&mut self) -> i64 {
        let word = self.words[self.at].clone();
        self.at += 1;
        if word == "(" {
            let value = self.sum();
            assert_eq!(self.words[self.at], ")");
            self.at += 1;
            value
        } else {
            word.parse().unwrap()
        }
    }
}

fn read_infix(text: &str) -> i64 {
    let mut reader = Reader::new(text);
    let value = reader.sum();
    assert_eq!(reader.at, reader.words.len());
    value
}

#[test]
fn symbols_are_the_typographic_signs() {
    assert_eq!(Operator::Add.symbol(), "+");
    assert_eq!(Operator::Subtract.symbol(), "\u{2212}");
    assert_eq!(Operator::Multiply.symbol(), "\u{00D7}");
    assert_eq!(Operator::Divide.symbol(), "\u{00F7}");
}

#[test]
fn products_bind_tighter_than_sums() {
    assert_eq!(Operator::Add.precedence(), 1);
    assert_eq!(Operator::Subtract.precedence(), 1);
    assert_eq!(Operator::Multiply.precedence(), 2);
    assert_eq!(Operator::Divide.precedence(), 2);
    assert_eq!(NUMBER_PRECEDENCE, u8::MAX);
}

#[test]
fn apply_computes_exact_results() {
    assert_eq!(Operator::Add.apply(7, 5), Some(12));
    assert_eq!(Operator::Subtract.apply(7, 12), Some(-5));
    assert_eq!(Operator::Multiply.apply(-7, 12), Some(-84));
    assert_eq!(Operator::Divide.apply(12, 4), Some(3));
    assert_eq!(Operator::Divide.apply(-12, 4), Some(-3));
    assert_eq!(Operator::Divide.apply(12, -4), Some(-3));
    assert_eq!(Operator::Divide.apply(-12, -4), Some(3));
    assert_eq!(Operator::Divide.apply(0, 5), Some(0));
}

#[test]
fn apply_refuses_inexact_division_and_division_by_zero() {
    assert_eq!(Operator::Divide.apply(7, 2), None);
    assert_eq!(Operator::Divide.apply(-7, 2), None);
    assert_eq!(Operator::Divide.apply(7, -2), None);
    assert_eq!(Operator::Divide.apply(1, 12), None);
    assert_eq!(Operator::Divide.apply(7, 0), None);
    assert_eq!(Operator::Divide.apply(0, 0), None);
}

#[test]
fn apply_refuses_results_that_do_not_fit() {
    assert_eq!(Operator::Add.apply(i32::MAX, 1), None);
    assert_eq!(Operator::Add.apply(i32::MAX, 0), Some(i32::MAX));
    assert_eq!(Operator::Subtract.apply(i32::MIN, 1), None);
    assert_eq!(Operator::Multiply.apply(65536, 32768), None);
    assert_eq!(Operator::Multiply.apply(65536, -32768), Some(i32::MIN));
    assert_eq!(Operator::Divide.apply(i32::MIN, -1), None);
    assert_eq!(Operator::Divide.apply(i32::MIN, 1), Some(i32::MIN));
}

#[test]
fn rolls_map_to_operators() {
    assert_eq!(Operator::for_roll(0, false), Operator::Add);
    assert_eq!(Operator::for_roll(1, false), Operator::Subtract);
    assert_eq!(Operator::for_roll(2, false), Operator::Multiply);
    assert_eq!(Operator::for_roll(3, false), Operator::Divide);
    assert_eq!(Operator::for_roll(0, true), Operator::Add);
    assert_eq!(Operator::for_roll(1, true), Operator::Subtract);
    assert_eq!(Operator::for_roll(2, true), Operator::Multiply);
    assert_eq!(Operator::for_roll(3, true), Operator::Add);
}

#[test]
fn evaluate_runs_the_stack() {
    assert_eq!(postfix(vec![num(5)]).evaluate(), Some(5));
    assert_eq!(postfix(vec![num(3), num(4), op(Operator::Add)]).evaluate(), Some(7));
    assert_eq!(postfix(vec![num(3), num(4), op(Operator::Subtract)]).evaluate(), Some(-1));
    assert_eq!(
        postfix(vec![num(3), num(4), op(Operator::Add), num(5), op(Operator::Multiply)]).evaluate(),
        Some(35)
    );
    assert_eq!(
        postfix(vec![num(3), num(4), num(5), op(Operator::Multiply), op(Operator::Add)]).evaluate(),
        Some(23)
    );
    assert_eq!(
        postfix(vec![num(12), num(4), op(Operator::Divide), num(2), op(Operator::Subtract)])
            .evaluate(),
        Some(1)
    );
}

#[test]
fn evaluate_refuses_malformed_expressions() {
    assert_eq!(postfix(vec![]).evaluate(), None);
    assert_eq!(postfix(vec![num(1), num(2)]).evaluate(), None);
    assert_eq!(postfix(vec![op(Operator::Add)]).evaluate(), None);
    assert_eq!(postfix(vec![num(1), op(Operator::Add)]).evaluate(), None);
    assert_eq!(postfix(vec![num(1), op(Operator::Add), num(2)]).evaluate(), None);
    assert_eq!(postfix(vec![num(1), num(2), op(Operator::Add), op(Operator::Add)]).evaluate(), None);
}

#[test]
fn evaluate_refuses_failed_operations() {
    assert_eq!(postfix(vec![num(7), num(2), op(Operator::Divide)]).evaluate(), None);
    assert_eq!(postfix(vec![num(7), num(0), op(Operator::Divide)]).evaluate(), None);
    assert_eq!(
        postfix(vec![num(7), num(2), op(Operator::Divide), num(2), op(Operator::Multiply)])
            .evaluate(),
        None
    );
    assert_eq!(
        postfix(vec![num(i32::MAX), num(1), op(Operator::Add), num(1), op(Operator::Subtract)])
            .evaluate(),
        None
    );
}

#[test]
fn number_text_is_decimal() {
    assert_eq!(number_text(0), "0");
    assert_eq!(number_text(7), "7");
    assert_eq!(number_text(10), "10");
    assert_eq!(number_text(12), "12");
    assert_eq!(number_text(1000), "1000");
    assert_eq!(number_text(-1), "-1");
    assert_eq!(number_text(-305), "-305");
    assert_eq!(number_text(i32::MAX), "2147483647");
    assert_eq!(number_text(i32::MIN), "-2147483648");
    for n in -1200..1200 {
        assert_eq!(number_text(n), n.to_string());
    }
}

#[test]
fn to_infix_writes_operators_between_operands() {
    assert_eq!(postfix(vec![num(5)]).to_infix(), Some("5".to_string()));
    assert_eq!(
        postfix(vec![num(3), num(4), op(Operator::Add)]).to_infix(),
        Some("3 + 4".to_string())
    );
    assert_eq!(
        postfix(vec![num(3), num(4), op(Operator::Subtract)]).to_infix(),
        Some("3 \u{2212} 4".to_string())
    );
    assert_eq!(
        postfix(vec![num(3), num(4), op(Operator::Multiply)]).to_infix(),
        Some("3 \u{00D7} 4".to_string())
    );
    assert_eq!(
        postfix(vec![num(12), num(4), op(Operator::Divide)]).to_infix(),
        Some("12 \u{00F7} 4".to_string())
    );
}

#[test]
fn to_infix_brackets_a_looser_left_operand() {
    assert_eq!(
        postfix(vec![num(3), num(4), op(Operator::Add), num(5), op(Operator::Multiply)]).to_infix(),
        Some("(3 + 4) \u{00D7} 5".to_string())
    );
    assert_eq!(
        postfix(vec![num(3), num(4), op(Operator::Multiply), num(5), op(Operator::Add)]).to_infix(),
        Some("3 \u{00D7} 4 + 5".to_string())
    );
    assert_eq!(
        postfix(vec![num(3), num(4), op(Operator::Subtract), num(5), op(Operator::Subtract)])
            .to_infix(),
        Some("3 \u{2212} 4 \u{2212} 5".to_string())
    );
}

#[test]
fn to_infix_brackets_the_right_operand_of_differences_and_quotients() {
    assert_eq!(
        postfix(vec![num(3), num(4), num(5), op(Operator::Subtract), op(Operator::Subtract)])
            .to_infix(),
        Some("3 \u{2212} (4 \u{2212} 5)".to_string())
    );
    assert_eq!(
        postfix(vec![num(3), num(4), num(5), op(Operator::Add), op(Operator::Subtract)]).to_infix(),
        Some("3 \u{2212} (4 + 5)".to_string())
    );
    assert_eq!(
        postfix(vec![num(12), num(4), num(2), op(Operator::Divide), op(Operator::Divide)])
            .to_infix(),
        Some("12 \u{00F7} (4 \u{00F7} 2)".to_string())
    );
    assert_eq!(
        postfix(vec![num(12), num(4), num(2), op(Operator::Multiply), op(Operator::Divide)])
            .to_infix(),
        Some("12 \u{00F7} (4 \u{00D7} 2)".to_string())
    );
    assert_eq!(
        postfix(vec![num(3), num(4), num(5), op(Operator::Add), op(Operator::Add)]).to_infix(),
        Some("3 + 4 + 5".to_string())
    );
    assert_eq!(
        postfix(vec![num(3), num(4), num(5), op(Operator::Subtract), op(Operator::Add)]).to_infix(),
        Some("3 + 4 \u{2212} 5".to_string())
    );
    assert_eq!(
        postfix(vec![num(3), num(4), num(5), op(Operator::Multiply), op(Operator::Multiply)])
            .to_infix(),
        Some("3 \u{00D7} 4 \u{00D7} 5".to_string())
    );
    assert_eq!(
        postfix(vec![num(3), num(4), num(5), op(Operator::Add), op(Operator::Multiply)]).to_infix(),
        Some("3 \u{00D7} (4 + 5)".to_string())
    );
    assert_eq!(
        postfix(vec![num(3), num(4), num(5), op(Operator::Multiply), op(Operator::Add)]).to_infix(),
        Some("3 + 4 \u{00D7} 5".to_string())
    );
}

#[test]
fn to_infix_writes_negative_numbers_with_a_hyphen() {
    assert_eq!(
        postfix(vec![num(-3), num(-4), op(Operator::Subtract)]).to_infix(),
        Some("-3 \u{2212} -4".to_string())
    );
}

#[test]
fn to_infix_refuses_malformed_expressions() {
    assert_eq!(postfix(vec![]).to_infix(), None);
    assert_eq!(postfix(vec![num(1), num(2)]).to_infix(), None);
    assert_eq!(postfix(vec![num(1), op(Operator::Add)]).to_infix(), None);
    assert_eq!(postfix(vec![op(Operator::Add), num(1), num(2)]).to_infix(), None);
}

#[test]
fn to_infix_does_not_need_a_value() {
    assert_eq!(
        postfix(vec![num(7), num(0), op(Operator::Divide)]).to_infix(),
        Some("7 \u{00F7} 0".to_string())
    );
}

#[test]
fn generated_expressions_have_the_promised_form() {
    let mut rng = rand::rng();
    for round in 0..600 {
        let operations = round % 4;
        let expression = PostfixExpression::generate(&mut rng, operations).unwrap();
        let tokens = &expression.tokens;
        assert_eq!(tokens.len(), 2 * operations + 1);
        for (place, token) in tokens.iter().enumerate() {
            match token {
                Token::Number(n) => {
                    assert!(place == 0 || place % 2 == 1);
                    assert!(OPERAND_MIN <= *n && *n <= OPERAND_MAX);
                }
                Token::Op(_) => {
                    assert!(place > 0 && place % 2 == 0);
                }
            }
        }
        if operations > 0 {
            assert_ne!(tokens[2 * operations], Token::Op(Operator::Divide));
        }
        assert!(expression.to_infix().is_some());
    }
}

#[test]
fn generated_operands_cover_the_whole_range() {
    let mut rng = rand::rng();
    let mut seen = [false; 13];
    for _ in 0..2000 {
        let expression = PostfixExpression::generate(&mut rng, 0).unwrap();
        match expression.tokens[0] {
            Token::Number(n) => seen[n as usize] = true,
            Token::Op(_) => panic!("an expression starts with a number"),
        }
    }
    assert!(!seen[0] && !seen[1]);
    for n in 2..13 {
        assert!(seen[n]);
    }
}

#[test]
fn infix_reads_back_to_the_value() {
    let operators = [Operator::Add, Operator::Subtract, Operator::Multiply, Operator::Divide];
    let numbers = [2, 3, 4, 6, 12];
    let mut compared = 0;
    for a in numbers {
        for b in numbers {
            for c in numbers {
                for first in operators {
                    for second in operators {
                        let left =
                            postfix(vec![num(a), num(b), op(first), num(c), op(second)]);
                        let right =
                            postfix(vec![num(a), num(b), num(c), op(first), op(second)]);
                        for expression in [left, right] {
                            let text = expression.to_infix().unwrap();
                            if let Some(value) = expression.evaluate() {
                                assert_eq!(read_infix(&text), value as i64);
                                compared += 1;
                            }
                        }
                    }
                }
            }
        }
    }
    assert!(compared > 1000);
}

#[test]
fn generated_infix_reads_back_to_the_value() {
    let mut rng = rand::rng();
    for round in 0..500 {
        let expression = PostfixExpression::generate(&mut rng, 1 + round % 2).unwrap();
        let text = expression.to_infix().unwrap();
        if let Some(value) = expression.evaluate() {
            assert_eq!(read_infix(&text), value as i64);
        }
    }
}
