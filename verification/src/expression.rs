//! Arithmetic expressions in postfix form: their value, and their text in
//! the usual infix form with as few brackets as the reading rules allow.

use rand::rngs::ThreadRng;
use vstd::prelude::*;

use crate::random::random_range_i32;

verus! {

/// The smallest operand of a generated expression.
pub const OPERAND_MIN: i32 = 2;

/// The largest operand of a generated expression.
pub const OPERAND_MAX: i32 = 12;

/// The four operations.
#[derive(Debug, Clone, Copy, PartialEq, Eq, Structural)]
pub enum Operator {
    Add,
    Subtract,
    Multiply,
    Divide,
}

/// One entry of a postfix expression.
#[derive(Debug, Clone, Copy, PartialEq, Eq, Structural)]
pub enum Token {
    Number(i32),
    Op(Operator),
}

/// An expression as a tree: a number, or an operation on two expressions.
pub enum Expr {
    Number(i32),
    Binary(Operator, Box<Expr>, Box<Expr>),
}

/// How tightly a number binds: tighter than any operation.
pub const NUMBER_PRECEDENCE: u8 = 255;

impl Operator {
    /// How tightly the operation binds: sums and differences loosely,
    /// products and quotients tightly.
    pub open spec fn spec_precedence(self) -> u8 {
        match self {
            Operator::Add | Operator::Subtract => 1,
            Operator::Multiply | Operator::Divide => 2,
        }
    }

    /// The result over the integers. A quotient exists only where the
    /// divisor is not zero and divides without remainder.
    pub open spec fn apply_int(self, left: int, right: int) -> Option<int> {
        match self {
            Operator::Add => Some(left + right),
            Operator::Subtract => Some(left - right),
            Operator::Multiply => Some(left * right),
            Operator::Divide => if right != 0 && left % right == 0 {
                Some(left / right)
            } else {
                None
            },
        }
    }

    /// The result in 32 bits: the result over the integers where it exists
    /// and fits.
    pub open spec fn spec_apply(self, left: i32, right: i32) -> Option<i32> {
        match self.apply_int(left as int, right as int) {
            Some(value) if i32::MIN <= value <= i32::MAX => Some(value as i32),
            _ => None,
        }
    }

    /// The operation that a roll of a four-sided die stands for. The last
    /// operation of an expression is never a division: the roll that would
    /// give one gives an addition there.
    pub open spec fn spec_for_roll(roll: i32, last: bool) -> Operator {
        if roll == 0 {
            Operator::Add
        } else if roll == 1 {
            Operator::Subtract
        } else if roll == 2 {
            Operator::Multiply
        } else if last {
            Operator::Add
        } else {
            Operator::Divide
        }
    }

    /// The operation that a roll of a four-sided die stands for.
    #[verifier::when_used_as_spec(spec_for_roll)]
    pub fn for_roll(roll: i32, last: bool) -> (op: Operator)
        ensures
            op == Operator::spec_for_roll(roll, last),
    {
        if roll == 0 {
            Operator::Add
        } else if roll == 1 {
            Operator::Subtract
        } else if roll == 2 {
            Operator::Multiply
        } else if last {
            Operator::Add
        } else {
            Operator::Divide
        }
    }

    /// The sign that stands for the operation in a text.
    pub open spec fn symbol_char(self) -> char {
        match self {
            Operator::Add => '+',
            Operator::Subtract => '\u{2212}',
            Operator::Multiply => '\u{00D7}',
            Operator::Divide => '\u{00F7}',
        }
    }

    /// The sign that stands for the operation in a text.
    pub fn symbol(&self) -> (text: &'static str)
        ensures
            text@ == seq![self.symbol_char()],
    {
        match self {
            Operator::Add => {
                proof {
                    reveal_strlit("+");
                }
                assert("+"@ =~= seq!['+']);
                "+"
            },
            Operator::Subtract => {
                proof {
                    reveal_strlit("\u{2212}");
                }
                assert("\u{2212}"@ =~= seq!['\u{2212}']);
                "\u{2212}"
            },
            Operator::Multiply => {
                proof {
                    reveal_strlit("\u{00D7}");
                }
                assert("\u{00D7}"@ =~= seq!['\u{00D7}']);
                "\u{00D7}"
            },
            Operator::Divide => {
                proof {
                    reveal_strlit("\u{00F7}");
                }
                assert("\u{00F7}"@ =~= seq!['\u{00F7}']);
                "\u{00F7}"
            },
        }
    }

    /// How tightly the operation binds.
    pub fn precedence(&self) -> (level: u8)
        ensures
            level == self.spec_precedence(),
    {
        match self {
            Operator::Add | Operator::Subtract => 1,
            Operator::Multiply | Operator::Divide => 2,
        }
    }

    /// Applies the operation. There is no result where it would not fit in
    /// 32 bits, and none for a quotient that is not a whole number.
    pub fn apply(&self, left: i32, right: i32) -> (result: Option<i32>)
        ensures
            result == self.spec_apply(left, right),
    {
        match self {
            Operator::Add => left.checked_add(right),
            Operator::Subtract => left.checked_sub(right),
            Operator::Multiply => left.checked_mul(right),
            Operator::Divide => {
                if right == 0 {
                    None
                } else {
                    match left.checked_rem_euclid(right) {
                        Some(0) => left.checked_div_euclid(right),
                        Some(_) => None,
                        None => {
                            assert(left as int / right as int > i32::MAX) by (nonlinear_arith)
                                requires
                                    left == i32::MIN,
                                    right == -1,
                            ;
                            None
                        },
                    }
                }
            },
        }
    }
}

/// The character for one decimal digit.
pub open spec fn digit_char(digit: int) -> char {
    seq!['0', '1', '2', '3', '4', '5', '6', '7', '8', '9'][digit]
}

/// The decimal digits of a number that is not negative, without leading
/// zeros.
pub open spec fn decimal_digits(n: nat) -> Seq<char>
    decreases n,
{
    if n < 10 {
        seq![digit_char(n as int)]
    } else {
        decimal_digits(n / 10).push(digit_char((n % 10) as int))
    }
}

/// A whole number in decimal, with a minus sign in front where it is
/// negative.
pub open spec fn decimal(n: int) -> Seq<char> {
    if n < 0 {
        seq!['-'] + decimal_digits((-n) as nat)
    } else {
        decimal_digits(n as nat)
    }
}

/// A text in round brackets.
pub open spec fn bracketed(text: Seq<char>) -> Seq<char> {
    seq!['('] + text + seq![')']
}

/// An operation between its two operands, set off by spaces.
pub open spec fn joined(left: Seq<char>, op: Operator, right: Seq<char>) -> Seq<char> {
    left + seq![' ', op.symbol_char(), ' '] + right
}

impl Expr {
    /// The left operand of `op` goes in brackets where it binds more loosely
    /// than `op`.
    pub open spec fn left_needs_brackets(op: Operator, left: Expr) -> bool {
        left.precedence() < op.spec_precedence()
    }

    /// The right operand of `op` goes in brackets where it binds more loosely
    /// than `op`, and also where it binds just as tightly and `op` is a
    /// difference or a quotient, which are read from the left.
    pub open spec fn right_needs_brackets(op: Operator, right: Expr) -> bool {
        right.precedence() < op.spec_precedence() || (right.precedence() == op.spec_precedence()
            && (op == Operator::Subtract || op == Operator::Divide))
    }

    /// The expression in infix form.
    pub open spec fn infix(self) -> Seq<char>
        decreases self,
    {
        match self {
            Expr::Number(n) => decimal(n as int),
            Expr::Binary(op, left, right) => joined(
                if Expr::left_needs_brackets(op, *left) {
                    bracketed(left.infix())
                } else {
                    left.infix()
                },
                op,
                if Expr::right_needs_brackets(op, *right) {
                    bracketed(right.infix())
                } else {
                    right.infix()
                },
            ),
        }
    }

    /// The expression in postfix form: the operands, then the operation.
    pub open spec fn postfix(self) -> Seq<Token>
        decreases self,
    {
        match self {
            Expr::Number(n) => seq![Token::Number(n)],
            Expr::Binary(op, left, right) => (left.postfix() + right.postfix()).push(
                Token::Op(op),
            ),
        }
    }

    /// The value in 32 bits, where every operation in the expression has a
    /// result.
    pub open spec fn value(self) -> Option<i32>
        decreases self,
    {
        match self {
            Expr::Number(n) => Some(n),
            Expr::Binary(op, left, right) => match (left.value(), right.value()) {
                (Some(a), Some(b)) => op.spec_apply(a, b),
                _ => None,
            },
        }
    }

    /// How tightly the outermost part of the expression binds.
    pub open spec fn precedence(self) -> u8 {
        match self {
            Expr::Number(_) => NUMBER_PRECEDENCE,
            Expr::Binary(op, _, _) => op.spec_precedence(),
        }
    }
}

/// The stack of expressions that reading `tokens` from the left builds: a
/// number is put on top, an operation takes the two topmost expressions as
/// its operands and puts the result on top. Nothing is built where an
/// operation finds fewer than two.
pub open spec fn parse_postfix(tokens: Seq<Token>) -> Option<Seq<Expr>>
    decreases tokens.len(),
{
    if tokens.len() == 0 {
        Some(Seq::empty())
    } else {
        match parse_postfix(tokens.drop_last()) {
            None => None,
            Some(stack) => match tokens.last() {
                Token::Number(n) => Some(stack.push(Expr::Number(n))),
                Token::Op(op) => if stack.len() < 2 {
                    None
                } else {
                    Some(
                        stack.take(stack.len() - 2).push(
                            Expr::Binary(
                                op,
                                Box::new(stack[stack.len() - 2]),
                                Box::new(stack[stack.len() - 1]),
                            ),
                        ),
                    )
                },
            },
        }
    }
}

/// The expression that `tokens` are the postfix form of, if they are one.
pub open spec fn expression_of(tokens: Seq<Token>) -> Option<Expr> {
    match parse_postfix(tokens) {
        Some(stack) if stack.len() == 1 => Some(stack[0]),
        _ => None,
    }
}

/// The value of a postfix expression: the value of the expression that the
/// tokens stand for.
pub open spec fn postfix_value(tokens: Seq<Token>) -> Option<i32> {
    match expression_of(tokens) {
        Some(expr) => expr.value(),
        None => None,
    }
}

/// A token that a generated expression can have as an operand.
pub open spec fn is_operand(token: Token) -> bool {
    token matches Token::Number(n) && OPERAND_MIN <= n <= OPERAND_MAX
}

/// The form of a generated expression with `operations` operations: an
/// operand, then for each operation one more operand and the operation, the
/// last of which is no division.
pub open spec fn generated_form(tokens: Seq<Token>, operations: nat) -> bool {
    &&& tokens.len() == 2 * operations + 1
    &&& is_operand(tokens[0])
    &&& forall|k: int|
        0 <= k < operations ==> is_operand(#[trigger] tokens[2 * k + 1]) && tokens[2 * k + 2]
            is Op
    &&& operations > 0 ==> tokens[2 * operations as int] != Token::Op(Operator::Divide)
}

/// The infix text of a postfix expression: the text of the expression that
/// the tokens stand for.
pub open spec fn postfix_text(tokens: Seq<Token>) -> Option<Seq<char>> {
    match expression_of(tokens) {
        Some(expr) => Some(expr.infix()),
        None => None,
    }
}

/// Once reading has failed, it has failed for every longer list of tokens.
pub proof fn lemma_parse_failure_lasts(tokens: Seq<Token>, upto: int)
    requires
        0 <= upto <= tokens.len(),
        parse_postfix(tokens.take(upto)) is None,
    ensures
        parse_postfix(tokens) is None,
    decreases tokens.len() - upto,
{
    if upto < tokens.len() {
        assert(tokens.take(upto + 1).drop_last() =~= tokens.take(upto));
        lemma_parse_failure_lasts(tokens, upto + 1);
    } else {
        assert(tokens.take(upto) =~= tokens);
    }
}

/// An expression without a value on the stack leaves the whole without one.
pub proof fn lemma_missing_value_lasts(tokens: Seq<Token>, upto: int)
    requires
        0 <= upto <= tokens.len(),
        parse_postfix(tokens.take(upto)) matches Some(stack) && exists|k: int|
            0 <= k < stack.len() && (#[trigger] stack[k]).value() is None,
    ensures
        postfix_value(tokens) is None,
    decreases tokens.len() - upto,
{
    let stack = parse_postfix(tokens.take(upto))->0;
    let k = choose|k: int| 0 <= k < stack.len() && (#[trigger] stack[k]).value() is None;
    if upto < tokens.len() {
        assert(tokens.take(upto + 1).drop_last() =~= tokens.take(upto));
        match parse_postfix(tokens.take(upto + 1)) {
            None => {
                lemma_parse_failure_lasts(tokens, upto + 1);
            },
            Some(next) => {
                match tokens[upto] {
                    Token::Number(n) => {
                        assert(next[k] == stack[k]);
                    },
                    Token::Op(op) => {
                        if k < stack.len() - 2 {
                            assert(next[k] == stack[k]);
                        } else {
                            assert(next[stack.len() - 2].value() is None);
                        }
                    },
                }
                lemma_missing_value_lasts(tokens, upto + 1);
            },
        }
    } else {
        assert(tokens.take(upto) =~= tokens);
    }
}

/// The text of one decimal digit.
fn digit_str(digit: u64) -> (text: &'static str)
    requires
        digit < 10,
    ensures
        text@ == seq![digit_char(digit as int)],
{
    proof {
        reveal_strlit("0");
        reveal_strlit("1");
        reveal_strlit("2");
        reveal_strlit("3");
        reveal_strlit("4");
        reveal_strlit("5");
        reveal_strlit("6");
        reveal_strlit("7");
        reveal_strlit("8");
        reveal_strlit("9");
    }
    let text = if digit == 0 {
        "0"
    } else if digit == 1 {
        "1"
    } else if digit == 2 {
        "2"
    } else if digit == 3 {
        "3"
    } else if digit == 4 {
        "4"
    } else if digit == 5 {
        "5"
    } else if digit == 6 {
        "6"
    } else if digit == 7 {
        "7"
    } else if digit == 8 {
        "8"
    } else {
        "9"
    };
    assert(text@ =~= seq![digit_char(digit as int)]);
    text
}

/// The decimal digits of `n`.
fn digits_string(n: u64) -> (text: String)
    ensures
        text@ == decimal_digits(n as nat),
    decreases n,
{
    if n < 10 {
        String::from_str(digit_str(n))
    } else {
        let mut text = digits_string(n / 10);
        text.append(digit_str(n % 10));
        assert(text@ =~= decimal_digits(n as nat));
        text
    }
}

/// The number in decimal.
pub fn number_text(n: i32) -> (text: String)
    ensures
        text@ == decimal(n as int),
{
    let wide: i64 = n as i64;
    if wide < 0 {
        proof {
            reveal_strlit("-");
        }
        let mut text = String::from_str("-");
        let digits = digits_string((-wide) as u64);
        text.append(digits.as_str());
        assert(text@ =~= decimal(n as int));
        text
    } else {
        digits_string(wide as u64)
    }
}

/// The text in round brackets.
fn in_brackets(text: String) -> (wrapped: String)
    ensures
        wrapped@ == bracketed(text@),
{
    proof {
        reveal_strlit("(");
        reveal_strlit(")");
    }
    let mut wrapped = String::from_str("(");
    wrapped.append(text.as_str());
    wrapped.append(")");
    assert(wrapped@ =~= bracketed(text@));
    wrapped
}

/// A part of an infix text under construction, and how tightly its
/// outermost part binds.
#[derive(Debug)]
pub struct InfixPart {
    pub text: String,
    pub precedence: u8,
}

/// A postfix expression.
#[derive(Debug)]
pub struct PostfixExpression {
    pub tokens: Vec<Token>,
}

impl PostfixExpression {
    /// An expression with `num_operations` operations, drawn by chance:
    /// every operand lies between 2 and 12, and the operations are applied
    /// from the left.
    pub fn generate(rng: &mut ThreadRng, num_operations: usize) -> (result: Option<Self>)
        ensures
            result matches Some(expression) && generated_form(
                expression.tokens@,
                num_operations as nat,
            ) && expression_of(expression.tokens@) is Some,
    {
        let first = random_range_i32(rng, OPERAND_MIN, OPERAND_MAX + 1);
        let mut tokens: Vec<Token> = Vec::new();
        tokens.push(Token::Number(first));
        let ghost mut tree = Expr::Number(first);
        assert(tokens@.drop_last() =~= Seq::<Token>::empty());
        assert(Seq::<Expr>::empty().push(tree) =~= seq![tree]);
        assert(parse_postfix(Seq::<Token>::empty()) == Some(Seq::<Expr>::empty()));
        assert(parse_postfix(tokens@) == Some(seq![tree]));
        let mut i: usize = 0;
        while i < num_operations
            invariant
                i <= num_operations,
                tokens@.len() == 2 * i + 1,
                is_operand(tokens@[0]),
                forall|k: int|
                    0 <= k < i ==> is_operand(#[trigger] tokens@[2 * k + 1]) && tokens@[2 * k + 2]
                        is Op,
                i == num_operations && i > 0 ==> tokens@[2 * i] != Token::Op(Operator::Divide),
                parse_postfix(tokens@) == Some(seq![tree]),
            decreases num_operations - i,
        {
            let ghost before = tokens@;
            let num = random_range_i32(rng, OPERAND_MIN, OPERAND_MAX + 1);
            tokens.push(Token::Number(num));
            assert(tokens@.drop_last() =~= before);
            let ghost with_operand = tokens@;
            let roll = random_range_i32(rng, 0, 4);
            let op = Operator::for_roll(roll, i == num_operations - 1);
            tokens.push(Token::Op(op));
            assert(tokens@.drop_last() =~= with_operand);
            proof {
                let stack = seq![tree, Expr::Number(num)];
                assert(parse_postfix(with_operand) == Some(stack));
                let made = Expr::Binary(op, Box::new(tree), Box::new(Expr::Number(num)));
                assert(stack.take(0).push(made) =~= seq![made]);
                tree = made;
                assert forall|k: int| 0 <= k < i + 1 implies is_operand(
                    #[trigger] tokens@[2 * k + 1],
                ) && tokens@[2 * k + 2] is Op by {
                    if k < i {
                        assert(tokens@[2 * k + 1] == before[2 * k + 1]);
                        assert(tokens@[2 * k + 2] == before[2 * k + 2]);
                    }
                }
            }
            i += 1;
        }
        Some(PostfixExpression { tokens })
    }

    /// The value of the expression. There is none where the tokens are not
    /// the postfix form of an expression, and none where an operation in it
    /// has no result.
    pub fn evaluate(&self) -> (result: Option<i32>)
        ensures
            result == postfix_value(self.tokens@),
    {
        let mut stack: Vec<i32> = Vec::new();
        let ghost mut trees: Seq<Expr> = Seq::empty();
        let mut i: usize = 0;
        while i < self.tokens.len()
            invariant
                i <= self.tokens.len(),
                parse_postfix(self.tokens@.take(i as int)) == Some(trees),
                trees.len() == stack@.len(),
                forall|k: int| 0 <= k < trees.len() ==> (#[trigger] trees[k]).value() == Some(stack@[k]),
            decreases self.tokens.len() - i,
        {
            assert(self.tokens@.take(i + 1).drop_last() =~= self.tokens@.take(i as int));
            match self.tokens[i] {
                Token::Number(n) => {
                    stack.push(n);
                    proof {
                        trees = trees.push(Expr::Number(n));
                    }
                },
                Token::Op(op) => {
                    if stack.len() < 2 {
                        proof {
                            lemma_parse_failure_lasts(self.tokens@, i + 1);
                        }
                        return None;
                    }
                    let right = stack.pop().unwrap();
                    let left = stack.pop().unwrap();
                    let ghost made = Expr::Binary(
                        op,
                        Box::new(trees[trees.len() - 2]),
                        Box::new(trees[trees.len() - 1]),
                    );
                    let ghost next = trees.take(trees.len() - 2).push(made);
                    match op.apply(left, right) {
                        Some(value) => {
                            stack.push(value);
                            proof {
                                trees = next;
                            }
                        },
                        None => {
                            proof {
                                assert(next[next.len() - 1].value() is None);
                                lemma_missing_value_lasts(self.tokens@, i + 1);
                            }
                            return None;
                        },
                    }
                },
            }
            i += 1;
        }
        assert(self.tokens@.take(i as int) =~= self.tokens@);
        if stack.len() == 1 {
            Some(stack[0])
        } else {
            None
        }
    }

    /// The expression in infix form, an operation between its operands and
    /// set off by spaces, with brackets only where the reading rules need
    /// them. There is none where the tokens are not the postfix form of an
    /// expression.
    pub fn to_infix(&self) -> (result: Option<String>)
        ensures
            result is Some <==> postfix_text(self.tokens@) is Some,
            result matches Some(text) ==> Some(text@) == postfix_text(self.tokens@),
    {
        let mut stack: Vec<InfixPart> = Vec::new();
        let ghost mut trees: Seq<Expr> = Seq::empty();
        let mut i: usize = 0;
        while i < self.tokens.len()
            invariant
                i <= self.tokens.len(),
                parse_postfix(self.tokens@.take(i as int)) == Some(trees),
                trees.len() == stack@.len(),
                forall|k: int|
                    0 <= k < trees.len() ==> (#[trigger] trees[k]).infix() == stack@[k].text@
                        && trees[k].precedence() == stack@[k].precedence,
            decreases self.tokens.len() - i,
        {
            assert(self.tokens@.take(i + 1).drop_last() =~= self.tokens@.take(i as int));
            match self.tokens[i] {
                Token::Number(n) => {
                    stack.push(InfixPart { text: number_text(n), precedence: NUMBER_PRECEDENCE });
                    proof {
                        trees = trees.push(Expr::Number(n));
                    }
                },
                Token::Op(op) => {
                    if stack.len() < 2 {
                        proof {
                            lemma_parse_failure_lasts(self.tokens@, i + 1);
                        }
                        return None;
                    }
                    let right = stack.pop().unwrap();
                    let left = stack.pop().unwrap();
                    let ghost made = Expr::Binary(
                        op,
                        Box::new(trees[trees.len() - 2]),
                        Box::new(trees[trees.len() - 1]),
                    );
                    let op_prec = op.precedence();
                    let left_text = if left.precedence < op_prec {
                        in_brackets(left.text)
                    } else {
                        left.text
                    };
                    let right_text = if right.precedence < op_prec || (right.precedence == op_prec
                        && (op == Operator::Subtract || op == Operator::Divide)) {
                        in_brackets(right.text)
                    } else {
                        right.text
                    };
                    proof {
                        reveal_strlit(" ");
                    }
                    let mut text = left_text;
                    text.append(" ");
                    text.append(op.symbol());
                    text.append(" ");
                    text.append(right_text.as_str());
                    assert(text@ =~= made.infix());
                    stack.push(InfixPart { text, precedence: op_prec });
                    proof {
                        trees = trees.take(trees.len() - 2).push(made);
                    }
                },
            }
            i += 1;
        }
        assert(self.tokens@.take(i as int) =~= self.tokens@);
        if stack.len() == 1 {
            let part = stack.pop().unwrap();
            Some(part.text)
        } else {
            None
        }
    }
}

} // verus!
