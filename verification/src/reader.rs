//! Reading an infix text back: the words of a text, their value under the
//! usual rules (products and quotients before sums and differences, equal
//! ranks from the left, brackets first), and the proof that the infix form of
//! an expression reads back to the expression's value.

use vstd::prelude::*;

use crate::expression::{expression_of, postfix_text, postfix_value, Expr, Operator, Token};
use crate::scanner::{lemma_infix_words_written, lemma_scan_written, scan};

verus! {

/// One word of an infix text.
pub enum Word {
    Number(i32),
    Sign(Operator),
    Open,
    Close,
}

/// What was read from a run of words: its value, and the place of the first
/// word after it.
pub struct Reading {
    pub value: int,
    pub next: int,
}

/// The operation whose sign stands at place `at`, if one of rank `level`
/// stands there.
pub open spec fn sign_at(words: Seq<Word>, at: int, level: int) -> Option<Operator> {
    if 0 <= at < words.len() {
        match words[at] {
            Word::Sign(op) if op.spec_precedence() == level => Some(op),
            _ => None,
        }
    } else {
        None
    }
}

/// Reads from place `at` what binds at least as tightly as `level`. At the
/// rank of atoms that is a number or a bracketed sum. Below it, it is one
/// operand of the next rank and then every operation of rank `level` that
/// follows, applied from the left. (A reading always ends after the place
/// where it began, and within the words; the bounds on `next` say so only to
/// make the definition well founded.)
pub open spec fn read_level(words: Seq<Word>, level: int, at: int) -> Option<Reading>
    decreases words.len() - at, 4 - level,
{
    if at < 0 || at >= words.len() || level < 1 || level > 3 {
        None
    } else if level == 3 {
        match words[at] {
            Word::Number(n) => Some(Reading { value: n as int, next: at + 1 }),
            Word::Open => match read_level(words, 1, at + 1) {
                Some(inner) => if at < inner.next < words.len() && words[inner.next] is Close {
                    Some(Reading { value: inner.value, next: inner.next + 1 })
                } else {
                    None
                },
                None => None,
            },
            _ => None,
        }
    } else {
        match read_level(words, level + 1, at) {
            Some(first) => if at < first.next <= words.len() {
                read_tail(words, level, first.value, first.next)
            } else {
                None
            },
            None => None,
        }
    }
}

/// Goes on reading at place `at` with `acc` as the value so far: as long as
/// a sign of rank `level` follows, its operation is applied to the value so
/// far and the operand after the sign. Stops in front of anything else.
pub open spec fn read_tail(words: Seq<Word>, level: int, acc: int, at: int) -> Option<Reading>
    decreases words.len() - at, 0int,
{
    match sign_at(words, at, level) {
        Some(op) => match read_level(words, level + 1, at + 1) {
            Some(operand) => if at < operand.next <= words.len() {
                match op.apply_int(acc, operand.value) {
                    Some(result) => read_tail(words, level, result, operand.next),
                    None => None,
                }
            } else {
                None
            },
            None => None,
        },
        None => Some(Reading { value: acc, next: at }),
    }
}

/// The value of a whole text: what a sum read from the first word comes to,
/// provided it takes up every word.
pub open spec fn read_words(words: Seq<Word>) -> Option<int> {
    match read_level(words, 1, 0) {
        Some(whole) => if whole.next == words.len() {
            Some(whole.value)
        } else {
            None
        },
        None => None,
    }
}

/// The value of an infix text: the value of its words.
pub open spec fn read_text(text: Seq<char>) -> Option<int> {
    match scan(text) {
        Some(words) => read_words(words),
        None => None,
    }
}

/// Words in round brackets.
pub open spec fn wrapped(words: Seq<Word>) -> Seq<Word> {
    seq![Word::Open] + words + seq![Word::Close]
}

impl Expr {
    /// The value over the integers, where every quotient in the expression
    /// is a whole number.
    pub open spec fn value_int(self) -> Option<int>
        decreases self,
    {
        match self {
            Expr::Number(n) => Some(n as int),
            Expr::Binary(op, left, right) => match (left.value_int(), right.value_int()) {
                (Some(a), Some(b)) => op.apply_int(a, b),
                _ => None,
            },
        }
    }

    /// The words of the infix form, with brackets where the infix form has
    /// them.
    pub open spec fn infix_words(self) -> Seq<Word>
        decreases self, 0int,
    {
        match self {
            Expr::Number(n) => seq![Word::Number(n)],
            Expr::Binary(op, left, right) => Expr::left_words(op, *left) + seq![Word::Sign(op)]
                + Expr::right_words(op, *right),
        }
    }

    /// The words of the left operand of `op`.
    pub open spec fn left_words(op: Operator, left: Expr) -> Seq<Word>
        decreases left, 1int,
    {
        if Expr::left_needs_brackets(op, left) {
            wrapped(left.infix_words())
        } else {
            left.infix_words()
        }
    }

    /// The words of the right operand of `op`.
    pub open spec fn right_words(op: Operator, right: Expr) -> Seq<Word>
        decreases right, 1int,
    {
        if Expr::right_needs_brackets(op, right) {
            wrapped(right.infix_words())
        } else {
            right.infix_words()
        }
    }
}

/// `part` stands in `words` from place `at` on.
pub open spec fn placed(words: Seq<Word>, at: int, part: Seq<Word>) -> bool {
    &&& 0 <= at
    &&& at + part.len() <= words.len()
    &&& forall|i: int| 0 <= i < part.len() ==> words[at + i] == #[trigger] part[i]
}

/// No sign of a rank above `level` stands at place `at`.
pub open spec fn stops(words: Seq<Word>, at: int, level: int) -> bool {
    level >= 2 || sign_at(words, at, 2) is None
}

/// The infix form of an expression has at least one word.
pub proof fn lemma_words_not_empty(expr: Expr)
    ensures
        expr.infix_words().len() >= 1,
{
    match expr {
        Expr::Number(n) => {},
        Expr::Binary(op, left, right) => {},
    }
}

/// Where a run of words stands, so does each of its two parts.
pub proof fn lemma_placed_parts(words: Seq<Word>, at: int, first: Seq<Word>, second: Seq<Word>)
    requires
        placed(words, at, first + second),
    ensures
        placed(words, at, first),
        placed(words, at + first.len(), second),
{
    let whole = first + second;
    assert forall|i: int| 0 <= i < first.len() implies words[at + i] == #[trigger] first[i] by {
        assert(whole[i] == first[i]);
    }
    assert forall|i: int| 0 <= i < second.len() implies words[at + first.len() + i]
        == #[trigger] second[i] by {
        assert(whole[first.len() + i] == second[i]);
    }
}

/// Where an expression's words stand between their operands' words and the
/// sign, the parts stand in this order: left operand, sign, right operand.
pub proof fn lemma_placed_operation(
    words: Seq<Word>,
    at: int,
    op: Operator,
    left: Expr,
    right: Expr,
)
    requires
        placed(words, at, Expr::Binary(op, Box::new(left), Box::new(right)).infix_words()),
    ensures
        placed(words, at, Expr::left_words(op, left)),
        at + Expr::left_words(op, left).len() < words.len(),
        words[at + Expr::left_words(op, left).len()] == Word::Sign(op),
        placed(words, at + Expr::left_words(op, left).len() + 1, Expr::right_words(op, right)),
        Expr::Binary(op, Box::new(left), Box::new(right)).infix_words().len() == Expr::left_words(
            op,
            left,
        ).len() + 1 + Expr::right_words(op, right).len(),
{
    let lead = Expr::left_words(op, left);
    let sign = seq![Word::Sign(op)];
    let rest = Expr::right_words(op, right);
    lemma_placed_parts(words, at, lead + sign, rest);
    lemma_placed_parts(words, at, lead, sign);
    assert(sign[0] == Word::Sign(op));
}

/// Regrouping to the left keeps the value: `acc + (a + b)`, `acc + (a - b)`,
/// `acc * (a * b)` and `acc * (a / b)` come to the same when the operation in
/// front is applied first.
pub proof fn lemma_regroup(front: Operator, inner: Operator, acc: int, a: int, b: int)
    requires
        front.spec_precedence() == inner.spec_precedence(),
        front == Operator::Add || front == Operator::Multiply,
        inner.apply_int(a, b) is Some,
    ensures
        front.apply_int(acc, a) is Some,
        front.apply_int(acc, inner.apply_int(a, b)->0) is Some,
        inner.apply_int(front.apply_int(acc, a)->0, b) == front.apply_int(
            acc,
            inner.apply_int(a, b)->0,
        ),
{
    if front == Operator::Multiply {
        if inner == Operator::Multiply {
            assert((acc * a) * b == acc * (a * b)) by (nonlinear_arith);
        } else {
            assert(inner == Operator::Divide);
            lemma_scaled_quotient(acc, a, b);
        }
    }
}

/// Where `b` divides `a`, it divides `acc * a`, and the quotient is `acc`
/// times as large.
pub proof fn lemma_scaled_quotient(acc: int, a: int, b: int)
    requires
        b != 0,
        a % b == 0,
    ensures
        (acc * a) % b == 0,
        (acc * a) / b == acc * (a / b),
{
    let q = a / b;
    assert(a == b * q) by (nonlinear_arith)
        requires
            b != 0,
            a % b == 0,
            q == a / b,
    ;
    assert(acc * a == b * (acc * q)) by (nonlinear_arith)
        requires
            a == b * q,
    ;
    lemma_exact_multiple(b, acc * q);
}

/// A multiple of `b` divided by `b` leaves no remainder and gives back the
/// factor.
pub proof fn lemma_exact_multiple(b: int, m: int)
    requires
        b != 0,
    ensures
        (b * m) % b == 0,
        (b * m) / b == m,
{
    let x = b * m;
    let q = x / b;
    let r = x % b;
    assert(x == b * q + r && 0 <= r && (b > 0 ==> r < b) && (b < 0 ==> r < -b))
        by (nonlinear_arith)
        requires
            b != 0,
            q == x / b,
            r == x % b,
    ;
    assert(r == b * (m - q)) by (nonlinear_arith)
        requires
            x == b * m,
            x == b * q + r,
    ;
    assert(m == q) by (nonlinear_arith)
        requires
            r == b * (m - q),
            0 <= r,
            b > 0 ==> r < b,
            b < 0 ==> r < -b,
            b != 0,
    ;
}

/// An atom that was read serves as an operand of rank `level` when no sign
/// of a rank that `level` would take up follows it.
pub proof fn lemma_atom_as_operand(words: Seq<Word>, at: int, atom: Reading, level: int)
    requires
        read_level(words, 3, at) == Some(atom),
        at < atom.next <= words.len(),
        2 <= level <= 3,
        stops(words, atom.next, level - 1),
    ensures
        read_level(words, level, at) == Some(atom),
{
    if level == 2 {
        assert(read_tail(words, 2, atom.value, atom.next) == Some(atom));
    }
}

/// An atom that was read starts a run of rank `level` when no sign of a
/// higher rank follows it.
pub proof fn lemma_atom_starts_chain(words: Seq<Word>, at: int, atom: Reading, level: int)
    requires
        read_level(words, 3, at) == Some(atom),
        at < atom.next <= words.len(),
        1 <= level <= 2,
        stops(words, atom.next, level),
    ensures
        read_level(words, level, at) == read_tail(words, level, atom.value, atom.next),
{
    lemma_atom_as_operand(words, at, atom, level + 1);
}

/// Reading a run of rank `level` from the first word of an expression that
/// binds at least that tightly comes to the same as going on after its last
/// word with the expression's value.
pub proof fn lemma_chain(expr: Expr, level: int, words: Seq<Word>, at: int)
    requires
        expr.value_int() is Some,
        1 <= level <= 2,
        level <= expr.precedence(),
        placed(words, at, expr.infix_words()),
        stops(words, at + expr.infix_words().len(), level),
    ensures
        read_level(words, level, at) == read_tail(
            words,
            level,
            expr.value_int()->0,
            at + expr.infix_words().len(),
        ),
    decreases expr, 2 - level,
{
    let end = at + expr.infix_words().len();
    let value = expr.value_int()->0;
    match expr {
        Expr::Number(n) => {
            assert(expr.infix_words()[0] == Word::Number(n));
            let atom = Reading { value: n as int, next: at + 1 };
            assert(read_level(words, 3, at) == Some(atom));
            lemma_atom_starts_chain(words, at, atom, level);
        },
        Expr::Binary(op, left, right) => {
            if op.spec_precedence() > level {
                lemma_chain(expr, 2, words, at);
                lemma_words_not_empty(expr);
                assert(read_tail(words, 2, value, end) == Some(Reading { value, next: end }));
            } else {
                lemma_placed_operation(words, at, op, *left, *right);
                let sign = at + Expr::left_words(op, *left).len();
                lemma_lead(*left, op, words, at);
                lemma_tail(*right, left.value_int()->0, op, words, sign);
            }
        },
    }
}

/// A bracketed expression reads as an atom with the expression's value.
pub proof fn lemma_bracketed(expr: Expr, words: Seq<Word>, at: int)
    requires
        expr.value_int() is Some,
        placed(words, at, wrapped(expr.infix_words())),
    ensures
        read_level(words, 3, at) == Some(
            Reading { value: expr.value_int()->0, next: at + expr.infix_words().len() + 2 },
        ),
    decreases expr, 2int,
{
    let inner = expr.infix_words();
    let value = expr.value_int()->0;
    lemma_placed_parts(words, at, seq![Word::Open] + inner, seq![Word::Close]);
    lemma_placed_parts(words, at, seq![Word::Open], inner);
    assert(seq![Word::Open][0] == Word::Open);
    assert(seq![Word::Close][0] == Word::Close);
    assert(words[at] == Word::Open);
    let close = at + 1 + inner.len();
    assert(words[close] == Word::Close);
    lemma_words_not_empty(expr);
    lemma_chain(expr, 1, words, at + 1);
    assert(read_tail(words, 1, value, close) == Some(Reading { value, next: close }));
}

/// The left operand of an operation starts the run of that operation's
/// rank: after it, reading goes on at the sign with the operand's value.
pub proof fn lemma_lead(left: Expr, op: Operator, words: Seq<Word>, at: int)
    requires
        left.value_int() is Some,
        placed(words, at, Expr::left_words(op, left)),
        at + Expr::left_words(op, left).len() < words.len(),
        words[at + Expr::left_words(op, left).len()] == Word::Sign(op),
    ensures
        read_level(words, op.spec_precedence() as int, at) == read_tail(
            words,
            op.spec_precedence() as int,
            left.value_int()->0,
            at + Expr::left_words(op, left).len(),
        ),
    decreases left, 3int,
{
    let level = op.spec_precedence() as int;
    let sign = at + Expr::left_words(op, left).len();
    lemma_words_not_empty(left);
    if Expr::left_needs_brackets(op, left) {
        lemma_bracketed(left, words, at);
        let atom = Reading { value: left.value_int()->0, next: sign };
        lemma_atom_starts_chain(words, at, atom, level);
    } else {
        lemma_chain(left, level, words, at);
    }
}

/// The right operand of an operation is taken up by the run of that
/// operation's rank: with `acc` as the value so far in front of the sign,
/// reading goes on after the operand with the operation's result.
pub proof fn lemma_tail(right: Expr, acc: int, op: Operator, words: Seq<Word>, sign: int)
    requires
        right.value_int() is Some,
        op.apply_int(acc, right.value_int()->0) is Some,
        0 <= sign < words.len(),
        words[sign] == Word::Sign(op),
        placed(words, sign + 1, Expr::right_words(op, right)),
        stops(
            words,
            sign + 1 + Expr::right_words(op, right).len(),
            op.spec_precedence() as int,
        ),
    ensures
        read_tail(words, op.spec_precedence() as int, acc, sign) == read_tail(
            words,
            op.spec_precedence() as int,
            op.apply_int(acc, right.value_int()->0)->0,
            sign + 1 + Expr::right_words(op, right).len(),
        ),
    decreases right, 3int,
{
    let level = op.spec_precedence() as int;
    let end = sign + 1 + Expr::right_words(op, right).len();
    let value = right.value_int()->0;
    let operand = Reading { value, next: end };
    lemma_words_not_empty(right);
    assert(sign_at(words, sign, level) == Some(op));
    if Expr::right_needs_brackets(op, right) {
        lemma_bracketed(right, words, sign + 1);
        lemma_atom_as_operand(words, sign + 1, operand, level + 1);
    } else if right.precedence() > level {
        match right {
            Expr::Number(n) => {
                assert(right.infix_words()[0] == Word::Number(n));
                assert(read_level(words, 3, sign + 1) == Some(operand));
                lemma_atom_as_operand(words, sign + 1, operand, level + 1);
            },
            Expr::Binary(inner, first, second) => {
                lemma_chain(right, 2, words, sign + 1);
                assert(read_tail(words, 2, value, end) == Some(operand));
            },
        }
    } else {
        match right {
            Expr::Number(n) => {},
            Expr::Binary(inner, first, second) => {
                lemma_regroup(op, inner, acc, first.value_int()->0, second.value_int()->0);
                lemma_placed_operation(words, sign + 1, inner, *first, *second);
                assert(Expr::right_words(op, *first) == Expr::left_words(inner, *first));
                let inner_sign = sign + 1 + Expr::left_words(inner, *first).len();
                lemma_tail(*first, acc, op, words, sign);
                lemma_tail(
                    *second,
                    op.apply_int(acc, first.value_int()->0)->0,
                    inner,
                    words,
                    inner_sign,
                );
            },
        }
    }
}

/// An expression that has a value in 32 bits has the same value over the
/// integers.
pub proof fn lemma_value_is_value_int(expr: Expr)
    requires
        expr.value() is Some,
    ensures
        expr.value_int() == Some(expr.value()->0 as int),
    decreases expr,
{
    match expr {
        Expr::Number(n) => {},
        Expr::Binary(op, left, right) => {
            lemma_value_is_value_int(*left);
            lemma_value_is_value_int(*right);
        },
    }
}

/// The words of an expression's infix form, read under the usual rules, come
/// to the expression's value.
pub proof fn lemma_infix_words_read_back(expr: Expr)
    requires
        expr.value_int() is Some,
    ensures
        read_words(expr.infix_words()) == expr.value_int(),
{
    let words = expr.infix_words();
    lemma_chain(expr, 1, words, 0);
    lemma_words_not_empty(expr);
    assert(read_tail(words, 1, expr.value_int()->0, words.len() as int) == Some(
        Reading { value: expr.value_int()->0, next: words.len() as int },
    ));
}

/// The infix form of an expression that has a value, read as a text under
/// the usual rules, comes to that value.
pub proof fn lemma_infix_reads_back(expr: Expr)
    requires
        expr.value() is Some,
    ensures
        read_text(expr.infix()) == Some(expr.value()->0 as int),
{
    lemma_value_is_value_int(expr);
    lemma_infix_words_written(expr);
    lemma_scan_written(expr.infix_words());
    lemma_infix_words_read_back(expr);
}

/// A postfix expression that has a value has an infix text, and the text
/// reads back to the same value.
pub proof fn lemma_postfix_round_trip(tokens: Seq<Token>)
    requires
        postfix_value(tokens) is Some,
    ensures
        postfix_text(tokens) is Some,
        read_text(postfix_text(tokens)->0) == Some(postfix_value(tokens)->0 as int),
{
    lemma_infix_reads_back(expression_of(tokens)->0);
}

} // verus!
