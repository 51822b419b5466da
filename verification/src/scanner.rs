//! From a text to its words: numbers in decimal, the four signs, and round
//! brackets, with spaces between them where one likes. Also the other way:
//! the text that a list of words is written as, and the proof that the
//! written words are the ones found again.

use vstd::prelude::*;

use crate::expression::{bracketed, decimal, decimal_digits, digit_char, joined, Expr, Operator};
use crate::reader::{wrapped, Word};

verus! {

/// The character is a decimal digit.
pub open spec fn is_digit(c: char) -> bool {
    c == '0' || c == '1' || c == '2' || c == '3' || c == '4' || c == '5' || c == '6' || c == '7'
        || c == '8' || c == '9'
}

/// The digit that the character stands for.
pub open spec fn digit_of(c: char) -> nat {
    if c == '1' {
        1
    } else if c == '2' {
        2
    } else if c == '3' {
        3
    } else if c == '4' {
        4
    } else if c == '5' {
        5
    } else if c == '6' {
        6
    } else if c == '7' {
        7
    } else if c == '8' {
        8
    } else if c == '9' {
        9
    } else {
        0
    }
}

/// The operation that the character is the sign of.
pub open spec fn sign_of(c: char) -> Option<Operator> {
    if c == '+' {
        Some(Operator::Add)
    } else if c == '\u{2212}' {
        Some(Operator::Subtract)
    } else if c == '\u{00D7}' {
        Some(Operator::Multiply)
    } else if c == '\u{00F7}' {
        Some(Operator::Divide)
    } else {
        None
    }
}

/// How many digits the text starts with.
pub open spec fn leading_digits(text: Seq<char>) -> nat
    decreases text.len(),
{
    if text.len() > 0 && is_digit(text[0]) {
        1 + leading_digits(text.drop_first())
    } else {
        0
    }
}

/// The number that a run of digits is the decimal form of.
pub open spec fn digits_value(digits: Seq<char>) -> nat
    decreases digits.len(),
{
    if digits.len() == 0 {
        0
    } else {
        digits_value(digits.drop_last()) * 10 + digit_of(digits.last())
    }
}

/// `word` in front of the words found after it, if any were found.
pub open spec fn and_then_words(word: Word, rest: Option<Seq<Word>>) -> Option<Seq<Word>> {
    match rest {
        Some(words) => Some(seq![word] + words),
        None => None,
    }
}

/// The words of a text. Spaces are passed over; a bracket or a sign is a
/// word; a run of digits, with a hyphen in front for a negative number, is a
/// number if it fits in 32 bits. Anything else is no text of words.
pub open spec fn scan(text: Seq<char>) -> Option<Seq<Word>>
    decreases text.len(),
{
    if text.len() == 0 {
        Some(Seq::empty())
    } else {
        let c = text[0];
        let rest = text.drop_first();
        if c == ' ' {
            scan(rest)
        } else if c == '(' {
            and_then_words(Word::Open, scan(rest))
        } else if c == ')' {
            and_then_words(Word::Close, scan(rest))
        } else if sign_of(c) is Some {
            and_then_words(Word::Sign(sign_of(c)->0), scan(rest))
        } else {
            let body = if c == '-' {
                rest
            } else {
                text
            };
            let count = leading_digits(body);
            if count == 0 || count > body.len() {
                None
            } else {
                let magnitude = digits_value(body.take(count as int));
                let value = if c == '-' {
                    -magnitude
                } else {
                    magnitude as int
                };
                if i32::MIN <= value <= i32::MAX {
                    and_then_words(Word::Number(value as i32), scan(body.skip(count as int)))
                } else {
                    None
                }
            }
        }
    }
}

/// The text of one word: a number in decimal, a sign between two spaces, a
/// bracket as it is.
pub open spec fn word_text(word: Word) -> Seq<char> {
    match word {
        Word::Number(n) => decimal(n as int),
        Word::Sign(op) => seq![' ', op.symbol_char(), ' '],
        Word::Open => seq!['('],
        Word::Close => seq![')'],
    }
}

/// The text of a list of words, one after the other.
pub open spec fn written(words: Seq<Word>) -> Seq<char>
    decreases words.len(),
{
    if words.len() == 0 {
        Seq::empty()
    } else {
        word_text(words[0]) + written(words.drop_first())
    }
}

/// No number is followed by another number straight away.
pub open spec fn separated(words: Seq<Word>) -> bool {
    forall|i: int|
        0 <= i < words.len() - 1 ==> !(#[trigger] words[i] is Number && words[i + 1] is Number)
}

/// The text does not go on with a digit.
pub open spec fn ends_number(text: Seq<char>) -> bool {
    text.len() == 0 || !is_digit(text[0])
}

/// The decimal digits of a number are digits, at least one of them, and
/// stand for that number.
pub proof fn lemma_decimal_digits(n: nat)
    ensures
        decimal_digits(n).len() >= 1,
        forall|i: int| 0 <= i < decimal_digits(n).len() ==> is_digit(#[trigger] decimal_digits(n)[i]),
        digits_value(decimal_digits(n)) == n,
    decreases n,
{
    let digits = decimal_digits(n);
    if n < 10 {
        assert(digits.drop_last() =~= Seq::<char>::empty());
        assert(digits_value(digits.drop_last()) == 0);
        assert(digit_of(digit_char(n as int)) == n);
    } else {
        lemma_decimal_digits(n / 10);
        assert(digits.drop_last() =~= decimal_digits(n / 10));
        assert(digit_of(digit_char((n % 10) as int)) == n % 10);
        assert(is_digit(digit_char((n % 10) as int)));
    }
}

/// A run of digits that is followed by no further digit is all that the
/// text starts with in digits.
pub proof fn lemma_leading_digits(digits: Seq<char>, rest: Seq<char>)
    requires
        forall|i: int| 0 <= i < digits.len() ==> is_digit(#[trigger] digits[i]),
        ends_number(rest),
    ensures
        leading_digits(digits + rest) == digits.len(),
    decreases digits.len(),
{
    let text = digits + rest;
    if digits.len() == 0 {
        assert(text =~= rest);
    } else {
        assert(text[0] == digits[0]);
        assert(text.drop_first() =~= digits.drop_first() + rest);
        assert forall|i: int| 0 <= i < digits.drop_first().len() implies is_digit(
            #[trigger] digits.drop_first()[i],
        ) by {
            assert(digits.drop_first()[i] == digits[i + 1]);
        }
        lemma_leading_digits(digits.drop_first(), rest);
    }
}

/// A word written in front of a text is found again in front of the words
/// of that text, as long as a number is not run together with digits that
/// follow it.
pub proof fn lemma_scan_word(word: Word, rest: Seq<char>)
    requires
        word is Number ==> ends_number(rest),
    ensures
        scan(word_text(word) + rest) == and_then_words(word, scan(rest)),
{
    let text = word_text(word) + rest;
    match word {
        Word::Number(n) => {
            let magnitude: nat = if n < 0 {
                (-n) as nat
            } else {
                n as nat
            };
            let digits = decimal_digits(magnitude);
            lemma_decimal_digits(magnitude);
            lemma_leading_digits(digits, rest);
            assert(is_digit(digits[0]));
            if n < 0 {
                assert(text[0] == '-');
                let body = text.drop_first();
                assert(body =~= digits + rest);
                assert(body.take(digits.len() as int) =~= digits);
                assert(body.skip(digits.len() as int) =~= rest);
            } else {
                assert(text =~= digits + rest);
                assert(text[0] == digits[0]);
                assert(text.take(digits.len() as int) =~= digits);
                assert(text.skip(digits.len() as int) =~= rest);
            }
        },
        Word::Sign(op) => {
            let after_space = text.drop_first();
            assert(text[0] == ' ');
            assert(after_space[0] == op.symbol_char());
            assert(sign_of(op.symbol_char()) == Some(op));
            let after_sign = after_space.drop_first();
            assert(after_sign[0] == ' ');
            assert(after_sign.drop_first() =~= rest);
            assert(scan(after_sign) == scan(rest));
            assert(scan(after_space) == and_then_words(word, scan(rest)));
        },
        Word::Open => {
            assert(text[0] == '(');
            assert(text.drop_first() =~= rest);
        },
        Word::Close => {
            assert(text[0] == ')');
            assert(text.drop_first() =~= rest);
        },
    }
}

/// Words that are written and then looked for are found again, as long as
/// no two numbers stand side by side.
pub proof fn lemma_scan_written(words: Seq<Word>)
    requires
        separated(words),
    ensures
        scan(written(words)) == Some(words),
    decreases words.len(),
{
    if words.len() > 0 {
        let rest = words.drop_first();
        assert forall|i: int| 0 <= i < rest.len() - 1 implies !(#[trigger] rest[i] is Number
            && rest[i + 1] is Number) by {
            assert(rest[i] == words[i + 1]);
            assert(!(words[i + 1] is Number && words[i + 2] is Number));
        }
        lemma_scan_written(rest);
        if words[0] is Number {
            if rest.len() > 0 {
                assert(!(words[0] is Number && words[1] is Number));
                assert(rest[0] == words[1]);
                lemma_first_char(rest);
            }
        }
        lemma_scan_word(words[0], written(rest));
        assert(seq![words[0]] + rest =~= words);
    }
}

/// Words that do not start with a number are not written with a digit in
/// front; a text of no words is empty.
pub proof fn lemma_first_char(words: Seq<Word>)
    requires
        words.len() > 0 ==> !(words[0] is Number),
    ensures
        ends_number(written(words)),
{
    if words.len() > 0 {
        let text = written(words);
        assert(text[0] == word_text(words[0])[0]);
        match words[0] {
            Word::Sign(op) => {},
            Word::Open => {},
            Word::Close => {},
            Word::Number(n) => {},
        }
    }
}

/// Writing one list of words after another is writing the two together.
pub proof fn lemma_written_together(first: Seq<Word>, second: Seq<Word>)
    ensures
        written(first + second) == written(first) + written(second),
    decreases first.len(),
{
    if first.len() == 0 {
        assert(first + second =~= second);
        assert(written(first) + written(second) =~= written(second));
    } else {
        assert((first + second).drop_first() =~= first.drop_first() + second);
        lemma_written_together(first.drop_first(), second);
        assert(word_text(first[0]) + (written(first.drop_first()) + written(second)) =~= (
        word_text(first[0]) + written(first.drop_first())) + written(second));
    }
}

/// One word is written as its text.
pub proof fn lemma_written_word(word: Word)
    ensures
        written(seq![word]) == word_text(word),
{
    let words = seq![word];
    assert(words.drop_first() =~= Seq::<Word>::empty());
    assert(written(words.drop_first()) =~= Seq::<char>::empty());
    assert(word_text(word) + Seq::<char>::empty() =~= word_text(word));
}

/// Bracketed words are written as the bracketed text.
pub proof fn lemma_written_wrapped(words: Seq<Word>)
    ensures
        written(wrapped(words)) == bracketed(written(words)),
{
    lemma_written_together(seq![Word::Open] + words, seq![Word::Close]);
    lemma_written_together(seq![Word::Open], words);
    lemma_written_word(Word::Open);
    lemma_written_word(Word::Close);
}

/// The words of an expression's infix form are written as its infix form,
/// and no two numbers stand side by side in them.
pub proof fn lemma_infix_words_written(expr: Expr)
    ensures
        written(expr.infix_words()) == expr.infix(),
        separated(expr.infix_words()),
        expr.infix_words().len() >= 1,
    decreases expr,
{
    match expr {
        Expr::Number(n) => {
            lemma_written_word(Word::Number(n));
        },
        Expr::Binary(op, left, right) => {
            lemma_infix_words_written(*left);
            lemma_infix_words_written(*right);
            let lead = Expr::left_words(op, *left);
            let tail = Expr::right_words(op, *right);
            let sign = seq![Word::Sign(op)];
            lemma_written_wrapped(left.infix_words());
            lemma_written_wrapped(right.infix_words());
            lemma_separated_wrapped(left.infix_words());
            lemma_separated_wrapped(right.infix_words());
            lemma_written_together(lead + sign, tail);
            lemma_written_together(lead, sign);
            lemma_written_word(Word::Sign(op));
            lemma_separated_around(lead, Word::Sign(op), tail);
        },
    }
}

/// Two lists of words with something other than a number between them have
/// no two numbers side by side if neither list has.
pub proof fn lemma_separated_around(first: Seq<Word>, between: Word, second: Seq<Word>)
    requires
        separated(first),
        separated(second),
        !(between is Number),
    ensures
        separated(first + seq![between] + second),
{
    let all = first + seq![between] + second;
    assert forall|i: int| 0 <= i < all.len() - 1 implies !(#[trigger] all[i] is Number && all[i
        + 1] is Number) by {
        if i + 1 < first.len() {
            assert(all[i] == first[i] && all[i + 1] == first[i + 1]);
        } else if i + 1 == first.len() {
            assert(all[i + 1] == between);
        } else if i == first.len() {
            assert(all[i] == between);
        } else {
            let k = i - first.len() - 1;
            assert(all[i] == second[k] && all[i + 1] == second[k + 1]);
        }
    }
}

/// Bracketing keeps numbers apart.
pub proof fn lemma_separated_wrapped(words: Seq<Word>)
    requires
        separated(words),
    ensures
        separated(wrapped(words)),
{
    let all = wrapped(words);
    assert forall|i: int| 0 <= i < all.len() - 1 implies !(#[trigger] all[i] is Number && all[i
        + 1] is Number) by {
        if i == 0 {
            assert(all[0] == Word::Open);
        } else if i + 1 == all.len() - 1 {
            assert(all[i + 1] == Word::Close);
        } else {
            assert(all[i] == words[i - 1] && all[i + 1] == words[i]);
        }
    }
}

} // verus!
