//! Decimal numbers: their digits, their value, reading and writing them.

use crate::errors::ParseError;
use vstd::arithmetic::power::pow;
use vstd::prelude::*;
use vstd::std_specs::iter::IteratorSpec;
use vstd::string::StringExecFns;

verus! {

broadcast use vstd::string::group_string_axioms;

/// The characters `0` to `9`.
pub open spec fn is_digit(c: char) -> bool {
    '0' <= c <= '9'
}

/// Text made of one digit or more, and of nothing else.
pub open spec fn is_number(text: Seq<char>) -> bool {
    &&& text.len() > 0
    &&& forall|i: int| 0 <= i < text.len() ==> is_digit(#[trigger] text[i])
}

/// The number that a run of digits stands for.
pub open spec fn number_value(digits: Seq<char>) -> nat
    decreases digits.len(),
{
    if digits.len() == 0 {
        0
    } else {
        10 * number_value(digits.drop_last()) + (digits.last() as nat - '0' as nat) as nat
    }
}

/// `text` without the plus sign that it may begin with.
pub open spec fn without_plus(text: Seq<char>) -> Seq<char> {
    if text.len() > 0 && text[0] == '+' {
        text.skip(1)
    } else {
        text
    }
}

/// The unsigned number that `text` spells, if it spells one that is at most `max`.
pub open spec fn unsigned(text: Seq<char>, max: nat) -> Option<nat> {
    let digits = without_plus(text);
    if is_number(digits) && number_value(digits) <= max {
        Some(number_value(digits))
    } else {
        None
    }
}

/// The digit that stands for `d`.
pub open spec fn digit(d: nat) -> char {
    ('0' as nat + d) as char
}

/// The decimal digits of `n`, without leading zeros.
pub open spec fn decimal(n: nat) -> Seq<char>
    decreases n,
{
    if n < 10 {
        seq![digit(n)]
    } else {
        decimal(n / 10).push(digit(n % 10))
    }
}

/// The digits of a number spell that number.
pub proof fn law_decimal_reads_back(n: nat)
    ensures
        is_number(decimal(n)),
        number_value(decimal(n)) == n,
        unsigned(decimal(n), n) == Some(n),
    decreases n,
{
    let d = n % 10;
    assert(is_digit(digit(d)));
    assert(digit(d) as nat - '0' as nat == d);
    if n < 10 {
        assert(decimal(n).drop_last() =~= Seq::empty());
        assert(number_value(decimal(n).drop_last()) == 0);
    } else {
        law_decimal_reads_back(n / 10);
        assert(decimal(n).drop_last() =~= decimal(n / 10));
    }
    assert(without_plus(decimal(n)) == decimal(n));
}

/// Digits in front of others are worth as many times more as the others have places.
pub proof fn law_digits_in_front(front: Seq<char>, digits: Seq<char>)
    ensures
        number_value(front + digits) == number_value(front) * pow(10, digits.len())
            + number_value(digits),
    decreases digits.len(),
{
    reveal(pow);
    if digits.len() == 0 {
        assert(front + digits =~= front);
    } else {
        let fewer = digits.drop_last();
        assert((front + digits).drop_last() =~= front + fewer);
        assert((front + digits).last() == digits.last());
        law_digits_in_front(front, fewer);
        assert(pow(10, digits.len()) == 10 * pow(10, fewer.len()));
        assert(number_value(front) * (10 * pow(10, fewer.len())) == 10 * (number_value(front)
            * pow(10, fewer.len()))) by (nonlinear_arith);
    }
}

/// A run of digits is worth the sum of its digits, each times ten to the power of the places
/// behind it. The characters of the digits follow each other, from 48 on.
pub proof fn law_number_value(digits: Seq<char>)
    requires
        forall|i: int| 0 <= i < digits.len() ==> '0' <= #[trigger] digits[i] <= '9',
    ensures
        number_value(digits) == Seq::new(
            digits.len(),
            |i: int| (digits[i] as int - 48) * pow(10, (digits.len() - 1 - i) as nat),
        ).fold_right(|term: int, sum: int| term + sum, 0),
    decreases digits.len(),
{
    let terms = Seq::new(
        digits.len(),
        |i: int| (digits[i] as int - 48) * pow(10, (digits.len() - 1 - i) as nat),
    );
    let add = |term: int, sum: int| term + sum;
    terms.lemma_fold_right_alt(add, 0);
    if digits.len() > 0 {
        let first = digits.take(1);
        let fewer = digits.drop_first();
        let fewer_terms = Seq::new(
            fewer.len(),
            |i: int| (fewer[i] as int - 48) * pow(10, (fewer.len() - 1 - i) as nat),
        );
        assert forall|i: int| 0 <= i < fewer.len() implies '0' <= #[trigger] fewer[i] <= '9' by {
            assert(fewer[i] == digits[i + 1]);
        }
        law_number_value(fewer);
        fewer_terms.lemma_fold_right_alt(add, 0);
        assert(terms.subrange(1, terms.len() as int) =~= fewer_terms);
        assert(first + fewer =~= digits);
        law_digits_in_front(first, fewer);
        assert(first.drop_last() =~= Seq::empty());
        assert(number_value(first.drop_last()) == 0);
        assert('0' <= digits[0] <= '9');
        assert(number_value(first) == digits[0] as int - 48);
    }
}

/// A text spells a number if it is one digit or more, and nothing else, behind a plus sign or
/// not. It spells the number that its digits are worth, and none if that is more than `max`.
pub proof fn law_unsigned(text: Seq<char>, max: nat)
    ensures
        text.len() > 0 && (forall|i: int| 0 <= i < text.len() ==> '0' <= #[trigger] text[i] <= '9')
            ==> unsigned(text, max) == if number_value(text) <= max {
            Some(number_value(text))
        } else {
            None
        },
        unsigned(seq!['+'] + text, max) == if text.len() > 0 && text[0] == '+' {
            None
        } else {
            unsigned(text, max)
        },
        unsigned(text, max) is Some ==> text.len() > 0,
        unsigned(text, max) is Some ==> text[0] == '+' || '0' <= text[0] <= '9',
        unsigned(text, max) is Some && text[0] == '+' ==> text.len() > 1,
        unsigned(text, max) is Some ==> forall|i: int|
            1 <= i < text.len() ==> '0' <= #[trigger] text[i] <= '9',
{
    if text.len() > 0 && (forall|i: int|
        0 <= i < text.len() ==> '0' <= #[trigger] text[i] <= '9') {
        assert('0' <= text[0] <= '9');
        assert(is_number(text));
    }
    assert(without_plus(seq!['+'] + text) =~= text);
    if text.len() > 0 && text[0] == '+' {
        assert(!is_digit(text[0]));
    }
    if unsigned(text, max) is Some {
        let digits = without_plus(text);
        let signs = text.len() - digits.len();
        assert(is_digit(digits[0]));
        assert forall|i: int| 1 <= i < text.len() implies '0' <= #[trigger] text[i] <= '9' by {
            assert(is_digit(digits[i - signs]));
        }
    }
}

/// A number is written in digits, without zeros in front, that are worth the number.
pub proof fn law_decimal(n: nat)
    ensures
        decimal(n).len() > 0,
        forall|i: int| 0 <= i < decimal(n).len() ==> '0' <= #[trigger] decimal(n)[i] <= '9',
        decimal(n).len() > 1 ==> decimal(n)[0] != '0',
        number_value(decimal(n)) == n,
    decreases n,
{
    law_decimal_reads_back(n);
    assert forall|i: int| 0 <= i < decimal(n).len() implies '0' <= #[trigger] decimal(n)[i]
        <= '9' by {
        assert(is_digit(decimal(n)[i]));
    }
    if n >= 10 {
        law_decimal(n / 10);
        assert(decimal(n)[0] == decimal(n / 10)[0]);
        if n < 100 {
            assert(decimal(n / 10) == seq![digit(n / 10)]);
            assert(digit(n / 10) as nat == '0' as nat + n / 10);
        } else {
            assert(decimal(n / 10).len() > 1) by {
                law_decimal(n / 100);
                assert(n / 10 / 10 == n / 100);
            }
        }
    }
}

/// The first digits of a number are worth no more than the whole.
proof fn lemma_value_of_prefix(digits: Seq<char>, i: int)
    requires
        0 <= i <= digits.len(),
    ensures
        number_value(digits.take(i)) <= number_value(digits),
    decreases digits.len() - i,
{
    if i == digits.len() {
        assert(digits.take(i) =~= digits);
    } else {
        assert(digits.take(i + 1).drop_last() =~= digits.take(i));
        lemma_value_of_prefix(digits, i + 1);
    }
}

/// The number, at most `max`, that a matched group spells.
///
/// The group must be there: the callers ask for groups that every match of their pattern has.
pub fn get_num_from_regex(m: Option<String>, max: u64) -> (number: Result<u64, ParseError>)
    requires
        m is Some,
    ensures
        match unsigned(m->0@, max as nat) {
            Some(n) => number == Ok::<u64, ParseError>(n as u64),
            None => number == Err::<u64, ParseError>(ParseError::InvalidField),
        },
{
    let ghost digits = without_plus(m->0@);
    let group: String = m.unwrap();
    let text: &str = group.as_str();
    let mut rest = text.chars();
    let mut next = rest.next();
    if let Some(c) = next {
        if c == '+' {
            next = rest.next();
        }
    }
    if next.is_none() {
        return Err(ParseError::InvalidField);
    }
    let mut value: u64 = 0;
    let ghost mut done: int = 0;
    assert(digits.take(0) =~= Seq::empty());
    while next.is_some()
        invariant
            0 <= done <= digits.len(),
            digits == without_plus(m->0@),
            rest.obeys_prophetic_iter_laws(),
            rest.decrease() is Some,
            next is Some ==> done < digits.len() && next == Some(digits[done]) && rest.remaining()
                == digits.skip(done + 1),
            next is None ==> done == digits.len(),
            value == number_value(digits.take(done)),
            forall|i: int| 0 <= i < done ==> is_digit(#[trigger] digits[i]),
        decreases digits.len() - done,
    {
        let c: char = next.unwrap();
        if c < '0' || c > '9' {
            assert(!is_digit(digits[done]));
            return Err(ParseError::InvalidField);
        }
        let d: u64 = c as u64 - '0' as u64;
        proof {
            assert(digits.take(done + 1).drop_last() =~= digits.take(done));
            lemma_value_of_prefix(digits, done + 1);
        }
        if value > (u64::MAX - d) / 10 {
            return Err(ParseError::InvalidField);
        }
        value = value * 10 + d;
        next = rest.next();
        proof {
            done = done + 1;
        }
    }
    assert(digits.take(done) =~= digits);
    if value > max {
        return Err(ParseError::InvalidField);
    }
    Ok(value)
}

/// The digit for `d` as text.
fn digit_text(d: u64) -> (text: &'static str)
    requires
        d < 10,
    ensures
        text@ == seq![digit(d as nat)],
{
    proof {
        reveal_strlit("0");
        reveal_strlit("1");
        reveal_strlit("2");
        reveal_strlit("3");
        reveal_strlit("4");
        reveal_strlit("5");
        reveal_strlit("6");
        reveal_strlit("7");
        reveal_strlit("8");
        reveal_strlit("9");
    }
    let text: &'static str = match d {
        0 => "0",
        1 => "1",
        2 => "2",
        3 => "3",
        4 => "4",
        5 => "5",
        6 => "6",
        7 => "7",
        8 => "8",
        _ => "9",
    };
    assert(text@ =~= seq![digit(d as nat)]);
    text
}

/// Writes `n` in decimal.
pub fn to_decimal(n: u64) -> (text: String)
    ensures
        text@ == decimal(n as nat),
    decreases n,
{
    let mut text: String = String::new();
    if n >= 10 {
        text = to_decimal(n / 10);
    }
    text.append(digit_text(n % 10));
    assert(text@ =~= decimal(n as nat));
    text
}

} // verus!
