use vstd::prelude::*;

verus! {

/// The binary operators an expression can hold.
#[derive(Clone, Copy, Debug, PartialEq, Eq, Structural)]
pub enum Operator {
    Plus,
    Minus,
    Multiply,
    Divide,
    Power,
}

pub const PLUS: char = '+';

pub const MINUS: char = '-';

pub const MULTIPLY: char = 'x';

pub const DIVIDE: char = '/';

pub const EQUAL: char = '=';

pub const POWER: char = '^';

pub open spec fn is_digit(c: char) -> bool {
    '0' <= c && c <= '9'
}

/// The operator symbols, `=` among them.
pub open spec fn is_operator_char(c: char) -> bool {
    c == PLUS || c == MINUS || c == MULTIPLY || c == DIVIDE || c == EQUAL || c == POWER
}

/// How many decimal points `s` holds.
pub open spec fn point_count(s: Seq<char>) -> nat
    decreases s.len(),
{
    if s.len() == 0 {
        0
    } else {
        point_count(s.drop_last()) + if s.last() == '.' {
            1nat
        } else {
            0nat
        }
    }
}

/// A numeric literal: digits and at most one decimal point, with at least one digit.
pub open spec fn is_numeric_literal(s: Seq<char>) -> bool {
    &&& forall|i: int| 0 <= i < s.len() ==> is_digit(#[trigger] s[i]) || s[i] == '.'
    &&& point_count(s) <= 1
    &&& exists|i: int| 0 <= i < s.len() && is_digit(#[trigger] s[i])
}

/// A token made of exactly one operator symbol.
pub open spec fn is_operator_token(s: Seq<char>) -> bool {
    s.len() == 1 && is_operator_char(s[0])
}

pub open spec fn operator_of(c: char) -> Option<Operator> {
    if c == PLUS {
        Some(Operator::Plus)
    } else if c == MINUS {
        Some(Operator::Minus)
    } else if c == MULTIPLY {
        Some(Operator::Multiply)
    } else if c == DIVIDE {
        Some(Operator::Divide)
    } else if c == POWER {
        Some(Operator::Power)
    } else {
        None
    }
}

/// One of the five binary operators `+ - x / ^` (so not `=`).
pub open spec fn is_binary_operator_char(c: char) -> bool {
    operator_of(c) is Some
}

/// A token made of exactly one binary operator.
pub open spec fn is_binary_operator_token(s: Seq<char>) -> bool {
    s.len() == 1 && is_binary_operator_char(s[0])
}

pub open spec fn token_operator(s: Seq<char>) -> Option<Operator> {
    if s.len() == 1 {
        operator_of(s[0])
    } else {
        None
    }
}

/// Binding strength: `+ -` bind weakest, then `x /`, then `^`; anything else is 0.
pub open spec fn char_precedence(c: char) -> nat {
    if c == PLUS || c == MINUS {
        1
    } else if c == MULTIPLY || c == DIVIDE {
        2
    } else if c == POWER {
        3
    } else {
        0
    }
}

pub open spec fn precedence(s: Seq<char>) -> nat {
    if s.len() == 1 {
        char_precedence(s[0])
    } else {
        0
    }
}

proof fn lemma_point_count_bounds(s: Seq<char>)
    ensures
        point_count(s) <= s.len(),
        (forall|i: int| 0 <= i < s.len() ==> s[i] != '.') ==> point_count(s) == 0,
    decreases s.len(),
{
    if s.len() > 0 {
        lemma_point_count_bounds(s.drop_last());
    }
}

proof fn lemma_point_count_prefix(s: Seq<char>, j: int)
    requires
        0 <= j <= s.len(),
    ensures
        point_count(s.subrange(0, j)) <= point_count(s),
    decreases s.len() - j,
{
    if j < s.len() {
        lemma_point_count_prefix(s, j + 1);
        assert(s.subrange(0, j + 1).drop_last() =~= s.subrange(0, j));
    } else {
        assert(s.subrange(0, j) =~= s);
    }
}

/// Of every string: one of digits alone (not empty) is a numeric literal; one that
/// holds a character other than a digit or a decimal point is not; nor is one with
/// two or more decimal points.
pub proof fn lemma_numeric_literal_laws(s: Seq<char>)
    ensures
        s.len() > 0 && (forall|i: int| 0 <= i < s.len() ==> is_digit(#[trigger] s[i]))
            ==> is_numeric_literal(s),
        (exists|i: int| 0 <= i < s.len() && !is_digit(#[trigger] s[i]) && s[i] != '.')
            ==> !is_numeric_literal(s),
        point_count(s) >= 2 ==> !is_numeric_literal(s),
{
    lemma_point_count_bounds(s);
    if s.len() > 0 && (forall|i: int| 0 <= i < s.len() ==> is_digit(#[trigger] s[i])) {
        assert(is_digit(s[0]));
    }
}

/// True exactly for the characters `0` to `9`.
pub fn is_number(character: &char) -> (r: bool)
    ensures
        r == is_digit(*character),
{
    '0' <= *character && *character <= '9'
}

/// True exactly for the operator symbols `+ - x / = ^`.
pub fn is_operator(character: &char) -> (r: bool)
    ensures
        r == is_operator_char(*character),
{
    let c = *character;
    c == PLUS || c == MINUS || c == MULTIPLY || c == DIVIDE || c == EQUAL || c == POWER
}

/// True exactly when `text` is one operator symbol.
pub fn str_is_operator(text: &str) -> (r: bool)
    ensures
        r == is_operator_token(text@),
{
    if text.unicode_len() != 1 {
        return false;
    }
    is_operator(&text.get_char(0))
}

/// Decides whether `text` is a numeric literal.
pub fn contains_only_numbers(text: &str) -> (r: bool)
    ensures
        r == is_numeric_literal(text@),
{
    let n = text.unicode_len();
    let mut digit_found = false;
    let mut point_found = false;
    let mut i: usize = 0;
    while i < n
        invariant
            n == text@.len(),
            i <= n,
            forall|j: int| 0 <= j < i ==> is_digit(#[trigger] text@[j]) || text@[j] == '.',
            point_count(text@.subrange(0, i as int)) == if point_found {
                1nat
            } else {
                0nat
            },
            digit_found == exists|j: int| 0 <= j < i && is_digit(#[trigger] text@[j]),
        decreases n - i,
    {
        let ch = text.get_char(i);
        assert(text@.subrange(0, i + 1).drop_last() =~= text@.subrange(0, i as int));
        if is_number(&ch) {
            digit_found = true;
        } else if ch == '.' && !point_found {
            point_found = true;
        } else {
            proof {
                if ch == '.' {
                    lemma_point_count_prefix(text@, i + 1);
                }
            }
            return false;
        }
        i += 1;
    }
    assert(text@.subrange(0, n as int) =~= text@);
    digit_found
}

/// The operator that the symbol stands for; `None` for any other character.
pub fn parse_operator(operator: &char) -> (r: Option<Operator>)
    ensures
        r == operator_of(*operator),
{
    let c = *operator;
    if c == PLUS {
        Some(Operator::Plus)
    } else if c == MINUS {
        Some(Operator::Minus)
    } else if c == MULTIPLY {
        Some(Operator::Multiply)
    } else if c == DIVIDE {
        Some(Operator::Divide)
    } else if c == POWER {
        Some(Operator::Power)
    } else {
        None
    }
}

/// The operator that a one-character token stands for.
pub fn parse_str_operator(text: &str) -> (r: Option<Operator>)
    ensures
        r == token_operator(text@),
{
    if text.unicode_len() == 1 {
        parse_operator(&text.get_char(0))
    } else {
        None
    }
}

pub fn get_character_precedence(operator: &char) -> (r: usize)
    ensures
        r == char_precedence(*operator),
{
    let c = *operator;
    if c == PLUS || c == MINUS {
        1
    } else if c == MULTIPLY || c == DIVIDE {
        2
    } else if c == POWER {
        3
    } else {
        0
    }
}

pub fn get_precedence(text: &str) -> (r: usize)
    ensures
        r == precedence(text@),
{
    if text.unicode_len() == 1 {
        get_character_precedence(&text.get_char(0))
    } else {
        0
    }
}

} // verus!
