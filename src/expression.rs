use vstd::prelude::*;

use crate::classify::{
    contains_only_numbers, is_binary_operator_char, is_binary_operator_token, is_numeric_literal,
    parse_operator,
};

verus! {

/// Why an expression could not be worked out.
#[derive(Clone, Copy, Debug, PartialEq, Eq, Structural)]
pub enum CalculationError {
    InvalidExpression,
    DivideByZero,
}

/// The text of each token.
pub open spec fn token_views(tokens: Seq<&str>) -> Seq<Seq<char>> {
    tokens.map_values(|t: &str| t@)
}

/// Splits `s` at every binary operator (`+ - x / ^`) but one in first place: each such
/// operator becomes a token of its own, between the runs of text before and after it. Any
/// other character, `=` among them, stays inside its run.
pub open spec fn split_tokens(s: Seq<char>) -> Seq<Seq<char>>
    decreases s.len(),
{
    if s.len() == 0 {
        seq![Seq::empty()]
    } else {
        let t = split_tokens(s.drop_last());
        let c = s.last();
        if is_binary_operator_char(c) && s.len() > 1 {
            t.push(seq![c]).push(Seq::empty())
        } else {
            t.update(t.len() - 1, t.last().push(c))
        }
    }
}

/// Every run of text between binary operators is a numeric literal.
pub open spec fn expression_is_valid(s: Seq<char>) -> bool {
    let t = split_tokens(s);
    forall|k: int| 0 <= k < t.len() && k % 2 == 0 ==> is_numeric_literal(#[trigger] t[k])
}

proof fn lemma_split_shape(s: Seq<char>)
    ensures
        split_tokens(s).len() % 2 == 1,
        forall|k: int|
            0 <= k < split_tokens(s).len() && k % 2 == 1 ==> is_binary_operator_token(
                #[trigger] split_tokens(s)[k],
            ),
        split_tokens(s).flatten() == s,
    decreases s.len(),
{
    if s.len() > 0 {
        let p = s.drop_last();
        let c = s.last();
        lemma_split_shape(p);
        let t = split_tokens(p);
        assert(t.len() >= 1);
        if is_binary_operator_char(c) && s.len() > 1 {
            t.lemma_flatten_push(seq![c]);
            t.push(seq![c]).lemma_flatten_push(Seq::empty());
            assert(t.flatten() + seq![c] + Seq::<char>::empty() =~= s);
        } else {
            let u = t.update(t.len() - 1, t.last().push(c));
            t.drop_last().lemma_flatten_push(t.last());
            t.drop_last().lemma_flatten_push(t.last().push(c));
            assert(t.drop_last().push(t.last()) =~= t);
            assert(t.drop_last().push(t.last().push(c)) =~= u);
            assert(t.flatten() == t.drop_last().flatten() + t.last());
            assert(p.push(c) =~= s);
            assert(t.drop_last().flatten() + t.last().push(c) =~= (t.drop_last().flatten()
                + t.last()).push(c));
        }
    } else {
        seq![Seq::<char>::empty()].lemma_flatten_one_element();
        assert(seq![Seq::<char>::empty()].flatten() =~= s);
    }
}

/// Every token of the split of a prefix but the last one stands in the split of a longer
/// prefix too.
proof fn lemma_split_prefix(s: Seq<char>, j: int, m: int)
    requires
        0 <= j <= m <= s.len(),
    ensures
        split_tokens(s.subrange(0, j)).len() <= split_tokens(s.subrange(0, m)).len(),
        forall|k: int|
            0 <= k < split_tokens(s.subrange(0, j)).len() - 1 ==> #[trigger] split_tokens(
                s.subrange(0, m),
            )[k] == split_tokens(s.subrange(0, j))[k],
    decreases m - j,
{
    if j < m {
        lemma_split_prefix(s, j, m - 1);
        assert(s.subrange(0, m).drop_last() =~= s.subrange(0, m - 1));
    }
}

/// A buffer's tokens strictly alternate numeric literal, operator, ..., numeric literal
/// when the buffer is a valid expression, and joined in order they give the buffer back.
pub proof fn lemma_tokens_alternate_and_rejoin(s: Seq<char>)
    requires
        expression_is_valid(s),
    ensures
        split_tokens(s).len() % 2 == 1,
        forall|k: int|
            0 <= k < split_tokens(s).len() && k % 2 == 0 ==> is_numeric_literal(
                #[trigger] split_tokens(s)[k],
            ),
        forall|k: int|
            0 <= k < split_tokens(s).len() && k % 2 == 1 ==> is_binary_operator_token(
                #[trigger] split_tokens(s)[k],
            ),
        split_tokens(s).flatten() == s,
{
    lemma_split_shape(s);
}

/// Splits `expression` into its tokens: numeric literals with one binary operator
/// between each two. Fails with `InvalidExpression` where a run between operators is
/// not a numeric literal (so also on an empty buffer, or one that starts or ends with an
/// operator).
pub fn parse_expression<'a>(expression: &'a str) -> (r: Result<Vec<&'a str>, CalculationError>)
    ensures
        match r {
            Ok(tokens) => {
                &&& expression_is_valid(expression@)
                &&& token_views(tokens@) == split_tokens(expression@)
                &&& token_views(tokens@).flatten() == expression@
            },
            Err(e) => !expression_is_valid(expression@) && e == CalculationError::InvalidExpression,
        },
{
    let n = expression.unicode_len();
    let mut parsed: Vec<&'a str> = Vec::new();
    let mut start: usize = 0;
    let mut i: usize = 0;
    assert(token_views(parsed@).push(expression@.subrange(0, 0)) =~~= split_tokens(
        expression@.subrange(0, 0),
    ));
    while i < n
        invariant
            n == expression@.len(),
            start <= i <= n,
            parsed@.len() % 2 == 0,
            token_views(parsed@).push(expression@.subrange(start as int, i as int))
                == split_tokens(expression@.subrange(0, i as int)),
            forall|k: int|
                0 <= k < parsed@.len() && k % 2 == 0 ==> is_numeric_literal(#[trigger] parsed@[k]@),
        decreases n - i,
    {
        let character = expression.get_char(i);
        let ghost s = expression@;
        let ghost before = token_views(parsed@);
        assert(s.subrange(0, i + 1).drop_last() =~= s.subrange(0, i as int));
        assert(s.subrange(0, i + 1).last() == character);
        if parse_operator(&character).is_some() && i > 0 {
            let segment = expression.substring_char(start, i);
            if contains_only_numbers(segment) {
                parsed.push(segment);
                start = i + 1;
            } else {
                proof {
                    let k = before.len() as int;
                    let full = split_tokens(s.subrange(0, i + 1));
                    assert(full[k] == segment@);
                    lemma_split_prefix(s, i + 1, n as int);
                    assert(s.subrange(0, n as int) =~= s);
                    assert(split_tokens(s)[k] == segment@);
                }
                return Err(CalculationError::InvalidExpression);
            }
            let operator = expression.substring_char(i, start);
            assert(operator@ =~= seq![character]);
            parsed.push(operator);
            assert(token_views(parsed@).push(s.subrange(start as int, i + 1)) =~~= before.push(
                segment@,
            ).push(seq![character]).push(Seq::empty()));
        } else {
            assert(token_views(parsed@).push(s.subrange(start as int, i + 1)) =~~= before.push(
                s.subrange(start as int, i as int),
            ).update(before.len() as int, s.subrange(start as int, i as int).push(character)));
        }
        i += 1;
    }
    let ghost s = expression@;
    assert(s.subrange(0, n as int) =~= s);
    let last = expression.substring_char(start, n);
    if contains_only_numbers(last) {
        parsed.push(last);
        assert(token_views(parsed@) =~~= split_tokens(s));
        proof {
            lemma_split_shape(s);
            assert forall|k: int|
                0 <= k < split_tokens(s).len() && k % 2 == 0 implies is_numeric_literal(
                #[trigger] split_tokens(s)[k],
            ) by {
                assert(split_tokens(s)[k] == token_views(parsed@)[k]);
            }
        }
        Ok(parsed)
    } else {
        assert(split_tokens(s)[split_tokens(s).len() - 1] == last@);
        Err(CalculationError::InvalidExpression)
    }
}

} // verus!
