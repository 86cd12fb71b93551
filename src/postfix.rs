use vstd::prelude::*;

use crate::classify::{
    contains_only_numbers, get_precedence, is_binary_operator_token, is_digit, is_numeric_literal,
    is_operator_token, precedence, str_is_operator,
};
use crate::expression::{
    expression_is_valid, lemma_tokens_alternate_and_rejoin, split_tokens, token_views,
};

verus! {

/// How many operators, counted from the top of `stack`, bind at least as strongly as
/// precedence `p` before the first one that binds less strongly.
pub open spec fn pop_count(stack: Seq<Seq<char>>, p: nat) -> nat
    decreases stack.len(),
{
    if stack.len() > 0 && precedence(stack.last()) >= p {
        1 + pop_count(stack.drop_last(), p)
    } else {
        0
    }
}

/// One step of the conversion, on the output so far and the operator stack: a number
/// goes to the output; an operator first moves to the output every operator on top of
/// the stack that binds at least as strongly, topmost first, then goes on the stack;
/// any other token is passed over.
pub open spec fn shunt_step(
    state: (Seq<Seq<char>>, Seq<Seq<char>>),
    t: Seq<char>,
) -> (Seq<Seq<char>>, Seq<Seq<char>>) {
    let out = state.0;
    let stack = state.1;
    if is_numeric_literal(t) {
        (out.push(t), stack)
    } else if is_operator_token(t) {
        let n = pop_count(stack, precedence(t));
        (
            out + stack.subrange(stack.len() - n, stack.len() as int).reverse(),
            stack.subrange(0, stack.len() - n).push(t),
        )
    } else {
        state
    }
}

/// The output and the operator stack once every token has been taken in turn.
pub open spec fn shunt(tokens: Seq<Seq<char>>) -> (Seq<Seq<char>>, Seq<Seq<char>>)
    decreases tokens.len(),
{
    if tokens.len() == 0 {
        (Seq::empty(), Seq::empty())
    } else {
        shunt_step(shunt(tokens.drop_last()), tokens.last())
    }
}

/// The tokens in postfix order: the output, then what is left on the stack, topmost first.
pub open spec fn postfix(tokens: Seq<Seq<char>>) -> Seq<Seq<char>> {
    let state = shunt(tokens);
    state.0 + state.1.reverse()
}

/// How many values a stack holds after running `tokens` in order, a number pushing one
/// and a binary operator taking two and giving back one; `None` once an operator finds
/// fewer than two. Other tokens leave the stack alone.
pub open spec fn stack_depth(tokens: Seq<Seq<char>>) -> Option<int>
    decreases tokens.len(),
{
    if tokens.len() == 0 {
        Some(0)
    } else {
        match stack_depth(tokens.drop_last()) {
            None => None,
            Some(d) => if is_numeric_literal(tokens.last()) {
                Some(d + 1)
            } else if is_binary_operator_token(tokens.last()) {
                if d >= 2 {
                    Some(d - 1)
                } else {
                    None
                }
            } else {
                Some(d)
            },
        }
    }
}

proof fn lemma_operator_not_numeric(t: Seq<char>)
    requires
        is_binary_operator_token(t),
    ensures
        !is_numeric_literal(t),
        is_operator_token(t),
{
    assert(!is_digit(t[0]) && t[0] != '.');
}

proof fn lemma_pop_count_bound(stack: Seq<Seq<char>>, p: nat)
    ensures
        pop_count(stack, p) <= stack.len(),
    decreases stack.len(),
{
    if stack.len() > 0 {
        lemma_pop_count_bound(stack.drop_last(), p);
    }
}

/// Running operators after a sequence that leaves `d` values takes one value each, as
/// long as at least one value remains.
proof fn lemma_depth_after_operators(out: Seq<Seq<char>>, ops: Seq<Seq<char>>, d: int)
    requires
        stack_depth(out) == Some(d),
        ops.len() < d,
        forall|k: int| 0 <= k < ops.len() ==> is_binary_operator_token(#[trigger] ops[k]),
    ensures
        stack_depth(out + ops) == Some(d - ops.len()),
    decreases ops.len(),
{
    if ops.len() > 0 {
        let init = ops.drop_last();
        lemma_depth_after_operators(out, init, d);
        assert((out + ops).drop_last() =~= out + init);
        assert((out + ops).last() == ops.last());
        lemma_operator_not_numeric(ops.last());
    } else {
        assert(out + ops =~= out);
    }
}

/// After a prefix of an alternating token sequence, the stack holds operators only and the
/// output leaves as many values as the stack holds operators, one more after a number.
proof fn lemma_shunt_depth(t: Seq<Seq<char>>, i: int)
    requires
        0 <= i <= t.len(),
        forall|k: int| 0 <= k < t.len() && k % 2 == 0 ==> is_numeric_literal(#[trigger] t[k]),
        forall|k: int| 0 <= k < t.len() && k % 2 == 1 ==> is_binary_operator_token(#[trigger] t[k]),
    ensures
        forall|k: int|
            0 <= k < shunt(t.subrange(0, i)).1.len() ==> is_binary_operator_token(
                #[trigger] shunt(t.subrange(0, i)).1[k],
            ),
        stack_depth(shunt(t.subrange(0, i)).0) == Some(
            shunt(t.subrange(0, i)).1.len() + if i % 2 == 0 {
                0int
            } else {
                1int
            },
        ),
    decreases i,
{
    if i > 0 {
        lemma_shunt_depth(t, i - 1);
        let prefix = t.subrange(0, i);
        assert(prefix.drop_last() =~= t.subrange(0, i - 1));
        assert(prefix.last() == t[i - 1]);
        let out = shunt(t.subrange(0, i - 1)).0;
        let st = shunt(t.subrange(0, i - 1)).1;
        let x = t[i - 1];
        if (i - 1) % 2 == 0 {
            assert(out.push(x).drop_last() =~= out);
        } else {
            lemma_operator_not_numeric(x);
            let n = pop_count(st, precedence(x));
            lemma_pop_count_bound(st, precedence(x));
            let popped = st.subrange(st.len() - n, st.len() as int).reverse();
            assert forall|k: int| 0 <= k < popped.len() implies is_binary_operator_token(
                #[trigger] popped[k],
            ) by {
                assert(popped[k] == st[st.len() - 1 - k]);
            }
            lemma_depth_after_operators(out, popped, st.len() + 1int);
            let rest = st.subrange(0, st.len() - n).push(x);
            assert forall|k: int| 0 <= k < rest.len() implies is_binary_operator_token(
                #[trigger] rest[k],
            ) by {
                if k < rest.len() - 1 {
                    assert(rest[k] == st[k]);
                }
            }
        }
    }
}

/// The postfix form of a valid expression is well formed: every operator finds at least
/// two values before it, and running the whole leaves exactly one.
pub proof fn lemma_postfix_leaves_one_value(s: Seq<char>)
    requires
        expression_is_valid(s),
    ensures
        stack_depth(postfix(split_tokens(s))) == Some(1int),
{
    let t = split_tokens(s);
    lemma_tokens_alternate_and_rejoin(s);
    lemma_shunt_depth(t, t.len() as int);
    assert(t.subrange(0, t.len() as int) =~= t);
    let st = shunt(t).1;
    assert forall|k: int| 0 <= k < st.reverse().len() implies is_binary_operator_token(
        #[trigger] st.reverse()[k],
    ) by {
        assert(st.reverse()[k] == st[st.len() - 1 - k]);
    }
    lemma_depth_after_operators(shunt(t).0, st.reverse(), st.len() + 1int);
}

proof fn lemma_pop_count(stack: Seq<Seq<char>>, p: nat, n: int)
    requires
        0 <= n <= stack.len(),
        forall|k: int| stack.len() - n <= k < stack.len() ==> precedence(#[trigger] stack[k]) >= p,
        n == stack.len() || precedence(stack[stack.len() - 1 - n]) < p,
    ensures
        pop_count(stack, p) == n,
    decreases n,
{
    if n > 0 {
        let d = stack.drop_last();
        assert forall|k: int| d.len() - (n - 1) <= k < d.len() implies precedence(
            #[trigger] d[k],
        ) >= p by {
            assert(d[k] == stack[k]);
        }
        if n - 1 < d.len() {
            assert(d[d.len() - 1 - (n - 1)] == stack[stack.len() - 1 - n]);
        }
        lemma_pop_count(d, p, n - 1);
    }
}

/// Moves to `output`, topmost first, the operators on top of `operator_stack` that bind
/// at least as strongly as `current_token`, stopping at the first that does not, and
/// returns how many it moved. The stack itself is left to the caller.
pub fn flush_operator_stack<'a>(
    output: &mut Vec<&'a str>,
    operator_stack: &Vec<&'a str>,
    current_token: &'a str,
) -> (r: usize)
    ensures
        r == pop_count(token_views(operator_stack@), precedence(current_token@)),
        r <= operator_stack@.len(),
        token_views(final(output)@) == token_views(old(output)@) + token_views(
            operator_stack@,
        ).subrange(operator_stack@.len() - r, operator_stack@.len() as int).reverse(),
{
    let ghost sv = token_views(operator_stack@);
    let ghost p = precedence(current_token@);
    let len = operator_stack.len();
    let current = get_precedence(current_token);
    let mut count: usize = 0;
    let mut done = false;
    while count < len && !done
        invariant
            len == operator_stack@.len(),
            sv == token_views(operator_stack@),
            current == p,
            count <= len,
            forall|k: int| len - count <= k < len ==> precedence(#[trigger] sv[k]) >= p,
            done ==> count < len && precedence(sv[len - 1 - count]) < p,
            token_views(output@) == token_views(old(output)@) + sv.subrange(
                len - count,
                len as int,
            ).reverse(),
        decreases len - count + if done {
            0int
        } else {
            1int
        },
    {
        let operator = operator_stack[len - 1 - count];
        assert(sv[len - 1 - count] == operator@);
        if get_precedence(operator) >= current {
            let ghost before = token_views(output@);
            output.push(operator);
            assert(token_views(output@) =~= before.push(operator@));
            assert(sv.subrange(len - (count + 1), len as int).reverse() =~= sv.subrange(
                len - count,
                len as int,
            ).reverse().push(operator@));
            count += 1;
        } else {
            done = true;
        }
    }
    proof {
        lemma_pop_count(sv, p, count as int);
    }
    count
}

/// Rewrites an expression's tokens in postfix (reverse Polish) order, with `x /` binding
/// more strongly than `+ -` and `^` more strongly still; operators of equal precedence
/// group from the left.
pub fn get_reverse_polish_notation<'a>(tokens: &Vec<&'a str>) -> (r: Vec<&'a str>)
    ensures
        token_views(r@) == postfix(token_views(tokens@)),
{
    let ghost tv = token_views(tokens@);
    let mut output: Vec<&'a str> = Vec::new();
    let mut operator_stack: Vec<&'a str> = Vec::new();
    let mut i: usize = 0;
    assert(tv.subrange(0, 0) =~= Seq::<Seq<char>>::empty());
    assert(token_views(output@) =~= Seq::<Seq<char>>::empty());
    assert(token_views(operator_stack@) =~= Seq::<Seq<char>>::empty());
    while i < tokens.len()
        invariant
            i <= tokens@.len(),
            tv == token_views(tokens@),
            (token_views(output@), token_views(operator_stack@)) == shunt(tv.subrange(0, i as int)),
        decreases tokens.len() - i,
    {
        let token = tokens[i];
        let ghost out0 = token_views(output@);
        let ghost st0 = token_views(operator_stack@);
        assert(tv.subrange(0, i + 1).drop_last() =~= tv.subrange(0, i as int));
        assert(tv.subrange(0, i + 1).last() == token@);
        if contains_only_numbers(token) {
            output.push(token);
            assert(token_views(output@) =~= out0.push(token@));
        } else if str_is_operator(token) {
            let ghost n = pop_count(st0, precedence(token@));
            if operator_stack.len() > 0 {
                let top = operator_stack[operator_stack.len() - 1];
                if get_precedence(token) <= get_precedence(top) {
                    let count = flush_operator_stack(&mut output, &operator_stack, token);
                    let ghost full = operator_stack@;
                    let mut j: usize = 0;
                    while j < count
                        invariant
                            j <= count <= full.len(),
                            operator_stack@ == full.subrange(0, full.len() - j),
                        decreases count - j,
                    {
                        operator_stack.pop();
                        assert(full.subrange(0, full.len() - j).drop_last() =~= full.subrange(
                            0,
                            full.len() - (j + 1),
                        ));
                        j += 1;
                    }
                    assert(token_views(operator_stack@) =~= st0.subrange(0, st0.len() - n));
                } else {
                    assert(st0.last() == top@);
                    assert(n == 0);
                    assert(st0.subrange(st0.len() - n, st0.len() as int).reverse()
                        =~= Seq::<Seq<char>>::empty());
                    assert(token_views(output@) =~= out0 + Seq::<Seq<char>>::empty());
                    assert(token_views(operator_stack@) =~= st0.subrange(0, st0.len() - n));
                }
            } else {
                assert(n == 0);
                assert(st0.subrange(0, 0).reverse() =~= Seq::<Seq<char>>::empty());
                assert(token_views(output@) =~= out0 + Seq::<Seq<char>>::empty());
                assert(token_views(operator_stack@) =~= st0.subrange(0, st0.len() - n));
            }
            let ghost st1 = token_views(operator_stack@);
            operator_stack.push(token);
            assert(token_views(operator_stack@) =~= st1.push(token@));
        }
        i += 1;
    }
    assert(tv.subrange(0, tokens.len() as int) =~= tv);
    let ghost out1 = token_views(output@);
    let ghost st = token_views(operator_stack@);
    let mut k: usize = operator_stack.len();
    while k > 0
        invariant
            k <= operator_stack@.len(),
            st == token_views(operator_stack@),
            token_views(output@) == out1 + st.subrange(k as int, st.len() as int).reverse(),
        decreases k,
    {
        k -= 1;
        let ghost before = token_views(output@);
        output.push(operator_stack[k]);
        assert(token_views(output@) =~= before.push(st[k as int]));
        assert(st.subrange(k as int, st.len() as int).reverse() =~= st.subrange(
            k + 1,
            st.len() as int,
        ).reverse().push(st[k as int]));
        assert(out1 + st.subrange(k as int, st.len() as int).reverse() =~= (out1 + st.subrange(
            k + 1,
            st.len() as int,
        ).reverse()).push(st[k as int]));
    }
    assert(st.subrange(0, st.len() as int) =~= st);
    output
}

} // verus!
