//! General properties of the evaluator, stated over the specification
//! functions of the parser and proved once for all inputs.

use vstd::prelude::*;

use crate::decimal::{dec_of_chars, pow_of, Dec};
use crate::parser::{apply_op, drain_ops, flush_stage, init_state, is_digit_or_dot, is_op_char,
    lemma_reduce_tokens_concat, lemma_reduce_tokens_singleton, lemma_shunt_chars_concat,
    lemma_shunt_chars_singleton, op_of_char, reduce_tokens, settle_op, should_pop, shunt_char,
    shunt_chars, shunt_finish, spec_calc, spec_calculate, spec_reduce, spec_shunt, Operator,
    ParseErr, ShuntState, Token};

verus! {

/// A sequence is a prefix of itself.
proof fn lemma_prefix_refl<T>(s: Seq<T>)
    ensures
        s.is_prefix_of(s),
{
    assert(s =~= s.subrange(0, s.len() as int));
}

/// A sequence is a prefix of itself extended by one element.
proof fn lemma_prefix_push<T>(s: Seq<T>, x: T)
    ensures
        s.is_prefix_of(s.push(x)),
{
    assert(s =~= s.push(x).subrange(0, s.len() as int));
}

/// Being a prefix is transitive.
proof fn lemma_prefix_trans<T>(a: Seq<T>, b: Seq<T>, c: Seq<T>)
    requires
        a.is_prefix_of(b),
        b.is_prefix_of(c),
    ensures
        a.is_prefix_of(c),
{
    assert(a =~= c.subrange(0, a.len() as int));
}

/// Dividing by exact zero reports `DivisionByZero`, whatever the left
/// operand: no value is ever computed for such a division.
pub proof fn lemma_division_by_zero(left: Dec, right: Dec)
    requires
        right.is_zero(),
    ensures
        apply_op(Operator::Div, left, right) == Err::<Dec, ParseErr>(ParseErr::DivisionByZero),
{
}

/// An exponentiation whose result the decimal range cannot represent
/// reports `OutOfBounds`: no value is returned and nothing wraps around.
pub proof fn lemma_exp_out_of_bounds(left: Dec, right: Dec)
    requires
        pow_of(left, right) is None,
    ensures
        apply_op(Operator::Exp, left, right) == Err::<Dec, ParseErr>(ParseErr::OutOfBounds),
{
}

/// An empty expression has no value: evaluating it is a syntax error.
pub proof fn lemma_empty_input_rejected()
    ensures
        spec_calculate(Seq::<char>::empty()) == Err::<Dec, ParseErr>(ParseErr::SyntaxErr),
{
}

/// A reset evaluator is as good as a fresh one: evaluating any expression
/// from cleared containers is evaluating it on a freshly constructed
/// evaluator, untouched by whatever ran before the containers were cleared.
pub proof fn lemma_reset_is_fresh(chars: Seq<char>)
    ensures
        spec_calc(chars, Seq::<Token>::empty(), Seq::<Operator>::empty()).1 == spec_calculate(
            chars,
        ),
{
}

/// A single shunt step can only fail as a syntax error or as an unparsable
/// number.
proof fn lemma_shunt_char_err_kinds(st: ShuntState, c: char)
    ensures
        match shunt_char(st, c) {
            Err(e) => e == ParseErr::SyntaxErr || e == ParseErr::InvalidSymbol,
            Ok(_) => true,
        },
{
}

/// The whole character pass can only fail as a syntax error or as an
/// unparsable number.
proof fn lemma_shunt_chars_err_kinds(st: ShuntState, chars: Seq<char>)
    ensures
        match shunt_chars(st, chars).1 {
            Some(e) => e == ParseErr::SyntaxErr || e == ParseErr::InvalidSymbol,
            None => true,
        },
    decreases chars.len(),
{
    if chars.len() > 0 {
        lemma_shunt_char_err_kinds(st, chars.first());
        match shunt_char(st, chars.first()) {
            Err(_) => {},
            Ok(st1) => {
                lemma_shunt_chars_err_kinds(st1, chars.drop_first());
            },
        }
    }
}

/// A pass over characters among which one is outside the accepted alphabet
/// cannot complete.
proof fn lemma_shunt_chars_bad_char(st: ShuntState, chars: Seq<char>, i: int)
    requires
        0 <= i < chars.len(),
        !is_digit_or_dot(chars[i]),
        !is_op_char(chars[i]),
    ensures
        shunt_chars(st, chars).1 is Some,
    decreases chars.len(),
{
    match shunt_char(st, chars.first()) {
        Err(_) => {},
        Ok(st1) => {
            assert(i != 0);
            assert(chars.drop_first()[i - 1] == chars[i]);
            lemma_shunt_chars_bad_char(st1, chars.drop_first(), i - 1);
        },
    }
}

/// Any character outside digits, the decimal point and the operator
/// characters makes the whole evaluation fail: with `SyntaxErr`, or with
/// `InvalidSymbol` when a number staged before it already failed to parse.
pub proof fn lemma_bad_char_rejected(
    chars: Seq<char>,
    output0: Seq<Token>,
    stack0: Seq<Operator>,
    i: int,
)
    requires
        0 <= i < chars.len(),
        !is_digit_or_dot(chars[i]),
        !is_op_char(chars[i]),
    ensures
        ({
            let r = spec_calc(chars, output0, stack0).1;
            r == Err::<Dec, ParseErr>(ParseErr::SyntaxErr) || r == Err::<Dec, ParseErr>(
                ParseErr::InvalidSymbol,
            )
        }),
{
    let init = init_state(output0, stack0);
    lemma_shunt_chars_bad_char(init, chars, i);
    lemma_shunt_chars_err_kinds(init, chars);
}

/// One shunt step from two states whose staging buffer and operand flag
/// agree: the same error, or results that agree on those two components
/// again. Errors never depend on the output or the operator stack.
proof fn lemma_shunt_char_congruent(st1: ShuntState, st2: ShuntState, c: char)
    requires
        st1.stage == st2.stage,
        st1.expect_operand == st2.expect_operand,
    ensures
        match (shunt_char(st1, c), shunt_char(st2, c)) {
            (Ok(a), Ok(b)) => a.stage == b.stage && a.expect_operand == b.expect_operand,
            (Err(e1), Err(e2)) => e1 == e2,
            _ => false,
        },
{
}

/// The character pass from two states whose staging buffer and operand flag
/// agree stops with the same error, if any.
proof fn lemma_shunt_chars_congruent(st1: ShuntState, st2: ShuntState, chars: Seq<char>)
    requires
        st1.stage == st2.stage,
        st1.expect_operand == st2.expect_operand,
    ensures
        shunt_chars(st1, chars).1 == shunt_chars(st2, chars).1,
        shunt_chars(st1, chars).0.stage == shunt_chars(st2, chars).0.stage,
        shunt_chars(st1, chars).0.expect_operand == shunt_chars(st2, chars).0.expect_operand,
    decreases chars.len(),
{
    if chars.len() > 0 {
        lemma_shunt_char_congruent(st1, st2, chars.first());
        match (shunt_char(st1, chars.first()), shunt_char(st2, chars.first())) {
            (Ok(a), Ok(b)) => {
                lemma_shunt_chars_congruent(a, b, chars.drop_first());
            },
            _ => {},
        }
    }
}

/// The whole pass, with the final flush, from two states whose staging
/// buffer and operand flag agree stops with the same error, if any.
proof fn lemma_spec_shunt_congruent(st1: ShuntState, st2: ShuntState, chars: Seq<char>)
    requires
        st1.stage == st2.stage,
        st1.expect_operand == st2.expect_operand,
    ensures
        spec_shunt(st1, chars).1 == spec_shunt(st2, chars).1,
{
    lemma_shunt_chars_congruent(st1, st2, chars);
}

/// Settling an operator moves stack entries to the output and pushes one:
/// the output is only extended, and one token is gained overall.
proof fn lemma_settle_op_props(output: Seq<Token>, stack: Seq<Operator>, incoming: Operator)
    ensures
        settle_op(output, stack, incoming).0.len() + settle_op(output, stack, incoming).1.len()
            == output.len() + stack.len() + 1,
        output.is_prefix_of(settle_op(output, stack, incoming).0),
    decreases stack.len(),
{
    if stack.len() > 0 && should_pop(incoming, stack.last()) {
        let o2 = output.push(Token::Op(stack.last()));
        lemma_settle_op_props(o2, stack.drop_last(), incoming);
        lemma_prefix_push(output, Token::Op(stack.last()));
        lemma_prefix_trans(output, o2, settle_op(o2, stack.drop_last(), incoming).0);
    } else {
        lemma_prefix_refl(output);
    }
}

/// Draining the stack appends exactly its operators to the output.
proof fn lemma_drain_ops_props(output: Seq<Token>, stack: Seq<Operator>)
    ensures
        drain_ops(output, stack).len() == output.len() + stack.len(),
        output.is_prefix_of(drain_ops(output, stack)),
    decreases stack.len(),
{
    if stack.len() > 0 {
        let o2 = output.push(Token::Op(stack.last()));
        lemma_drain_ops_props(o2, stack.drop_last());
        lemma_prefix_push(output, Token::Op(stack.last()));
        lemma_prefix_trans(output, o2, drain_ops(o2, stack.drop_last()));
    } else {
        lemma_prefix_refl(output);
    }
}

/// One successful shunt step never shortens the output, and never loses a
/// token: what leaves the stack goes to the output.
proof fn lemma_shunt_char_props(st: ShuntState, c: char)
    ensures
        match shunt_char(st, c) {
            Ok(a) => a.output.len() + a.stack.len() >= st.output.len() + st.stack.len()
                && st.output.is_prefix_of(a.output),
            Err(_) => true,
        },
{
    if is_digit_or_dot(c) {
        lemma_prefix_refl(st.output);
    } else if is_op_char(c) {
        match flush_stage(st) {
            Err(_) => {},
            Ok(f) => {
                if st.stage.len() == 0 {
                    lemma_prefix_refl(st.output);
                } else {
                    match crate::decimal::dec_of_chars(st.stage) {
                        Some(d) => {
                            lemma_prefix_push(st.output, Token::Num(d));
                        },
                        None => {},
                    }
                }
                // Here `st.output` is a prefix of `f.output`, which is at
                // most one longer, and `f.stack == st.stack`.
                if f.expect_operand && (c == '+' || c == '-') {
                    if c == '-' {
                        lemma_prefix_push(f.output, Token::Num(Dec::spec_zero()));
                        lemma_prefix_trans(
                            st.output,
                            f.output,
                            f.output.push(Token::Num(Dec::spec_zero())),
                        );
                    }
                } else {
                    match op_of_char(c) {
                        Some(op) => {
                            lemma_settle_op_props(f.output, f.stack, op);
                            lemma_prefix_trans(
                                st.output,
                                f.output,
                                settle_op(f.output, f.stack, op).0,
                            );
                        },
                        None => {},
                    }
                }
            },
        }
    }
}

/// Over a whole character pass the output only grows, and no token is lost.
proof fn lemma_shunt_chars_props(st: ShuntState, chars: Seq<char>)
    ensures
        shunt_chars(st, chars).0.output.len() + shunt_chars(st, chars).0.stack.len()
            >= st.output.len() + st.stack.len(),
        st.output.is_prefix_of(shunt_chars(st, chars).0.output),
    decreases chars.len(),
{
    if chars.len() == 0 {
        lemma_prefix_refl(st.output);
    } else {
        lemma_shunt_char_props(st, chars.first());
        match shunt_char(st, chars.first()) {
            Err(_) => {
                lemma_prefix_refl(st.output);
            },
            Ok(a) => {
                lemma_shunt_chars_props(a, chars.drop_first());
                lemma_prefix_trans(st.output, a.output, shunt_chars(a, chars.drop_first()).0.output);
            },
        }
    }
}

/// Over the whole pass the initial output is kept as a prefix; a pass that
/// completes leaves the stack empty and an output at least as long as all
/// the tokens it started with.
proof fn lemma_spec_shunt_props(st: ShuntState, chars: Seq<char>)
    ensures
        st.output.is_prefix_of(spec_shunt(st, chars).0.output),
        spec_shunt(st, chars).1 is None ==> spec_shunt(st, chars).0.stack
            == Seq::<Operator>::empty() && spec_shunt(st, chars).0.output.len() >= st.output.len()
            + st.stack.len(),
{
    lemma_shunt_chars_props(st, chars);
    let r = shunt_chars(st, chars);
    match r.1 {
        Some(_) => {},
        None => {
            match flush_stage(r.0) {
                Err(_) => {},
                Ok(f) => {
                    if r.0.stage.len() == 0 {
                        lemma_prefix_refl(r.0.output);
                    } else {
                        match crate::decimal::dec_of_chars(r.0.stage) {
                            Some(d) => {
                                lemma_prefix_push(r.0.output, Token::Num(d));
                            },
                            None => {},
                        }
                    }
                    lemma_drain_ops_props(f.output, f.stack);
                    lemma_prefix_trans(r.0.output, f.output, drain_ops(f.output, f.stack));
                    lemma_prefix_trans(st.output, r.0.output, drain_ops(f.output, f.stack));
                },
            }
        },
    }
}

/// Reducing a non-empty token sequence, or starting from a non-empty value
/// stack, leaves at least one value when it succeeds.
proof fn lemma_reduce_nonempty(vals: Seq<Dec>, toks: Seq<Token>)
    requires
        toks.len() > 0 || vals.len() > 0,
    ensures
        match reduce_tokens(vals, toks) {
            Ok(vs) => vs.len() >= 1,
            Err(_) => true,
        },
    decreases toks.len(),
{
    if toks.len() > 0 {
        match toks.first() {
            Token::Num(d) => {
                lemma_reduce_nonempty(vals.push(d), toks.drop_first());
            },
            Token::Op(op) => {
                if vals.len() >= 2 {
                    match apply_op(op, vals[vals.len() - 2], vals.last()) {
                        Ok(v) => {
                            lemma_reduce_nonempty(
                                vals.drop_last().drop_last().push(v),
                                toks.drop_first(),
                            );
                        },
                        Err(_) => {},
                    }
                }
            },
        }
    }
}

/// Failure is idempotent: when a calculation fails, running it again on the
/// same expression, without resetting the evaluator in between, fails with
/// the very same error.
pub proof fn lemma_failure_idempotent(
    chars: Seq<char>,
    output0: Seq<Token>,
    stack0: Seq<Operator>,
    e: ParseErr,
)
    requires
        spec_calc(chars, output0, stack0).1 == Err::<Dec, ParseErr>(e),
    ensures
        ({
            let st = spec_calc(chars, output0, stack0).0;
            spec_calc(chars, st.output, st.stack).1 == Err::<Dec, ParseErr>(e)
        }),
{
    let init1 = init_state(output0, stack0);
    let run1 = spec_shunt(init1, chars);
    let st = run1.0;
    let init2 = init_state(st.output, st.stack);
    let run2 = spec_shunt(init2, chars);
    lemma_spec_shunt_congruent(init1, init2, chars);
    match run1.1 {
        Some(_) => {
            // The first pass stopped on an error; the second pass stops on
            // the same one, whatever the containers hold.
        },
        None => {
            // The first pass completed and the reduction failed.
            lemma_spec_shunt_props(init1, chars);
            lemma_spec_shunt_props(init2, chars);
            match reduce_tokens(Seq::<Dec>::empty(), st.output) {
                Err(_) => {
                    // The reducer failed inside `st.output`, which the second
                    // pass keeps as a prefix of its own output.
                    let out2 = run2.0.output;
                    let suffix = out2.skip(st.output.len() as int);
                    assert(st.output + suffix =~= out2);
                    lemma_reduce_tokens_concat(Seq::<Dec>::empty(), st.output, suffix);
                },
                Ok(vs) => {
                    // The reduction can only have failed for want of a value,
                    // which forces every container to have been empty.
                    if st.output.len() > 0 {
                        lemma_reduce_nonempty(Seq::<Dec>::empty(), st.output);
                    }
                    assert(st.output.len() == 0);
                    assert(output0.len() == 0);
                    assert(stack0.len() == 0);
                    assert(output0 =~= st.output);
                    assert(stack0 =~= st.stack);
                },
            }
        },
    }
}

/// The sequence made of `k` copies of one value.
pub open spec fn repeated<T>(x: T, k: nat) -> Seq<T> {
    Seq::new(k, |i: int| x)
}

/// A run of characters that stands for one number: non-empty, all digits or
/// the decimal point, and accepted by the decimal parser.
pub open spec fn good_group(g: Seq<char>) -> bool {
    &&& g.len() > 0
    &&& forall|i: int| 0 <= i < g.len() ==> is_digit_or_dot(#[trigger] g[i])
    &&& dec_of_chars(g) is Some
}

/// Every group of the sequence stands for a number.
pub open spec fn all_good(groups: Seq<Seq<char>>) -> bool {
    forall|i: int| 0 <= i < groups.len() ==> good_group(#[trigger] groups[i])
}

/// The infix character string `g0 o1 g1 o2 g2 ... ok gk`: the number groups
/// interleaved with one operator character between each two.
pub open spec fn infix_chars(groups: Seq<Seq<char>>, ops: Seq<char>) -> Seq<char>
    decreases groups.len(),
{
    if groups.len() == 0 {
        Seq::empty()
    } else if groups.len() == 1 {
        groups[0]
    } else {
        groups.first() + seq![ops.first()] + infix_chars(groups.drop_first(), ops.drop_first())
    }
}

/// The numbers the groups stand for.
pub open spec fn group_vals(groups: Seq<Seq<char>>) -> Seq<Dec> {
    groups.map_values(|g: Seq<char>| dec_of_chars(g)->Some_0)
}

/// The numbers as postfix tokens.
pub open spec fn num_tokens(nums: Seq<Dec>) -> Seq<Token> {
    nums.map_values(|d: Dec| Token::Num(d))
}

/// The value of a `^` chain grouped to the right: `n0 ^ (n1 ^ (... ^ nk))`,
/// the innermost power applied first, its failure reported first.
pub open spec fn pow_chain(nums: Seq<Dec>) -> Result<Dec, ParseErr>
    decreases nums.len(),
{
    if nums.len() == 0 {
        Err(ParseErr::SyntaxErr)
    } else if nums.len() == 1 {
        Ok(nums[0])
    } else {
        match pow_chain(nums.drop_first()) {
            Ok(r) => apply_op(Operator::Exp, nums.first(), r),
            Err(e) => Err(e),
        }
    }
}

/// Processing a run of digit-or-dot characters only feeds the staging
/// buffer; output and stack are untouched.
proof fn lemma_shunt_digits(st: ShuntState, g: Seq<char>)
    requires
        forall|i: int| 0 <= i < g.len() ==> is_digit_or_dot(#[trigger] g[i]),
    ensures
        shunt_chars(st, g).1 is None,
        shunt_chars(st, g).0.stage == st.stage + g,
        shunt_chars(st, g).0.expect_operand == (st.expect_operand && g.len() == 0),
        shunt_chars(st, g).0.output == st.output,
        shunt_chars(st, g).0.stack == st.stack,
    decreases g.len(),
{
    if g.len() == 0 {
        assert(st.stage + g =~= st.stage);
    } else {
        assert(is_digit_or_dot(g[0]));
        let st1 = ShuntState { stage: st.stage.push(g.first()), expect_operand: false, ..st };
        assert(shunt_char(st, g.first()) == Ok::<ShuntState, ParseErr>(st1));
        assert(forall|i: int|
            0 <= i < g.drop_first().len() ==> is_digit_or_dot(#[trigger] g.drop_first()[i]));
        lemma_shunt_digits(st1, g.drop_first());
        assert(st.stage.push(g.first()) + g.drop_first() =~= st.stage + g);
    }
}

/// Shunting a pure `^` chain: every number goes to the output, every `^` to
/// the stack (equal precedence with right associativity never pops), and the
/// last group is left staged.
proof fn lemma_shunt_exp_chain(st: ShuntState, groups: Seq<Seq<char>>)
    requires
        groups.len() >= 1,
        all_good(groups),
        st.stage.len() == 0,
        st.expect_operand == true,
        forall|i: int| 0 <= i < st.stack.len() ==> st.stack[i] == Operator::Exp,
    ensures
        ({
            let r = shunt_chars(st, infix_chars(groups, repeated('^', (groups.len() - 1) as nat)));
            &&& r.1 is None
            &&& r.0.stage == groups.last()
            &&& r.0.expect_operand == false
            &&& r.0.output == st.output + num_tokens(group_vals(groups).drop_last())
            &&& r.0.stack == st.stack + repeated(Operator::Exp, (groups.len() - 1) as nat)
        }),
    decreases groups.len(),
{
    let k = (groups.len() - 1) as nat;
    let ops = repeated('^', k);
    let chars = infix_chars(groups, ops);
    assert(good_group(groups[0]));
    if groups.len() == 1 {
        assert(chars == groups[0]);
        lemma_shunt_digits(st, groups[0]);
        assert(st.stage + groups[0] =~= groups[0]);
        assert(num_tokens(group_vals(groups).drop_last()) =~= Seq::<Token>::empty());
        assert(st.output + num_tokens(group_vals(groups).drop_last()) =~= st.output);
        assert(st.stack + repeated(Operator::Exp, 0) =~= st.stack);
    } else {
        let g0 = groups.first();
        let rest = groups.drop_first();
        let rest_chars = infix_chars(rest, ops.drop_first());
        assert(chars == g0 + seq![ops.first()] + rest_chars);
        assert(ops.first() == '^');
        // First the digits of `g0` are staged.
        lemma_shunt_digits(st, g0);
        lemma_shunt_chars_concat(st, g0, seq!['^'] + rest_chars);
        assert((g0 + seq!['^']) + rest_chars =~= g0 + (seq!['^'] + rest_chars));
        let st_g = shunt_chars(st, g0).0;
        assert(st_g.stage == st.stage + g0);
        assert(st.stage + g0 =~= g0);
        // Then `^` flushes the staged number and lands on the stack.
        lemma_shunt_chars_concat(st_g, seq!['^'], rest_chars);
        lemma_shunt_chars_singleton(st_g, '^');
        let n0 = dec_of_chars(g0)->Some_0;
        assert(st_g.stack.len() == st.stack.len());
        if st_g.stack.len() > 0 {
            assert(st_g.stack.last() == st_g.stack[st_g.stack.len() - 1]);
            assert(!should_pop(Operator::Exp, st_g.stack.last()));
        }
        let st_op = shunt_char(st_g, '^')->Ok_0;
        assert(st_op.stage == Seq::<char>::empty());
        assert(st_op.expect_operand == true);
        assert(st_op.output == st.output.push(Token::Num(n0)));
        assert(st_op.stack == st.stack.push(Operator::Exp));
        // The rest of the chain continues from there.
        assert(forall|i: int|
            0 <= i < st_op.stack.len() ==> st_op.stack[i] == Operator::Exp) by {
            assert(forall|i: int|
                0 <= i < st.stack.len() ==> st_op.stack[i] == st.stack[i]);
        }
        assert(forall|i: int| 0 <= i < rest.len() ==> good_group(#[trigger] rest[i])) by {
            assert(forall|i: int| 0 <= i < rest.len() ==> rest[i] == groups[i + 1]);
        }
        assert(ops.drop_first() =~= repeated('^', (rest.len() - 1) as nat));
        lemma_shunt_exp_chain(st_op, rest);
        // Reassemble the output and the stack.
        assert(group_vals(rest) =~= group_vals(groups).drop_first());
        assert(st_op.output + num_tokens(group_vals(rest).drop_last()) =~= st.output + num_tokens(
            group_vals(groups).drop_last(),
        )) by {
            let vs = group_vals(groups);
            assert(forall|i: int|
                0 <= i < vs.drop_last().len() ==> num_tokens(vs.drop_last())[i] == Token::Num(
                    vs[i],
                ));
            assert(forall|i: int|
                0 <= i < group_vals(rest).drop_last().len() ==> num_tokens(
                    group_vals(rest).drop_last(),
                )[i] == Token::Num(vs[i + 1]));
        }
        assert(st_op.stack + repeated(Operator::Exp, (rest.len() - 1) as nat) =~= st.stack
            + repeated(Operator::Exp, k));
        assert(rest.last() == groups.last());
    }
}

/// Draining a stack of `^` operators appends just as many `^` tokens.
proof fn lemma_drain_ops_uniform(output: Seq<Token>, stack: Seq<Operator>)
    requires
        forall|i: int| 0 <= i < stack.len() ==> stack[i] == Operator::Exp,
    ensures
        drain_ops(output, stack) == output + repeated(
            Token::Op(Operator::Exp),
            stack.len() as nat,
        ),
    decreases stack.len(),
{
    if stack.len() == 0 {
        assert(output + repeated(Token::Op(Operator::Exp), 0) =~= output);
    } else {
        assert(stack.last() == stack[stack.len() - 1]);
        let o2 = output.push(Token::Op(Operator::Exp));
        assert(forall|i: int|
            0 <= i < stack.drop_last().len() ==> stack.drop_last()[i] == stack[i]);
        lemma_drain_ops_uniform(o2, stack.drop_last());
        assert(o2 + repeated(Token::Op(Operator::Exp), (stack.len() - 1) as nat) =~= output
            + repeated(Token::Op(Operator::Exp), stack.len() as nat));
    }
}

/// Reducing number tokens pushes their values, in order.
proof fn lemma_reduce_nums(vals: Seq<Dec>, nums: Seq<Dec>)
    ensures
        reduce_tokens(vals, num_tokens(nums)) == Ok::<Seq<Dec>, ParseErr>(vals + nums),
    decreases nums.len(),
{
    if nums.len() == 0 {
        assert(num_tokens(nums) =~= Seq::<Token>::empty());
        assert(vals + nums =~= vals);
    } else {
        assert(num_tokens(nums).first() == Token::Num(nums.first()));
        assert(num_tokens(nums).drop_first() =~= num_tokens(nums.drop_first()));
        lemma_reduce_nums(vals.push(nums.first()), nums.drop_first());
        assert(vals.push(nums.first()) + nums.drop_first() =~= vals + nums);
    }
}

/// A right-grouped power chain collapses from the inside: its value is the
/// checked power of its last two numbers, substituted back into the chain.
proof fn lemma_pow_chain_collapse(vals: Seq<Dec>)
    requires
        vals.len() >= 2,
    ensures
        pow_chain(vals) == (match apply_op(
            Operator::Exp,
            vals[vals.len() - 2],
            vals[vals.len() - 1],
        ) {
            Ok(w) => pow_chain(vals.drop_last().drop_last().push(w)),
            Err(e) => Err::<Dec, ParseErr>(e),
        }),
    decreases vals.len(),
{
    let m = vals.len() as int;
    if vals.len() == 2 {
        assert(vals.drop_first() =~= seq![vals[1]]);
        match apply_op(Operator::Exp, vals[0], vals[1]) {
            Ok(w) => {
                assert(vals.drop_last().drop_last().push(w) =~= seq![w]);
            },
            Err(_) => {},
        }
    } else {
        let tail = vals.drop_first();
        lemma_pow_chain_collapse(tail);
        assert(tail[tail.len() - 2] == vals[m - 2]);
        assert(tail[tail.len() - 1] == vals[m - 1]);
        match apply_op(Operator::Exp, vals[m - 2], vals[m - 1]) {
            Ok(w) => {
                let collapsed = vals.drop_last().drop_last().push(w);
                assert(tail.drop_last().drop_last().push(w) =~= collapsed.drop_first());
                assert(collapsed.len() >= 2);
                assert(collapsed.first() == vals.first());
            },
            Err(_) => {},
        }
    }
}

/// Applying `k` power tokens to `k + 1` stacked values leaves exactly the
/// right-grouped chain value, or its first (innermost) error.
proof fn lemma_reduce_exp_apps(vals: Seq<Dec>)
    requires
        vals.len() >= 1,
    ensures
        reduce_tokens(vals, repeated(Token::Op(Operator::Exp), (vals.len() - 1) as nat)) == (
        match pow_chain(vals) {
            Ok(v) => Ok::<Seq<Dec>, ParseErr>(seq![v]),
            Err(e) => Err::<Seq<Dec>, ParseErr>(e),
        }),
    decreases vals.len(),
{
    let k = (vals.len() - 1) as nat;
    let toks = repeated(Token::Op(Operator::Exp), k);
    if vals.len() == 1 {
        assert(toks =~= Seq::<Token>::empty());
        assert(vals =~= seq![vals[0]]);
    } else {
        assert(toks.first() == Token::Op(Operator::Exp));
        lemma_pow_chain_collapse(vals);
        match apply_op(Operator::Exp, vals[vals.len() - 2], vals.last()) {
            Ok(w) => {
                let collapsed = vals.drop_last().drop_last().push(w);
                assert(toks.drop_first() =~= repeated(
                    Token::Op(Operator::Exp),
                    (collapsed.len() - 1) as nat,
                ));
                lemma_reduce_exp_apps(collapsed);
            },
            Err(_) => {},
        }
    }
}

/// `^` is right-associative: an expression `g0^g1^...^gk` made of number
/// groups evaluates to the right-grouped chain of checked powers
/// `n0 ^ (n1 ^ (... ^ nk))` of the numbers the groups stand for, the
/// innermost power applied first.
pub proof fn lemma_exp_chain_right_associative(groups: Seq<Seq<char>>)
    requires
        groups.len() >= 1,
        all_good(groups),
    ensures
        spec_calculate(infix_chars(groups, repeated('^', (groups.len() - 1) as nat)))
            == pow_chain(group_vals(groups)),
{
    let k = (groups.len() - 1) as nat;
    let chars = infix_chars(groups, repeated('^', k));
    let init = init_state(Seq::<Token>::empty(), Seq::<Operator>::empty());
    lemma_shunt_exp_chain(init, groups);
    let st = shunt_chars(init, chars).0;
    // The final flush appends the last number; the drain appends the `^`s.
    assert(good_group(groups.last())) by {
        assert(groups.last() == groups[groups.len() - 1]);
    }
    let vs = group_vals(groups);
    let flushed = flush_stage(st)->Ok_0;
    assert(flushed.output =~= num_tokens(vs)) by {
        assert(vs.last() == dec_of_chars(groups.last())->Some_0);
        assert(forall|i: int|
            0 <= i < vs.drop_last().len() ==> num_tokens(vs.drop_last())[i] == Token::Num(vs[i]));
        assert(forall|i: int| 0 <= i < vs.len() ==> num_tokens(vs)[i] == Token::Num(vs[i]));
        assert(init.output + num_tokens(vs.drop_last()) =~= num_tokens(vs.drop_last()));
    }
    assert(forall|i: int| 0 <= i < flushed.stack.len() ==> flushed.stack[i] == Operator::Exp) by {
        assert(init.stack + repeated(Operator::Exp, k) =~= repeated(Operator::Exp, k));
    }
    lemma_drain_ops_uniform(flushed.output, flushed.stack);
    let out = drain_ops(flushed.output, flushed.stack);
    assert(out == num_tokens(vs) + repeated(Token::Op(Operator::Exp), k)) by {
        assert(flushed.stack.len() == k);
    }
    // Reduction pushes the numbers, then applies the powers innermost first.
    lemma_reduce_nums(Seq::<Dec>::empty(), vs);
    lemma_reduce_tokens_concat(
        Seq::<Dec>::empty(),
        num_tokens(vs),
        repeated(Token::Op(Operator::Exp), k),
    );
    assert(Seq::<Dec>::empty() + vs =~= vs);
    assert(vs.len() == groups.len());
    lemma_reduce_exp_apps(vs);
}

/// The multiplicative rank: `*` and `/`.
pub open spec fn is_mul_level(o: Operator) -> bool {
    o == Operator::Mul || o == Operator::Div
}

/// The additive rank: `+` and `-`.
pub open spec fn is_add_level(o: Operator) -> bool {
    o == Operator::Add || o == Operator::Sub
}

/// The characters of the four elementary operators, in both their ASCII and
/// their typographic forms.
pub open spec fn four_op_char(c: char) -> bool {
    c == '+' || c == '-' || c == '*' || c == '/' || c == '\u{00d7}' || c == '\u{00f7}'
}

/// Applies a pending half-finished operation to the value that completes
/// it; no pending operation passes the value through.
pub open spec fn discharge(pending: Option<(Dec, Operator)>, v: Dec) -> Result<Dec, ParseErr> {
    match pending {
        None => Ok(v),
        Some(p) => apply_op(p.1, p.0, v),
    }
}

/// The operator stack that belongs to a pending additive and a pending
/// multiplicative operation: the additive one below, the multiplicative one
/// on top.
pub open spec fn stack_of(
    sum: Option<(Dec, Operator)>,
    term: Option<(Dec, Operator)>,
) -> Seq<Operator> {
    match (sum, term) {
        (None, None) => Seq::empty(),
        (Some(s), None) => seq![s.1],
        (None, Some(t)) => seq![t.1],
        (Some(s), Some(t)) => seq![s.1, t.1],
    }
}

/// The value stack that reducing the output so far leaves: the additive
/// operand below, the multiplicative operand on top.
pub open spec fn pending_vals(
    sum: Option<(Dec, Operator)>,
    term: Option<(Dec, Operator)>,
) -> Seq<Dec> {
    match (sum, term) {
        (None, None) => Seq::empty(),
        (Some(s), None) => seq![s.0],
        (None, Some(t)) => seq![t.0],
        (Some(s), Some(t)) => seq![s.0, t.0],
    }
}

/// Left-to-right evaluation with standard precedence, one operator and its
/// following number at a time. A multiplicative operator completes the
/// pending multiplicative operation and itself becomes pending; an additive
/// operator completes the pending multiplicative operation, then the pending
/// additive one, and itself becomes pending. At the end both pendings are
/// completed in that order. The first failing operation is the result.
pub open spec fn eval_four(
    sum: Option<(Dec, Operator)>,
    term: Option<(Dec, Operator)>,
    cur: Dec,
    ops: Seq<Operator>,
    nums: Seq<Dec>,
) -> Result<Dec, ParseErr>
    decreases ops.len(),
{
    if ops.len() == 0 {
        match discharge(term, cur) {
            Ok(v1) => discharge(sum, v1),
            Err(e) => Err(e),
        }
    } else {
        let o = ops.first();
        if is_mul_level(o) {
            match discharge(term, cur) {
                Ok(v) => eval_four(
                    sum,
                    Some((v, o)),
                    nums.first(),
                    ops.drop_first(),
                    nums.drop_first(),
                ),
                Err(e) => Err(e),
            }
        } else {
            match discharge(term, cur) {
                Ok(v1) => match discharge(sum, v1) {
                    Ok(v2) => eval_four(
                        Some((v2, o)),
                        None,
                        nums.first(),
                        ops.drop_first(),
                        nums.drop_first(),
                    ),
                    Err(e) => Err(e),
                },
                Err(e) => Err(e),
            }
        }
    }
}

/// Left-to-right evaluation of `n0 o1 n1 ... ok nk` with standard
/// precedence: multiplication and division bind tighter than addition and
/// subtraction, all four group left-to-right.
pub open spec fn eval_ltr(nums: Seq<Dec>, ops: Seq<Operator>) -> Result<Dec, ParseErr> {
    eval_four(None, None, nums.first(), ops, nums.drop_first())
}

/// The characters of an infix expression after its first number: operator,
/// number, operator, number, and so on.
pub open spec fn tail_chars(ops: Seq<char>, groups: Seq<Seq<char>>) -> Seq<char>
    decreases groups.len(),
{
    if groups.len() == 0 || ops.len() == 0 {
        Seq::empty()
    } else {
        seq![ops.first()] + groups.first() + tail_chars(ops.drop_first(), groups.drop_first())
    }
}

/// An infix expression is its first number followed by its tail.
proof fn lemma_infix_tail(groups: Seq<Seq<char>>, ops: Seq<char>)
    requires
        groups.len() >= 1,
        groups.len() == ops.len() + 1,
    ensures
        infix_chars(groups, ops) == groups.first() + tail_chars(ops, groups.drop_first()),
    decreases groups.len(),
{
    if groups.len() == 1 {
        assert(tail_chars(ops, groups.drop_first()) =~= Seq::<char>::empty());
        assert(groups.first() + Seq::<char>::empty() =~= groups.first());
        assert(infix_chars(groups, ops) == groups[0]);
        assert(groups[0] == groups.first());
    } else {
        lemma_infix_tail(groups.drop_first(), ops.drop_first());
        assert(groups.drop_first().first() == groups[1]);
        assert((groups.first() + seq![ops.first()]) + infix_chars(groups.drop_first(), ops.drop_first())
            =~= groups.first() + (seq![ops.first()] + (groups.drop_first().first() + tail_chars(
            ops.drop_first(),
            groups.drop_first().drop_first(),
        ))));
        assert(tail_chars(ops, groups.drop_first()) == seq![ops.first()]
            + groups.drop_first().first() + tail_chars(
            ops.drop_first(),
            groups.drop_first().drop_first(),
        ));
    }
}

/// How an additive or multiplicative operator settles against the stack of
/// the two possible pending operations: strictly weaker precedence below it
/// stays, equal or stronger precedence pops to the output first.
proof fn lemma_settle_cases(
    sum: Option<(Dec, Operator)>,
    term: Option<(Dec, Operator)>,
    op: Operator,
    out: Seq<Token>,
)
    requires
        (match sum {
            Some(p) => is_add_level(p.1),
            None => true,
        }),
        (match term {
            Some(p) => is_mul_level(p.1),
            None => true,
        }),
        is_add_level(op) || is_mul_level(op),
    ensures
        ({
            let r = settle_op(out, stack_of(sum, term), op);
            match (sum, term) {
                (None, None) => r == ((out, seq![op])),
                (Some(s), None) => if is_mul_level(op) {
                    r == ((out, seq![s.1, op]))
                } else {
                    r == ((out.push(Token::Op(s.1)), seq![op]))
                },
                (None, Some(t)) => r == ((out.push(Token::Op(t.1)), seq![op])),
                (Some(s), Some(t)) => if is_mul_level(op) {
                    r == ((out.push(Token::Op(t.1)), seq![s.1, op]))
                } else {
                    r == ((out.push(Token::Op(t.1)).push(Token::Op(s.1)), seq![op]))
                },
            }
        }),
{
    let stack = stack_of(sum, term);
    match (sum, term) {
        (None, None) => {
            assert(Seq::<Operator>::empty().push(op) =~= seq![op]);
        },
        (Some(s), None) => {
            assert(stack.last() == s.1);
            if is_mul_level(op) {
                assert(!should_pop(op, s.1));
                assert(stack.push(op) =~= seq![s.1, op]);
            } else {
                assert(should_pop(op, s.1));
                assert(stack.drop_last() =~= Seq::<Operator>::empty());
                assert(settle_op(out.push(Token::Op(s.1)), stack.drop_last(), op) == ((
                    out.push(Token::Op(s.1)),
                    stack.drop_last().push(op),
                )));
                assert(stack.drop_last().push(op) =~= seq![op]);
            }
        },
        (None, Some(t)) => {
            assert(stack.last() == t.1);
            assert(should_pop(op, t.1));
            assert(stack.drop_last() =~= Seq::<Operator>::empty());
            assert(settle_op(out.push(Token::Op(t.1)), stack.drop_last(), op) == ((
                out.push(Token::Op(t.1)),
                stack.drop_last().push(op),
            )));
            assert(stack.drop_last().push(op) =~= seq![op]);
        },
        (Some(s), Some(t)) => {
            assert(stack.last() == t.1);
            assert(should_pop(op, t.1));
            let out1 = out.push(Token::Op(t.1));
            let stack1 = stack.drop_last();
            assert(stack1 =~= seq![s.1]);
            assert(stack1.last() == s.1);
            if is_mul_level(op) {
                assert(!should_pop(op, s.1));
                assert(settle_op(out1, stack1, op) == ((out1, stack1.push(op))));
                assert(stack1.push(op) =~= seq![s.1, op]);
            } else {
                assert(should_pop(op, s.1));
                let out2 = out1.push(Token::Op(s.1));
                assert(stack1.drop_last() =~= Seq::<Operator>::empty());
                assert(settle_op(out2, stack1.drop_last(), op) == ((
                    out2,
                    stack1.drop_last().push(op),
                )));
                assert(settle_op(out1, stack1, op) == settle_op(out2, stack1.drop_last(), op));
                assert(stack1.drop_last().push(op) =~= seq![op]);
            }
        },
    }
}

/// The end of a four-operator expression: the last number is flushed, the
/// pending operators drain innermost first, and the reduction performs the
/// two discharges in order — unless the output already held an error.
proof fn lemma_four_finish(
    st: ShuntState,
    sum: Option<(Dec, Operator)>,
    term: Option<(Dec, Operator)>,
    cur: Dec,
)
    requires
        st.stage.len() > 0,
        dec_of_chars(st.stage) == Some(cur),
        st.stack == stack_of(sum, term),
        (match sum {
            Some(p) => is_add_level(p.1),
            None => true,
        }),
        (match term {
            Some(p) => is_mul_level(p.1),
            None => true,
        }),
        (match reduce_tokens(Seq::<Dec>::empty(), st.output) {
            Ok(vs) => vs == pending_vals(sum, term),
            Err(_) => true,
        }),
    ensures
        ({
            let fin = shunt_finish(st);
            &&& fin.1 is None
            &&& spec_reduce(fin.0.output) == (match reduce_tokens(Seq::<Dec>::empty(), st.output) {
                Err(e) => Err::<Dec, ParseErr>(e),
                Ok(_) => match discharge(term, cur) {
                    Ok(v1) => discharge(sum, v1),
                    Err(e) => Err(e),
                },
            })
        }),
{
    let flushed = flush_stage(st)->Ok_0;
    assert(flushed.output == st.output.push(Token::Num(cur)));
    assert(flushed.stack == stack_of(sum, term));
    let fin = shunt_finish(st);
    let red = reduce_tokens(Seq::<Dec>::empty(), st.output);
    // Drain the pending operators: the multiplicative one first.
    let drained = drain_ops(flushed.output, flushed.stack);
    let x = match (sum, term) {
        (None, None) => seq![Token::Num(cur)],
        (Some(s), None) => seq![Token::Num(cur), Token::Op(s.1)],
        (None, Some(t)) => seq![Token::Num(cur), Token::Op(t.1)],
        (Some(s), Some(t)) => seq![Token::Num(cur), Token::Op(t.1), Token::Op(s.1)],
    };
    match (sum, term) {
        (None, None) => {
            assert(drained == flushed.output);
        },
        (Some(s), None) => {
            assert(flushed.stack.last() == s.1);
            assert(flushed.stack.drop_last() =~= Seq::<Operator>::empty());
            assert(drained == drain_ops(
                flushed.output.push(Token::Op(s.1)),
                flushed.stack.drop_last(),
            ));
        },
        (None, Some(t)) => {
            assert(flushed.stack.last() == t.1);
            assert(flushed.stack.drop_last() =~= Seq::<Operator>::empty());
            assert(drained == drain_ops(
                flushed.output.push(Token::Op(t.1)),
                flushed.stack.drop_last(),
            ));
        },
        (Some(s), Some(t)) => {
            assert(flushed.stack.last() == t.1);
            assert(flushed.stack.drop_last() =~= seq![s.1]);
            let o1 = flushed.output.push(Token::Op(t.1));
            assert(drained == drain_ops(o1, seq![s.1]));
            assert(seq![s.1].last() == s.1);
            assert(seq![s.1].drop_last() =~= Seq::<Operator>::empty());
            assert(drain_ops(o1, seq![s.1]) == drain_ops(o1.push(Token::Op(s.1)), seq![
                s.1,
            ].drop_last()));
        },
    }
    assert(fin.0.output =~= st.output + x);
    // Reduce: the old output first, then the flushed number and the drained
    // operators.
    lemma_reduce_tokens_concat(Seq::<Dec>::empty(), st.output, x);
    match red {
        Err(_) => {},
        Ok(pvals) => {
            assert(pvals == pending_vals(sum, term));
            lemma_reduce_tokens_singleton(pvals, Token::Num(cur));
            let v_stack = pvals.push(cur);
            match (sum, term) {
                (None, None) => {
                    assert(x =~= seq![Token::Num(cur)]);
                    assert(v_stack =~= seq![cur]);
                    assert(reduce_tokens(pvals, x) == Ok::<Seq<Dec>, ParseErr>(v_stack));
                },
                (Some(s), None) => {
                    assert(x =~= seq![Token::Num(cur)] + seq![Token::Op(s.1)]);
                    lemma_reduce_tokens_concat(pvals, seq![Token::Num(cur)], seq![Token::Op(s.1)]);
                    assert(v_stack =~= seq![s.0, cur]);
                    lemma_reduce_tokens_singleton(v_stack, Token::Op(s.1));
                    assert(v_stack[0] == s.0);
                    assert(v_stack.last() == cur);
                    match apply_op(s.1, s.0, cur) {
                        Ok(v2) => {
                            assert(v_stack.drop_last().drop_last().push(v2) =~= seq![v2]);
                        },
                        Err(_) => {},
                    }
                },
                (None, Some(t)) => {
                    assert(x =~= seq![Token::Num(cur)] + seq![Token::Op(t.1)]);
                    lemma_reduce_tokens_concat(pvals, seq![Token::Num(cur)], seq![Token::Op(t.1)]);
                    assert(v_stack =~= seq![t.0, cur]);
                    lemma_reduce_tokens_singleton(v_stack, Token::Op(t.1));
                    assert(v_stack[0] == t.0);
                    assert(v_stack.last() == cur);
                    match apply_op(t.1, t.0, cur) {
                        Ok(v1) => {
                            assert(v_stack.drop_last().drop_last().push(v1) =~= seq![v1]);
                        },
                        Err(_) => {},
                    }
                },
                (Some(s), Some(t)) => {
                    assert(x =~= seq![Token::Num(cur)] + (seq![Token::Op(t.1)] + seq![
                        Token::Op(s.1),
                    ]));
                    lemma_reduce_tokens_concat(
                        pvals,
                        seq![Token::Num(cur)],
                        seq![Token::Op(t.1)] + seq![Token::Op(s.1)],
                    );
                    assert(v_stack =~= seq![s.0, t.0, cur]);
                    lemma_reduce_tokens_concat(v_stack, seq![Token::Op(t.1)], seq![
                        Token::Op(s.1),
                    ]);
                    lemma_reduce_tokens_singleton(v_stack, Token::Op(t.1));
                    assert(v_stack[v_stack.len() - 2] == t.0);
                    assert(v_stack.last() == cur);
                    match apply_op(t.1, t.0, cur) {
                        Ok(v1) => {
                            let v_stack2 = v_stack.drop_last().drop_last().push(v1);
                            assert(v_stack2 =~= seq![s.0, v1]);
                            lemma_reduce_tokens_singleton(v_stack2, Token::Op(s.1));
                            assert(v_stack2[0] == s.0);
                            assert(v_stack2.last() == v1);
                            match apply_op(s.1, s.0, v1) {
                                Ok(v2) => {
                                    assert(v_stack2.drop_last().drop_last().push(v2) =~= seq![v2]);
                                },
                                Err(_) => {},
                            }
                        },
                        Err(_) => {},
                    }
                },
            }
        },
    }
}

/// Running the rest of a four-operator expression — operator, number,
/// operator, number — from a state whose staged number, pending operations
/// and reduced output agree, computes exactly the left-to-right evaluation
/// with standard precedence, or reproduces the error already in the output.
proof fn lemma_four_run(
    st: ShuntState,
    sum: Option<(Dec, Operator)>,
    term: Option<(Dec, Operator)>,
    cur: Dec,
    opchars: Seq<char>,
    groups: Seq<Seq<char>>,
)
    requires
        groups.len() == opchars.len(),
        all_good(groups),
        forall|i: int| 0 <= i < opchars.len() ==> four_op_char(#[trigger] opchars[i]),
        st.stage.len() > 0,
        dec_of_chars(st.stage) == Some(cur),
        st.expect_operand == false,
        st.stack == stack_of(sum, term),
        (match sum {
            Some(p) => is_add_level(p.1),
            None => true,
        }),
        (match term {
            Some(p) => is_mul_level(p.1),
            None => true,
        }),
        (match reduce_tokens(Seq::<Dec>::empty(), st.output) {
            Ok(vs) => vs == pending_vals(sum, term),
            Err(_) => true,
        }),
    ensures
        ({
            let run = spec_shunt(st, tail_chars(opchars, groups));
            &&& run.1 is None
            &&& spec_reduce(run.0.output) == (match reduce_tokens(
                Seq::<Dec>::empty(),
                st.output,
            ) {
                Err(e) => Err::<Dec, ParseErr>(e),
                Ok(_) => eval_four(
                    sum,
                    term,
                    cur,
                    opchars.map_values(|c: char| op_of_char(c)->Some_0),
                    group_vals(groups),
                ),
            })
        }),
    decreases groups.len(),
{
    let ops_seq = opchars.map_values(|c: char| op_of_char(c)->Some_0);
    let nums = group_vals(groups);
    let red = reduce_tokens(Seq::<Dec>::empty(), st.output);
    if groups.len() == 0 {
        assert(tail_chars(opchars, groups) =~= Seq::<char>::empty());
        lemma_four_finish(st, sum, term, cur);
    } else {
        let o = opchars.first();
        let g = groups.first();
        assert(four_op_char(opchars[0]));
        assert(good_group(groups[0]));
        let rest = tail_chars(opchars.drop_first(), groups.drop_first());
        assert(tail_chars(opchars, groups) == seq![o] + g + rest);
        assert(seq![o] + g + rest =~= seq![o] + (g + rest));
        // The operator character: flush the staged number and settle.
        lemma_shunt_chars_concat(st, seq![o], g + rest);
        lemma_shunt_chars_singleton(st, o);
        assert(is_op_char(o));
        assert(!is_digit_or_dot(o));
        let flushed = flush_stage(st)->Ok_0;
        assert(flushed.output == st.output.push(Token::Num(cur)));
        assert(flushed.stack == stack_of(sum, term));
        assert(!flushed.expect_operand);
        let op = op_of_char(o)->Some_0;
        assert(is_add_level(op) || is_mul_level(op));
        lemma_settle_cases(sum, term, op, flushed.output);
        let st_o = shunt_char(st, o)->Ok_0;
        assert(st_o.stage =~= Seq::<char>::empty());
        assert(st_o.expect_operand == true);
        // The next number group is staged.
        lemma_shunt_chars_concat(st_o, g, rest);
        lemma_shunt_digits(st_o, g);
        let st_g = shunt_chars(st_o, g).0;
        assert(st_g.stage == st_o.stage + g);
        assert(st_o.stage + g =~= g);
        assert(st_g.output == st_o.output);
        assert(st_g.stack == st_o.stack);
        let cur2 = dec_of_chars(g)->Some_0;
        // The new pending operations, and the reduced output that belongs
        // to them.
        let red2 = reduce_tokens(Seq::<Dec>::empty(), st_g.output);
        let sum2: Option<(Dec, Operator)>;
        let term2: Option<(Dec, Operator)>;
        if is_mul_level(op) {
            sum2 = sum;
            term2 = match discharge(term, cur) {
                Ok(v) => Some((v, op)),
                Err(_) => Some((Dec::spec_zero(), op)),
            };
        } else {
            term2 = None;
            sum2 = match discharge(term, cur) {
                Ok(v1) => match discharge(sum, v1) {
                    Ok(v2) => Some((v2, op)),
                    Err(_) => Some((Dec::spec_zero(), op)),
                },
                Err(_) => Some((Dec::spec_zero(), op)),
            };
        }
        // The output gained the flushed number and the popped operators.
        let x = match (sum, term) {
            (None, None) => seq![Token::Num(cur)],
            (Some(s), None) => if is_mul_level(op) {
                seq![Token::Num(cur)]
            } else {
                seq![Token::Num(cur), Token::Op(s.1)]
            },
            (None, Some(t)) => seq![Token::Num(cur), Token::Op(t.1)],
            (Some(s), Some(t)) => if is_mul_level(op) {
                seq![Token::Num(cur), Token::Op(t.1)]
            } else {
                seq![Token::Num(cur), Token::Op(t.1), Token::Op(s.1)]
            },
        };
        assert(st_g.output =~= st.output + x);
        assert(st_g.stack == stack_of(sum2, term2));
        lemma_reduce_tokens_concat(Seq::<Dec>::empty(), st.output, x);
        match red {
            Err(_) => {
                assert(red2 == red);
            },
            Ok(pvals) => {
                assert(pvals == pending_vals(sum, term));
                lemma_reduce_tokens_singleton(pvals, Token::Num(cur));
                let v_stack = pvals.push(cur);
                match (sum, term) {
                    (None, None) => {
                        assert(x =~= seq![Token::Num(cur)]);
                        assert(v_stack =~= seq![cur]);
                        assert(red2 == Ok::<Seq<Dec>, ParseErr>(v_stack));
                        assert(v_stack =~= pending_vals(sum2, term2));
                    },
                    (Some(s), None) => {
                        if is_mul_level(op) {
                            assert(x =~= seq![Token::Num(cur)]);
                            assert(v_stack =~= seq![s.0, cur]);
                            assert(v_stack =~= pending_vals(sum2, term2));
                        } else {
                            assert(x =~= seq![Token::Num(cur)] + seq![Token::Op(s.1)]);
                            lemma_reduce_tokens_concat(pvals, seq![Token::Num(cur)], seq![
                                Token::Op(s.1),
                            ]);
                            assert(v_stack =~= seq![s.0, cur]);
                            lemma_reduce_tokens_singleton(v_stack, Token::Op(s.1));
                            assert(v_stack[0] == s.0);
                            assert(v_stack.last() == cur);
                            match apply_op(s.1, s.0, cur) {
                                Ok(v2) => {
                                    assert(v_stack.drop_last().drop_last().push(v2) =~= seq![v2]);
                                    assert(seq![v2] =~= pending_vals(sum2, term2));
                                },
                                Err(_) => {},
                            }
                        }
                    },
                    (None, Some(t)) => {
                        assert(x =~= seq![Token::Num(cur)] + seq![Token::Op(t.1)]);
                        lemma_reduce_tokens_concat(pvals, seq![Token::Num(cur)], seq![
                            Token::Op(t.1),
                        ]);
                        assert(v_stack =~= seq![t.0, cur]);
                        lemma_reduce_tokens_singleton(v_stack, Token::Op(t.1));
                        assert(v_stack[0] == t.0);
                        assert(v_stack.last() == cur);
                        match apply_op(t.1, t.0, cur) {
                            Ok(v1) => {
                                assert(v_stack.drop_last().drop_last().push(v1) =~= seq![v1]);
                                assert(seq![v1] =~= pending_vals(sum2, term2));
                            },
                            Err(_) => {},
                        }
                    },
                    (Some(s), Some(t)) => {
                        if is_mul_level(op) {
                            assert(x =~= seq![Token::Num(cur)] + seq![Token::Op(t.1)]);
                            lemma_reduce_tokens_concat(pvals, seq![Token::Num(cur)], seq![
                                Token::Op(t.1),
                            ]);
                            assert(v_stack =~= seq![s.0, t.0, cur]);
                            lemma_reduce_tokens_singleton(v_stack, Token::Op(t.1));
                            assert(v_stack[v_stack.len() - 2] == t.0);
                            assert(v_stack.last() == cur);
                            match apply_op(t.1, t.0, cur) {
                                Ok(v1) => {
                                    assert(v_stack.drop_last().drop_last().push(v1) =~= seq![
                                        s.0,
                                        v1,
                                    ]);
                                    assert(seq![s.0, v1] =~= pending_vals(sum2, term2));
                                },
                                Err(_) => {},
                            }
                        } else {
                            assert(x =~= seq![Token::Num(cur)] + (seq![Token::Op(t.1)] + seq![
                                Token::Op(s.1),
                            ]));
                            lemma_reduce_tokens_concat(
                                pvals,
                                seq![Token::Num(cur)],
                                seq![Token::Op(t.1)] + seq![Token::Op(s.1)],
                            );
                            assert(v_stack =~= seq![s.0, t.0, cur]);
                            lemma_reduce_tokens_concat(v_stack, seq![Token::Op(t.1)], seq![
                                Token::Op(s.1),
                            ]);
                            lemma_reduce_tokens_singleton(v_stack, Token::Op(t.1));
                            assert(v_stack[v_stack.len() - 2] == t.0);
                            assert(v_stack.last() == cur);
                            match apply_op(t.1, t.0, cur) {
                                Ok(v1) => {
                                    let v_stack2 = v_stack.drop_last().drop_last().push(v1);
                                    assert(v_stack2 =~= seq![s.0, v1]);
                                    lemma_reduce_tokens_singleton(v_stack2, Token::Op(s.1));
                                    assert(v_stack2[0] == s.0);
                                    assert(v_stack2.last() == v1);
                                    match apply_op(s.1, s.0, v1) {
                                        Ok(v2) => {
                                            assert(v_stack2.drop_last().drop_last().push(v2)
                                                =~= seq![v2]);
                                            assert(seq![v2] =~= pending_vals(sum2, term2));
                                        },
                                        Err(_) => {},
                                    }
                                },
                                Err(_) => {},
                            }
                        }
                    },
                }
            },
        }
        // Continue with the rest of the expression.
        assert(forall|i: int|
            0 <= i < groups.drop_first().len() ==> good_group(
                #[trigger] groups.drop_first()[i],
            )) by {
            assert(forall|i: int|
                0 <= i < groups.drop_first().len() ==> groups.drop_first()[i] == groups[i + 1]);
        }
        assert(forall|i: int|
            0 <= i < opchars.drop_first().len() ==> four_op_char(
                #[trigger] opchars.drop_first()[i],
            )) by {
            assert(forall|i: int|
                0 <= i < opchars.drop_first().len() ==> opchars.drop_first()[i] == opchars[i + 1]);
        }
        lemma_four_run(st_g, sum2, term2, cur2, opchars.drop_first(), groups.drop_first());
        // Reassemble the sequences of operators and numbers.
        assert(opchars.drop_first().map_values(|c: char| op_of_char(c)->Some_0)
            =~= ops_seq.drop_first());
        assert(group_vals(groups.drop_first()) =~= nums.drop_first());
        assert(ops_seq.first() == op);
        assert(nums.first() == cur2);
    }
}

/// The four elementary operators evaluate left-to-right with standard
/// precedence: an expression `g0 o1 g1 ... ok gk` over number groups and the
/// characters of `+ - * / × ÷` evaluates to the left-to-right fold in which
/// multiplication and division bind tighter, each checked operation applied
/// in reading order and the first failure reported.
pub proof fn lemma_four_op_left_to_right(groups: Seq<Seq<char>>, opchars: Seq<char>)
    requires
        groups.len() == opchars.len() + 1,
        all_good(groups),
        forall|i: int| 0 <= i < opchars.len() ==> four_op_char(#[trigger] opchars[i]),
    ensures
        spec_calculate(infix_chars(groups, opchars)) == eval_ltr(
            group_vals(groups),
            opchars.map_values(|c: char| op_of_char(c)->Some_0),
        ),
{
    let chars = infix_chars(groups, opchars);
    let init = init_state(Seq::<Token>::empty(), Seq::<Operator>::empty());
    lemma_infix_tail(groups, opchars);
    assert(good_group(groups[0]));
    lemma_shunt_chars_concat(init, groups.first(), tail_chars(opchars, groups.drop_first()));
    lemma_shunt_digits(init, groups.first());
    let st1 = shunt_chars(init, groups.first()).0;
    assert(st1.stage == init.stage + groups.first());
    assert(init.stage + groups.first() =~= groups.first());
    assert(st1.stack =~= stack_of(None, None));
    assert(reduce_tokens(Seq::<Dec>::empty(), st1.output) == Ok::<Seq<Dec>, ParseErr>(
        Seq::<Dec>::empty(),
    ));
    assert(Seq::<Dec>::empty() =~= pending_vals(None, None));
    let n0 = dec_of_chars(groups.first())->Some_0;
    assert(forall|i: int|
        0 <= i < groups.drop_first().len() ==> good_group(#[trigger] groups.drop_first()[i])) by {
        assert(forall|i: int|
            0 <= i < groups.drop_first().len() ==> groups.drop_first()[i] == groups[i + 1]);
    }
    lemma_four_run(st1, None, None, n0, opchars, groups.drop_first());
    assert(group_vals(groups.drop_first()) =~= group_vals(groups).drop_first());
    assert(group_vals(groups).first() == n0);
}

/// The value of a stack of pending exponentiation bases applied to a final
/// exponent: `e1 ^ (e2 ^ (... (ej ^ cur)))`, the innermost power first, its
/// failure reported first.
pub open spec fn pow_discharge(exps: Seq<Dec>, cur: Dec) -> Result<Dec, ParseErr>
    decreases exps.len(),
{
    if exps.len() == 0 {
        Ok(cur)
    } else {
        match apply_op(Operator::Exp, exps.last(), cur) {
            Ok(w) => pow_discharge(exps.drop_last(), w),
            Err(e) => Err(e),
        }
    }
}

/// Left-to-right evaluation with standard precedence over all five
/// operators. `^` stacks its left operands as pending bases, since it binds
/// tightest and groups to the right; a multiplicative operator closes the
/// pending powers and the pending multiplicative operation; an additive
/// operator closes those and the pending additive operation as well. At the
/// end every pending operation is closed innermost first. The first failing
/// operation is the result.
pub open spec fn eval_mixed(
    sum: Option<(Dec, Operator)>,
    term: Option<(Dec, Operator)>,
    exps: Seq<Dec>,
    cur: Dec,
    ops: Seq<Operator>,
    nums: Seq<Dec>,
) -> Result<Dec, ParseErr>
    decreases ops.len(),
{
    if ops.len() == 0 {
        match pow_discharge(exps, cur) {
            Ok(v) => match discharge(term, v) {
                Ok(v1) => discharge(sum, v1),
                Err(e) => Err(e),
            },
            Err(e) => Err(e),
        }
    } else {
        let o = ops.first();
        if o == Operator::Exp {
            eval_mixed(sum, term, exps.push(cur), nums.first(), ops.drop_first(), nums.drop_first())
        } else if is_mul_level(o) {
            match pow_discharge(exps, cur) {
                Ok(v) => match discharge(term, v) {
                    Ok(w) => eval_mixed(
                        sum,
                        Some((w, o)),
                        Seq::empty(),
                        nums.first(),
                        ops.drop_first(),
                        nums.drop_first(),
                    ),
                    Err(e) => Err(e),
                },
                Err(e) => Err(e),
            }
        } else {
            match pow_discharge(exps, cur) {
                Ok(v) => match discharge(term, v) {
                    Ok(v1) => match discharge(sum, v1) {
                        Ok(v2) => eval_mixed(
                            Some((v2, o)),
                            None,
                            Seq::empty(),
                            nums.first(),
                            ops.drop_first(),
                            nums.drop_first(),
                        ),
                        Err(e) => Err(e),
                    },
                    Err(e) => Err(e),
                },
                Err(e) => Err(e),
            }
        }
    }
}

/// Settling `^` never pops: everything below has weaker precedence, and a
/// `^` already on top is right-associative.
proof fn lemma_settle_exp(
    out: Seq<Token>,
    sum: Option<(Dec, Operator)>,
    term: Option<(Dec, Operator)>,
    j: nat,
)
    requires
        (match sum {
            Some(p) => is_add_level(p.1),
            None => true,
        }),
        (match term {
            Some(p) => is_mul_level(p.1),
            None => true,
        }),
    ensures
        settle_op(out, stack_of(sum, term) + repeated(Operator::Exp, j), Operator::Exp) == ((
            out,
            stack_of(sum, term) + repeated(Operator::Exp, j + 1),
        )),
{
    let stack = stack_of(sum, term) + repeated(Operator::Exp, j);
    if stack.len() > 0 {
        assert(stack.last() == stack[stack.len() - 1]);
        if j > 0 {
            assert(stack.last() == Operator::Exp);
        }
        assert(!should_pop(Operator::Exp, stack.last()));
    }
    assert(stack.push(Operator::Exp) =~= stack_of(sum, term) + repeated(Operator::Exp, j + 1));
}

/// Settling a weaker operator first pops every pending `^` to the output.
proof fn lemma_settle_pops_exps(out: Seq<Token>, base: Seq<Operator>, j: nat, op: Operator)
    requires
        is_add_level(op) || is_mul_level(op),
    ensures
        settle_op(out, base + repeated(Operator::Exp, j), op) == settle_op(
            out + repeated(Token::Op(Operator::Exp), j),
            base,
            op,
        ),
    decreases j,
{
    if j == 0 {
        assert(base + repeated(Operator::Exp, 0) =~= base);
        assert(out + repeated(Token::Op(Operator::Exp), 0) =~= out);
    } else {
        let stack = base + repeated(Operator::Exp, j);
        assert(stack.last() == Operator::Exp);
        assert(should_pop(op, Operator::Exp));
        assert(stack.drop_last() =~= base + repeated(Operator::Exp, (j - 1) as nat));
        lemma_settle_pops_exps(out.push(Token::Op(Operator::Exp)), base, (j - 1) as nat, op);
        assert(out.push(Token::Op(Operator::Exp)) + repeated(Token::Op(Operator::Exp), (j - 1) as nat)
            =~= out + repeated(Token::Op(Operator::Exp), j));
    }
}

/// Applying pending power tokens to the stacked bases and the final exponent
/// folds them innermost first, leaving the rest of the value stack alone.
proof fn lemma_reduce_pow_apps(base: Seq<Dec>, exps: Seq<Dec>, cur: Dec)
    ensures
        reduce_tokens(
            base + exps.push(cur),
            repeated(Token::Op(Operator::Exp), exps.len() as nat),
        ) == (match pow_discharge(exps, cur) {
            Ok(v) => Ok::<Seq<Dec>, ParseErr>(base.push(v)),
            Err(e) => Err::<Seq<Dec>, ParseErr>(e),
        }),
    decreases exps.len(),
{
    let vals = base + exps.push(cur);
    let toks = repeated(Token::Op(Operator::Exp), exps.len() as nat);
    if exps.len() == 0 {
        assert(toks =~= Seq::<Token>::empty());
        assert(vals =~= base.push(cur));
    } else {
        assert(toks.first() == Token::Op(Operator::Exp));
        assert(vals.len() >= 2);
        assert(vals.last() == cur);
        assert(vals[vals.len() - 2] == exps.last());
        match apply_op(Operator::Exp, exps.last(), cur) {
            Ok(w) => {
                assert(vals.drop_last().drop_last().push(w) =~= base + exps.drop_last().push(w));
                assert(toks.drop_first() =~= repeated(
                    Token::Op(Operator::Exp),
                    (exps.len() - 1) as nat,
                ));
                lemma_reduce_pow_apps(base, exps.drop_last(), w);
            },
            Err(_) => {},
        }
    }
}

/// Draining first pops every pending `^` to the output.
proof fn lemma_drain_pops_exps(output: Seq<Token>, base: Seq<Operator>, j: nat)
    ensures
        drain_ops(output, base + repeated(Operator::Exp, j)) == drain_ops(
            output + repeated(Token::Op(Operator::Exp), j),
            base,
        ),
    decreases j,
{
    if j == 0 {
        assert(base + repeated(Operator::Exp, 0) =~= base);
        assert(output + repeated(Token::Op(Operator::Exp), 0) =~= output);
    } else {
        let stack = base + repeated(Operator::Exp, j);
        assert(stack.last() == Operator::Exp);
        assert(stack.drop_last() =~= base + repeated(Operator::Exp, (j - 1) as nat));
        lemma_drain_pops_exps(output.push(Token::Op(Operator::Exp)), base, (j - 1) as nat);
        assert(output.push(Token::Op(Operator::Exp)) + repeated(
            Token::Op(Operator::Exp),
            (j - 1) as nat,
        ) =~= output + repeated(Token::Op(Operator::Exp), j));
    }
}

/// The end of a mixed expression: the last number is flushed, the pending
/// powers drain first, then the pending multiplicative and additive
/// operations, and the reduction closes them in that order — unless the
/// output already held an error.
proof fn lemma_mixed_finish(
    st: ShuntState,
    sum: Option<(Dec, Operator)>,
    term: Option<(Dec, Operator)>,
    exps: Seq<Dec>,
    cur: Dec,
)
    requires
        st.stage.len() > 0,
        dec_of_chars(st.stage) == Some(cur),
        st.stack == stack_of(sum, term) + repeated(Operator::Exp, exps.len() as nat),
        (match sum {
            Some(p) => is_add_level(p.1),
            None => true,
        }),
        (match term {
            Some(p) => is_mul_level(p.1),
            None => true,
        }),
        (match reduce_tokens(Seq::<Dec>::empty(), st.output) {
            Ok(vs) => vs == pending_vals(sum, term) + exps,
            Err(_) => true,
        }),
    ensures
        ({
            let fin = shunt_finish(st);
            &&& fin.1 is None
            &&& spec_reduce(fin.0.output) == (match reduce_tokens(Seq::<Dec>::empty(), st.output) {
                Err(e) => Err::<Dec, ParseErr>(e),
                Ok(_) => match pow_discharge(exps, cur) {
                    Ok(v) => match discharge(term, v) {
                        Ok(v1) => discharge(sum, v1),
                        Err(e) => Err(e),
                    },
                    Err(e) => Err(e),
                },
            })
        }),
{
    let j = exps.len() as nat;
    let flushed = flush_stage(st)->Ok_0;
    assert(flushed.output == st.output.push(Token::Num(cur)));
    assert(flushed.stack == st.stack);
    let fin = shunt_finish(st);
    let red = reduce_tokens(Seq::<Dec>::empty(), st.output);
    // Drain: the pending powers first, then the two pending operations.
    lemma_drain_pops_exps(flushed.output, stack_of(sum, term), j);
    let out_e = flushed.output + repeated(Token::Op(Operator::Exp), j);
    let drained = drain_ops(flushed.output, flushed.stack);
    assert(drained == drain_ops(out_e, stack_of(sum, term)));
    let y = match (sum, term) {
        (None, None) => Seq::<Token>::empty(),
        (Some(s), None) => seq![Token::Op(s.1)],
        (None, Some(t)) => seq![Token::Op(t.1)],
        (Some(s), Some(t)) => seq![Token::Op(t.1), Token::Op(s.1)],
    };
    match (sum, term) {
        (None, None) => {
            assert(drained == out_e);
        },
        (Some(s), None) => {
            assert(stack_of(sum, term).last() == s.1);
            assert(stack_of(sum, term).drop_last() =~= Seq::<Operator>::empty());
            assert(drained == drain_ops(out_e.push(Token::Op(s.1)), stack_of(
                sum,
                term,
            ).drop_last()));
        },
        (None, Some(t)) => {
            assert(stack_of(sum, term).last() == t.1);
            assert(stack_of(sum, term).drop_last() =~= Seq::<Operator>::empty());
            assert(drained == drain_ops(out_e.push(Token::Op(t.1)), stack_of(
                sum,
                term,
            ).drop_last()));
        },
        (Some(s), Some(t)) => {
            assert(stack_of(sum, term).last() == t.1);
            assert(stack_of(sum, term).drop_last() =~= seq![s.1]);
            let o1 = out_e.push(Token::Op(t.1));
            assert(drained == drain_ops(o1, seq![s.1]));
            assert(seq![s.1].last() == s.1);
            assert(seq![s.1].drop_last() =~= Seq::<Operator>::empty());
            assert(drain_ops(o1, seq![s.1]) == drain_ops(o1.push(Token::Op(s.1)), seq![
                s.1,
            ].drop_last()));
        },
    }
    let x = seq![Token::Num(cur)] + (repeated(Token::Op(Operator::Exp), j) + y);
    assert(fin.0.output =~= st.output + x);
    lemma_reduce_tokens_concat(Seq::<Dec>::empty(), st.output, x);
    match red {
        Err(_) => {},
        Ok(pvals) => {
            assert(pvals == pending_vals(sum, term) + exps);
            lemma_reduce_tokens_concat(
                pvals,
                seq![Token::Num(cur)],
                repeated(Token::Op(Operator::Exp), j) + y,
            );
            lemma_reduce_tokens_singleton(pvals, Token::Num(cur));
            assert(pvals.push(cur) =~= pending_vals(sum, term) + exps.push(cur));
            lemma_reduce_tokens_concat(pvals.push(cur), repeated(Token::Op(Operator::Exp), j), y);
            lemma_reduce_pow_apps(pending_vals(sum, term), exps, cur);
            match pow_discharge(exps, cur) {
                Err(_) => {},
                Ok(v) => {
                    let v_stack = pending_vals(sum, term).push(v);
                    match (sum, term) {
                        (None, None) => {
                            assert(y =~= Seq::<Token>::empty());
                            assert(v_stack =~= seq![v]);
                        },
                        (Some(s), None) => {
                            assert(v_stack =~= seq![s.0, v]);
                            lemma_reduce_tokens_singleton(v_stack, Token::Op(s.1));
                            assert(v_stack[0] == s.0);
                            assert(v_stack.last() == v);
                            match apply_op(s.1, s.0, v) {
                                Ok(v2) => {
                                    assert(v_stack.drop_last().drop_last().push(v2) =~= seq![v2]);
                                },
                                Err(_) => {},
                            }
                        },
                        (None, Some(t)) => {
                            assert(v_stack =~= seq![t.0, v]);
                            lemma_reduce_tokens_singleton(v_stack, Token::Op(t.1));
                            assert(v_stack[0] == t.0);
                            assert(v_stack.last() == v);
                            match apply_op(t.1, t.0, v) {
                                Ok(v1) => {
                                    assert(v_stack.drop_last().drop_last().push(v1) =~= seq![v1]);
                                },
                                Err(_) => {},
                            }
                        },
                        (Some(s), Some(t)) => {
                            assert(v_stack =~= seq![s.0, t.0, v]);
                            assert(y =~= seq![Token::Op(t.1)] + seq![Token::Op(s.1)]);
                            lemma_reduce_tokens_concat(v_stack, seq![Token::Op(t.1)], seq![
                                Token::Op(s.1),
                            ]);
                            lemma_reduce_tokens_singleton(v_stack, Token::Op(t.1));
                            assert(v_stack[v_stack.len() - 2] == t.0);
                            assert(v_stack.last() == v);
                            match apply_op(t.1, t.0, v) {
                                Ok(v1) => {
                                    let v_stack2 = v_stack.drop_last().drop_last().push(v1);
                                    assert(v_stack2 =~= seq![s.0, v1]);
                                    lemma_reduce_tokens_singleton(v_stack2, Token::Op(s.1));
                                    assert(v_stack2[0] == s.0);
                                    assert(v_stack2.last() == v1);
                                    match apply_op(s.1, s.0, v1) {
                                        Ok(v2) => {
                                            assert(v_stack2.drop_last().drop_last().push(v2)
                                                =~= seq![v2]);
                                        },
                                        Err(_) => {},
                                    }
                                },
                                Err(_) => {},
                            }
                        },
                    }
                },
            }
        },
    }
}

/// Running the rest of a mixed expression — operator, number, operator,
/// number, over all five operators — from a state whose staged number,
/// pending operations and reduced output agree, computes exactly the
/// left-to-right evaluation with standard precedence, or reproduces the
/// error already in the output.
#[verifier::rlimit(100)]
proof fn lemma_mixed_run(
    st: ShuntState,
    sum: Option<(Dec, Operator)>,
    term: Option<(Dec, Operator)>,
    exps: Seq<Dec>,
    cur: Dec,
    opchars: Seq<char>,
    groups: Seq<Seq<char>>,
)
    requires
        groups.len() == opchars.len(),
        all_good(groups),
        forall|i: int| 0 <= i < opchars.len() ==> is_op_char(#[trigger] opchars[i]),
        st.stage.len() > 0,
        dec_of_chars(st.stage) == Some(cur),
        st.expect_operand == false,
        st.stack == stack_of(sum, term) + repeated(Operator::Exp, exps.len() as nat),
        (match sum {
            Some(p) => is_add_level(p.1),
            None => true,
        }),
        (match term {
            Some(p) => is_mul_level(p.1),
            None => true,
        }),
        (match reduce_tokens(Seq::<Dec>::empty(), st.output) {
            Ok(vs) => vs == pending_vals(sum, term) + exps,
            Err(_) => true,
        }),
    ensures
        ({
            let run = spec_shunt(st, tail_chars(opchars, groups));
            &&& run.1 is None
            &&& spec_reduce(run.0.output) == (match reduce_tokens(
                Seq::<Dec>::empty(),
                st.output,
            ) {
                Err(e) => Err::<Dec, ParseErr>(e),
                Ok(_) => eval_mixed(
                    sum,
                    term,
                    exps,
                    cur,
                    opchars.map_values(|c: char| op_of_char(c)->Some_0),
                    group_vals(groups),
                ),
            })
        }),
    decreases groups.len(),
{
    let j = exps.len() as nat;
    let ops_seq = opchars.map_values(|c: char| op_of_char(c)->Some_0);
    let nums = group_vals(groups);
    let red = reduce_tokens(Seq::<Dec>::empty(), st.output);
    if groups.len() == 0 {
        assert(tail_chars(opchars, groups) =~= Seq::<char>::empty());
        lemma_mixed_finish(st, sum, term, exps, cur);
    } else {
        let o = opchars.first();
        let g = groups.first();
        assert(is_op_char(opchars[0]));
        assert(good_group(groups[0]));
        let rest = tail_chars(opchars.drop_first(), groups.drop_first());
        assert(tail_chars(opchars, groups) == seq![o] + g + rest);
        assert(seq![o] + g + rest =~= seq![o] + (g + rest));
        // The operator character: flush the staged number and settle.
        lemma_shunt_chars_concat(st, seq![o], g + rest);
        lemma_shunt_chars_singleton(st, o);
        assert(!is_digit_or_dot(o));
        let flushed = flush_stage(st)->Ok_0;
        assert(flushed.output == st.output.push(Token::Num(cur)));
        assert(flushed.stack == st.stack);
        assert(!flushed.expect_operand);
        let op = op_of_char(o)->Some_0;
        assert(op == Operator::Exp || is_add_level(op) || is_mul_level(op));
        if op == Operator::Exp {
            lemma_settle_exp(flushed.output, sum, term, j);
        } else {
            lemma_settle_pops_exps(flushed.output, stack_of(sum, term), j, op);
            lemma_settle_cases(
                sum,
                term,
                op,
                flushed.output + repeated(Token::Op(Operator::Exp), j),
            );
        }
        let st_o = shunt_char(st, o)->Ok_0;
        assert(st_o.stage =~= Seq::<char>::empty());
        assert(st_o.expect_operand == true);
        // The next number group is staged.
        lemma_shunt_chars_concat(st_o, g, rest);
        lemma_shunt_digits(st_o, g);
        let st_g = shunt_chars(st_o, g).0;
        assert(st_g.stage == st_o.stage + g);
        assert(st_o.stage + g =~= g);
        assert(st_g.output == st_o.output);
        assert(st_g.stack == st_o.stack);
        let cur2 = dec_of_chars(g)->Some_0;
        // The new pending operations and the tokens the output gained.
        let red2 = reduce_tokens(Seq::<Dec>::empty(), st_g.output);
        let sum2: Option<(Dec, Operator)>;
        let term2: Option<(Dec, Operator)>;
        let exps2: Seq<Dec>;
        if op == Operator::Exp {
            sum2 = sum;
            term2 = term;
            exps2 = exps.push(cur);
        } else if is_mul_level(op) {
            sum2 = sum;
            exps2 = Seq::empty();
            term2 = match pow_discharge(exps, cur) {
                Ok(v) => match discharge(term, v) {
                    Ok(w) => Some((w, op)),
                    Err(_) => Some((Dec::spec_zero(), op)),
                },
                Err(_) => Some((Dec::spec_zero(), op)),
            };
        } else {
            term2 = None;
            exps2 = Seq::empty();
            sum2 = match pow_discharge(exps, cur) {
                Ok(v) => match discharge(term, v) {
                    Ok(v1) => match discharge(sum, v1) {
                        Ok(v2) => Some((v2, op)),
                        Err(_) => Some((Dec::spec_zero(), op)),
                    },
                    Err(_) => Some((Dec::spec_zero(), op)),
                },
                Err(_) => Some((Dec::spec_zero(), op)),
            };
        }
        let y = if op == Operator::Exp {
            Seq::<Token>::empty()
        } else {
            match (sum, term) {
                (None, None) => Seq::<Token>::empty(),
                (Some(s), None) => if is_mul_level(op) {
                    Seq::<Token>::empty()
                } else {
                    seq![Token::Op(s.1)]
                },
                (None, Some(t)) => seq![Token::Op(t.1)],
                (Some(s), Some(t)) => if is_mul_level(op) {
                    seq![Token::Op(t.1)]
                } else {
                    seq![Token::Op(t.1), Token::Op(s.1)]
                },
            }
        };
        let pops = if op == Operator::Exp {
            Seq::<Token>::empty()
        } else {
            repeated(Token::Op(Operator::Exp), j)
        };
        let x = seq![Token::Num(cur)] + (pops + y);
        assert(st_g.output =~= st.output + x);
        assert(st_g.stack =~= stack_of(sum2, term2) + repeated(Operator::Exp, exps2.len() as nat));
        lemma_reduce_tokens_concat(Seq::<Dec>::empty(), st.output, x);
        match red {
            Err(_) => {
                assert(red2 == red);
            },
            Ok(pvals) => {
                assert(pvals == pending_vals(sum, term) + exps);
                lemma_reduce_tokens_concat(pvals, seq![Token::Num(cur)], pops + y);
                lemma_reduce_tokens_singleton(pvals, Token::Num(cur));
                let v_nums = pvals.push(cur);
                assert(v_nums =~= pending_vals(sum, term) + exps.push(cur));
                if op == Operator::Exp {
                    assert(pops + y =~= Seq::<Token>::empty());
                    assert(red2 == Ok::<Seq<Dec>, ParseErr>(v_nums));
                    assert(v_nums =~= pending_vals(sum2, term2) + exps2);
                } else {
                    lemma_reduce_tokens_concat(v_nums, pops, y);
                    lemma_reduce_pow_apps(pending_vals(sum, term), exps, cur);
                    match pow_discharge(exps, cur) {
                        Err(_) => {},
                        Ok(v) => {
                            let v_stack = pending_vals(sum, term).push(v);
                            match (sum, term) {
                                (None, None) => {
                                    assert(y =~= Seq::<Token>::empty());
                                    assert(v_stack =~= seq![v]);
                                    assert(v_stack =~= pending_vals(sum2, term2) + exps2);
                                },
                                (Some(s), None) => {
                                    if is_mul_level(op) {
                                        assert(y =~= Seq::<Token>::empty());
                                        assert(v_stack =~= seq![s.0, v]);
                                        assert(v_stack =~= pending_vals(sum2, term2) + exps2);
                                    } else {
                                        assert(v_stack =~= seq![s.0, v]);
                                        lemma_reduce_tokens_singleton(v_stack, Token::Op(s.1));
                                        assert(v_stack[0] == s.0);
                                        assert(v_stack.last() == v);
                                        match apply_op(s.1, s.0, v) {
                                            Ok(v2) => {
                                                assert(v_stack.drop_last().drop_last().push(v2)
                                                    =~= seq![v2]);
                                                assert(seq![v2] =~= pending_vals(sum2, term2)
                                                    + exps2);
                                            },
                                            Err(_) => {},
                                        }
                                    }
                                },
                                (None, Some(t)) => {
                                    assert(v_stack =~= seq![t.0, v]);
                                    lemma_reduce_tokens_singleton(v_stack, Token::Op(t.1));
                                    assert(v_stack[0] == t.0);
                                    assert(v_stack.last() == v);
                                    match apply_op(t.1, t.0, v) {
                                        Ok(v1) => {
                                            assert(v_stack.drop_last().drop_last().push(v1)
                                                =~= seq![v1]);
                                            assert(seq![v1] =~= pending_vals(sum2, term2) + exps2);
                                        },
                                        Err(_) => {},
                                    }
                                },
                                (Some(s), Some(t)) => {
                                    assert(v_stack =~= seq![s.0, t.0, v]);
                                    if is_mul_level(op) {
                                        lemma_reduce_tokens_singleton(v_stack, Token::Op(t.1));
                                        assert(v_stack[v_stack.len() - 2] == t.0);
                                        assert(v_stack.last() == v);
                                        match apply_op(t.1, t.0, v) {
                                            Ok(v1) => {
                                                assert(v_stack.drop_last().drop_last().push(v1)
                                                    =~= seq![s.0, v1]);
                                                assert(seq![s.0, v1] =~= pending_vals(sum2, term2)
                                                    + exps2);
                                            },
                                            Err(_) => {},
                                        }
                                    } else {
                                        assert(y =~= seq![Token::Op(t.1)] + seq![Token::Op(s.1)]);
                                        lemma_reduce_tokens_concat(v_stack, seq![Token::Op(t.1)],
                                            seq![Token::Op(s.1)]);
                                        lemma_reduce_tokens_singleton(v_stack, Token::Op(t.1));
                                        assert(v_stack[v_stack.len() - 2] == t.0);
                                        assert(v_stack.last() == v);
                                        match apply_op(t.1, t.0, v) {
                                            Ok(v1) => {
                                                let v_stack2 = v_stack.drop_last().drop_last().push(
                                                    v1,
                                                );
                                                assert(v_stack2 =~= seq![s.0, v1]);
                                                lemma_reduce_tokens_singleton(v_stack2, Token::Op(
                                                    s.1,
                                                ));
                                                assert(v_stack2[0] == s.0);
                                                assert(v_stack2.last() == v1);
                                                match apply_op(s.1, s.0, v1) {
                                                    Ok(v2) => {
                                                        assert(v_stack2.drop_last().drop_last().push(
                                                            v2,
                                                        ) =~= seq![v2]);
                                                        assert(seq![v2] =~= pending_vals(
                                                            sum2,
                                                            term2,
                                                        ) + exps2);
                                                    },
                                                    Err(_) => {},
                                                }
                                            },
                                            Err(_) => {},
                                        }
                                    }
                                },
                            }
                        },
                    }
                }
            },
        }
        // Continue with the rest of the expression.
        assert(forall|i: int|
            0 <= i < groups.drop_first().len() ==> good_group(
                #[trigger] groups.drop_first()[i],
            )) by {
            assert(forall|i: int|
                0 <= i < groups.drop_first().len() ==> groups.drop_first()[i] == groups[i + 1]);
        }
        assert(forall|i: int|
            0 <= i < opchars.drop_first().len() ==> is_op_char(
                #[trigger] opchars.drop_first()[i],
            )) by {
            assert(forall|i: int|
                0 <= i < opchars.drop_first().len() ==> opchars.drop_first()[i] == opchars[i + 1]);
        }
        lemma_mixed_run(st_g, sum2, term2, exps2, cur2, opchars.drop_first(), groups.drop_first());
        // Reassemble the sequences of operators and numbers.
        assert(opchars.drop_first().map_values(|c: char| op_of_char(c)->Some_0)
            =~= ops_seq.drop_first());
        assert(group_vals(groups.drop_first()) =~= nums.drop_first());
        assert(ops_seq.first() == op);
        assert(nums.first() == cur2);
    }
}

/// Every infix expression over the five operators — number groups joined by
/// the characters of `+ - * / × ÷ ^` — evaluates left-to-right with standard
/// precedence: `^` binds tightest and groups to the right, multiplication
/// and division bind tighter than addition and subtraction and group to the
/// left, each checked operation is applied innermost first in reading order,
/// and the first failure is the result.
pub proof fn lemma_mixed_precedence(groups: Seq<Seq<char>>, opchars: Seq<char>)
    requires
        groups.len() == opchars.len() + 1,
        all_good(groups),
        forall|i: int| 0 <= i < opchars.len() ==> is_op_char(#[trigger] opchars[i]),
    ensures
        spec_calculate(infix_chars(groups, opchars)) == eval_mixed(
            None,
            None,
            Seq::<Dec>::empty(),
            group_vals(groups).first(),
            opchars.map_values(|c: char| op_of_char(c)->Some_0),
            group_vals(groups).drop_first(),
        ),
{
    let init = init_state(Seq::<Token>::empty(), Seq::<Operator>::empty());
    lemma_infix_tail(groups, opchars);
    assert(good_group(groups[0]));
    lemma_shunt_chars_concat(init, groups.first(), tail_chars(opchars, groups.drop_first()));
    lemma_shunt_digits(init, groups.first());
    let st1 = shunt_chars(init, groups.first()).0;
    assert(st1.stage == init.stage + groups.first());
    assert(init.stage + groups.first() =~= groups.first());
    assert(st1.stack =~= stack_of(None, None) + repeated(Operator::Exp, 0));
    assert(reduce_tokens(Seq::<Dec>::empty(), st1.output) == Ok::<Seq<Dec>, ParseErr>(
        Seq::<Dec>::empty(),
    ));
    assert(Seq::<Dec>::empty() =~= pending_vals(None, None) + Seq::<Dec>::empty());
    let n0 = dec_of_chars(groups.first())->Some_0;
    assert(forall|i: int|
        0 <= i < groups.drop_first().len() ==> good_group(#[trigger] groups.drop_first()[i])) by {
        assert(forall|i: int|
            0 <= i < groups.drop_first().len() ==> groups.drop_first()[i] == groups[i + 1]);
    }
    lemma_mixed_run(st1, None, None, Seq::<Dec>::empty(), n0, opchars, groups.drop_first());
    assert(group_vals(groups.drop_first()) =~= group_vals(groups).drop_first());
    assert(group_vals(groups).first() == n0);
}

/// An expression that is one number group evaluates to the number the group
/// stands for.
pub proof fn lemma_single_number(g: Seq<char>)
    requires
        good_group(g),
    ensures
        spec_calculate(g) == Ok::<Dec, ParseErr>(dec_of_chars(g)->Some_0),
{
    assert(good_group(seq![g][0]));
    lemma_four_op_left_to_right(seq![g], Seq::<char>::empty());
    assert(infix_chars(seq![g], Seq::<char>::empty()) == g);
    assert(Seq::<char>::empty().map_values(|c: char| op_of_char(c)->Some_0) =~= Seq::<
        Operator,
    >::empty());
    assert(group_vals(seq![g]).first() == dec_of_chars(g)->Some_0);
}

} // verus!
