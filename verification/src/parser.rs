//! A shunting-yard parser for infix arithmetic over exact decimals.
//!
//! One left-to-right pass turns the input characters into tokens and reorders
//! them into postfix order by operator precedence and associativity; a second
//! pass reduces the postfix sequence with a value stack. The specification
//! functions in this module describe both passes over mathematical sequences,
//! and every method's contract is stated in terms of them.

use vstd::prelude::*;

use crate::decimal::{add_of, dec_add, dec_div, dec_mul, dec_of_chars, dec_pow, dec_sub, div_of,
    mul_of, parse_decimal, pow_of, sub_of, Dec};

verus! {

/// The arithmetic operators. `Sqrt` and `Not` are reserved: their characters
/// are not accepted by the tokenizer, so they never reach evaluation through
/// the public entry points.
#[derive(Debug, PartialEq, Eq, Structural, Clone, Copy, Hash)]
pub enum Operator {
    Add,
    Sub,
    Mul,
    Div,
    Exp,
    Sqrt,
    Not,
}

/// Whether operators of equal precedence group left-to-right or right-to-left.
#[derive(Debug, PartialEq, Eq, Structural, Clone, Copy, Hash)]
enum Associativity {
    Right,
    Left,
}

/// The precedence rank and associativity of an operator.
#[derive(Debug, PartialEq, Eq, Structural, Clone, Copy, Hash)]
struct OpInfo {
    precedence: usize,
    associativity: Associativity,
}

impl OpInfo {
    fn from(precedence: usize, associativity: Associativity) -> (r: OpInfo)
        ensures
            r == (OpInfo { precedence, associativity }),
    {
        Self { precedence, associativity }
    }
}

/// The fixed precedence rank of each operator.
pub open spec fn spec_prec(op: Operator) -> int {
    match op {
        Operator::Add => 10,
        Operator::Sub => 10,
        Operator::Mul => 11,
        Operator::Div => 11,
        Operator::Exp => 12,
        Operator::Not => 13,
        Operator::Sqrt => 14,
    }
}

/// Whether an operator is left-associative.
pub open spec fn spec_is_left(op: Operator) -> bool {
    match op {
        Operator::Add => true,
        Operator::Sub => true,
        Operator::Mul => true,
        Operator::Div => true,
        Operator::Exp => false,
        Operator::Not => false,
        Operator::Sqrt => true,
    }
}

/// The operator denoted by a character, if any. The multiplication and
/// division signs have both their ASCII and their typographic forms.
pub open spec fn op_of_char(c: char) -> Option<Operator> {
    if c == '+' {
        Some(Operator::Add)
    } else if c == '-' {
        Some(Operator::Sub)
    } else if c == '*' || c == '\u{00d7}' {
        Some(Operator::Mul)
    } else if c == '/' || c == '\u{00f7}' {
        Some(Operator::Div)
    } else if c == '^' {
        Some(Operator::Exp)
    } else if c == '\u{221a}' {
        Some(Operator::Sqrt)
    } else if c == '!' {
        Some(Operator::Not)
    } else {
        None
    }
}

/// The characters that continue a number: digits and the decimal point.
pub open spec fn is_digit_or_dot(c: char) -> bool {
    (('0' as u32) <= (c as u32) && (c as u32) <= ('9' as u32)) || c == '.'
}

/// The characters the tokenizer accepts as binary (or unary sign) operators.
pub open spec fn is_op_char(c: char) -> bool {
    c == '+' || c == '-' || c == '\u{00d7}' || c == '\u{00f7}' || c == '*' || c == '/' || c == '^'
}

impl Operator {
    pub fn from_char(c: &char) -> (r: Option<Operator>)
        ensures
            r == op_of_char(*c),
    {
        match c {
            '+' => Some(Operator::Add),
            '-' => Some(Operator::Sub),
            '*' => Some(Operator::Mul),
            '\u{00d7}' => Some(Operator::Mul),
            '/' => Some(Operator::Div),
            '\u{00f7}' => Some(Operator::Div),
            '^' => Some(Operator::Exp),
            '\u{221a}' => Some(Operator::Sqrt),
            '!' => Some(Operator::Not),
            _ => None,
        }
    }

    fn get_precedance(&self) -> (r: OpInfo)
        ensures
            r.precedence == spec_prec(*self),
            (r.associativity == Associativity::Left) == spec_is_left(*self),
    {
        match self {
            Operator::Add => OpInfo::from(10, Associativity::Left),
            Operator::Sub => OpInfo::from(10, Associativity::Left),
            Operator::Mul => OpInfo::from(11, Associativity::Left),
            Operator::Div => OpInfo::from(11, Associativity::Left),
            Operator::Exp => OpInfo::from(12, Associativity::Right),
            Operator::Not => OpInfo::from(13, Associativity::Right),
            Operator::Sqrt => OpInfo::from(14, Associativity::Left),
        }
    }
}

/// A token of the postfix output: a decimal number or an operator.
#[derive(Debug, PartialEq, Eq, Structural, Clone, Copy)]
pub enum Token {
    Num(Dec),
    Op(Operator),
}

/// The error taxonomy. Every failure of evaluation is one of these values;
/// no input makes the evaluator panic.
#[derive(Debug, PartialEq, Eq, Structural, Clone, Copy)]
pub enum ParseErr {
    DivisionByZero,
    OutOfBounds,
    SyntaxErr,
    InvalidSymbol,
}

impl ParseErr {
    /// The user-facing message of each error.
    pub open spec fn spec_message(self) -> Seq<char> {
        match self {
            ParseErr::DivisionByZero => "NaN"@,
            ParseErr::OutOfBounds => "Out of Bounds!"@,
            ParseErr::SyntaxErr => "Syntax Error!"@,
            ParseErr::InvalidSymbol => "Invalid Number!"@,
        }
    }

    pub fn as_str(&self) -> (r: &'static str)
        ensures
            r@ == self.spec_message(),
    {
        match self {
            ParseErr::DivisionByZero => "NaN",
            ParseErr::OutOfBounds => "Out of Bounds!",
            ParseErr::SyntaxErr => "Syntax Error!",
            ParseErr::InvalidSymbol => "Invalid Number!",
        }
    }
}

pub type ParseResult = Result<Dec, ParseErr>;

/// What one binary application returns: the checked operation of the operator
/// on `left` and `right`, with the divisor tested against exact zero before
/// any division, and overflow reported as `OutOfBounds`. The reserved
/// operators evaluate to the default zero value.
pub open spec fn apply_op(op: Operator, left: Dec, right: Dec) -> Result<Dec, ParseErr> {
    match op {
        Operator::Add => match add_of(left, right) {
            Some(d) => Ok(d),
            None => Err(ParseErr::OutOfBounds),
        },
        Operator::Sub => match sub_of(left, right) {
            Some(d) => Ok(d),
            None => Err(ParseErr::OutOfBounds),
        },
        Operator::Mul => match mul_of(left, right) {
            Some(d) => Ok(d),
            None => Err(ParseErr::OutOfBounds),
        },
        Operator::Div => if right.is_zero() {
            Err(ParseErr::DivisionByZero)
        } else {
            match div_of(left, right) {
                Some(d) => Ok(d),
                None => Err(ParseErr::OutOfBounds),
            }
        },
        Operator::Exp => match pow_of(left, right) {
            Some(d) => Ok(d),
            None => Err(ParseErr::OutOfBounds),
        },
        Operator::Sqrt => Ok(Dec::spec_zero()),
        Operator::Not => Ok(Dec::spec_zero()),
    }
}

/// The state of the tokenize-and-shunt pass: the staging buffer of the number
/// being accumulated, the operand-expected flag, and the two token
/// containers of the parser.
pub ghost struct ShuntState {
    pub stage: Seq<char>,
    pub expect_operand: bool,
    pub output: Seq<Token>,
    pub stack: Seq<Operator>,
}

/// The state at the start of a pass: empty staging buffer, an operand
/// expected, and whatever the parser's containers already hold.
pub open spec fn init_state(output: Seq<Token>, stack: Seq<Operator>) -> ShuntState {
    ShuntState { stage: Seq::empty(), expect_operand: true, output, stack }
}

/// Whether the operator on top of the stack must be popped to the output
/// before `incoming` is pushed: it has strictly greater precedence, or equal
/// precedence while `incoming` is left-associative.
pub open spec fn should_pop(incoming: Operator, top: Operator) -> bool {
    spec_prec(top) > spec_prec(incoming)
        || (spec_prec(top) == spec_prec(incoming) && spec_is_left(incoming))
}

/// Pops operators to the output while `should_pop` holds, then pushes the
/// incoming operator.
pub open spec fn settle_op(output: Seq<Token>, stack: Seq<Operator>, incoming: Operator) -> (
    Seq<Token>,
    Seq<Operator>,
)
    decreases stack.len(),
{
    if stack.len() > 0 && should_pop(incoming, stack.last()) {
        settle_op(output.push(Token::Op(stack.last())), stack.drop_last(), incoming)
    } else {
        (output, stack.push(incoming))
    }
}

/// Parses the staging buffer, if it is non-empty, and appends it to the
/// output as a number token. A buffer that does not parse is an
/// `InvalidSymbol` error.
pub open spec fn flush_stage(st: ShuntState) -> Result<ShuntState, ParseErr> {
    if st.stage.len() == 0 {
        Ok(st)
    } else {
        match dec_of_chars(st.stage) {
            Some(d) => Ok(
                ShuntState {
                    stage: Seq::empty(),
                    output: st.output.push(Token::Num(d)),
                    ..st
                },
            ),
            None => Err(ParseErr::InvalidSymbol),
        }
    }
}

/// One step of the tokenize-and-shunt pass on a single character. A digit or
/// point extends the staging buffer; an operator character first flushes the
/// buffer, then either handles a unary sign (`+` is dropped, `-` becomes
/// `0 - x`) or settles the operator against the stack; any other character is
/// a syntax error.
pub open spec fn shunt_char(st: ShuntState, c: char) -> Result<ShuntState, ParseErr> {
    if is_digit_or_dot(c) {
        Ok(ShuntState { stage: st.stage.push(c), expect_operand: false, ..st })
    } else if is_op_char(c) {
        match flush_stage(st) {
            Err(e) => Err(e),
            Ok(st1) => {
                if st1.expect_operand && (c == '+' || c == '-') {
                    if c == '-' {
                        Ok(
                            ShuntState {
                                output: st1.output.push(Token::Num(Dec::spec_zero())),
                                stack: st1.stack.push(Operator::Sub),
                                ..st1
                            },
                        )
                    } else {
                        Ok(st1)
                    }
                } else {
                    match op_of_char(c) {
                        Some(op) => {
                            let settled = settle_op(st1.output, st1.stack, op);
                            Ok(
                                ShuntState {
                                    expect_operand: true,
                                    output: settled.0,
                                    stack: settled.1,
                                    ..st1
                                },
                            )
                        },
                        None => Err(ParseErr::SyntaxErr),
                    }
                }
            },
        }
    } else {
        Err(ParseErr::SyntaxErr)
    }
}

/// Runs the tokenize-and-shunt pass over the characters, stopping at the
/// first error; returns the state reached together with the error, if any.
pub open spec fn shunt_chars(st: ShuntState, chars: Seq<char>) -> (ShuntState, Option<ParseErr>)
    decreases chars.len(),
{
    if chars.len() == 0 {
        (st, None)
    } else {
        match shunt_char(st, chars.first()) {
            Err(e) => (st, Some(e)),
            Ok(st1) => shunt_chars(st1, chars.drop_first()),
        }
    }
}

/// Pops every remaining operator from the stack to the output, in pop order.
pub open spec fn drain_ops(output: Seq<Token>, stack: Seq<Operator>) -> Seq<Token>
    decreases stack.len(),
{
    if stack.len() == 0 {
        output
    } else {
        drain_ops(output.push(Token::Op(stack.last())), stack.drop_last())
    }
}

/// The end of the pass: flush the final staged number, then drain the
/// operator stack into the output.
pub open spec fn shunt_finish(st: ShuntState) -> (ShuntState, Option<ParseErr>) {
    match flush_stage(st) {
        Err(e) => (st, Some(e)),
        Ok(st1) => (
            ShuntState { output: drain_ops(st1.output, st1.stack), stack: Seq::empty(), ..st1 },
            None,
        ),
    }
}

/// The whole tokenize-and-shunt pass: run over every character, then finish.
/// On an error the state reached so far is returned with it.
pub open spec fn spec_shunt(st: ShuntState, chars: Seq<char>) -> (ShuntState, Option<ParseErr>) {
    let run = shunt_chars(st, chars);
    match run.1 {
        Some(e) => (run.0, Some(e)),
        None => shunt_finish(run.0),
    }
}

/// One pass of the reducer over the postfix tokens, carrying the value
/// stack: a number is pushed; an operator pops two values (the expression is
/// malformed if fewer are there) and pushes the applied result.
pub open spec fn reduce_tokens(vals: Seq<Dec>, toks: Seq<Token>) -> Result<Seq<Dec>, ParseErr>
    decreases toks.len(),
{
    if toks.len() == 0 {
        Ok(vals)
    } else {
        match toks.first() {
            Token::Num(d) => reduce_tokens(vals.push(d), toks.drop_first()),
            Token::Op(op) => {
                if vals.len() < 2 {
                    Err(ParseErr::SyntaxErr)
                } else {
                    match apply_op(op, vals[vals.len() - 2], vals.last()) {
                        Ok(v) => reduce_tokens(
                            vals.drop_last().drop_last().push(v),
                            toks.drop_first(),
                        ),
                        Err(e) => Err(e),
                    }
                }
            },
        }
    }
}

/// What reducing a postfix token sequence returns: the last value left on
/// the value stack, or `SyntaxErr` when none is.
pub open spec fn spec_reduce(toks: Seq<Token>) -> Result<Dec, ParseErr> {
    match reduce_tokens(Seq::empty(), toks) {
        Err(e) => Err(e),
        Ok(vals) => if vals.len() == 0 {
            Err(ParseErr::SyntaxErr)
        } else {
            Ok(vals.last())
        },
    }
}

/// What one full `calculate_result` call does, from the given container
/// contents: the state the containers are left in, and the returned result.
pub open spec fn spec_calc(
    chars: Seq<char>,
    output0: Seq<Token>,
    stack0: Seq<Operator>,
) -> (ShuntState, Result<Dec, ParseErr>) {
    let run = spec_shunt(init_state(output0, stack0), chars);
    match run.1 {
        Some(e) => (run.0, Err(e)),
        None => (run.0, spec_reduce(run.0.output)),
    }
}

/// What evaluating an expression string on a fresh evaluator returns.
pub open spec fn spec_calculate(chars: Seq<char>) -> Result<Dec, ParseErr> {
    spec_calc(chars, Seq::empty(), Seq::empty()).1
}

/// Every number token holds a representable decimal.
pub open spec fn token_valid(t: Token) -> bool {
    match t {
        Token::Num(d) => d.valid(),
        Token::Op(_) => true,
    }
}

/// Validity of a whole token sequence.
pub open spec fn tokens_valid(toks: Seq<Token>) -> bool {
    forall|i: int| 0 <= i < toks.len() ==> token_valid(#[trigger] toks[i])
}

/// Validity of a value stack.
pub open spec fn vals_valid(vals: Seq<Dec>) -> bool {
    forall|i: int| 0 <= i < vals.len() ==> (#[trigger] vals[i]).valid()
}

impl Operator {
    /// Applies this operator to two popped values, the most recently popped
    /// one first.
    pub fn operate_on(&self, right: Dec, left: Dec) -> (r: ParseResult)
        requires
            right.valid(),
            left.valid(),
        ensures
            r == apply_op(*self, left, right),
            r matches Ok(d) ==> d.valid(),
    {
        match self {
            Operator::Add => match dec_add(&left, &right) {
                Some(d) => Ok(d),
                None => Err(ParseErr::OutOfBounds),
            },
            Operator::Sub => match dec_sub(&left, &right) {
                Some(d) => Ok(d),
                None => Err(ParseErr::OutOfBounds),
            },
            Operator::Mul => match dec_mul(&left, &right) {
                Some(d) => Ok(d),
                None => Err(ParseErr::OutOfBounds),
            },
            Operator::Div => {
                if right.mantissa() == 0 {
                    Err(ParseErr::DivisionByZero)
                } else {
                    match dec_div(&left, &right) {
                        Some(d) => Ok(d),
                        None => Err(ParseErr::OutOfBounds),
                    }
                }
            },
            Operator::Exp => match dec_pow(&left, &right) {
                Some(d) => Ok(d),
                None => Err(ParseErr::OutOfBounds),
            },
            Operator::Sqrt => Ok(Dec::zero()),
            Operator::Not => Ok(Dec::zero()),
        }
    }
}

/// Shunting distributes over concatenation of the input: running over
/// `a + b` is running over `a` and, if no error stopped it, running over `b`
/// from the state reached.
pub proof fn lemma_shunt_chars_concat(st: ShuntState, a: Seq<char>, b: Seq<char>)
    ensures
        shunt_chars(st, a + b) == ({
            let ra = shunt_chars(st, a);
            if ra.1 is Some {
                ra
            } else {
                shunt_chars(ra.0, b)
            }
        }),
    decreases a.len(),
{
    if a.len() == 0 {
        assert(a + b =~= b);
    } else {
        assert((a + b).first() == a.first());
        assert((a + b).drop_first() =~= a.drop_first() + b);
        match shunt_char(st, a.first()) {
            Err(e) => {},
            Ok(st1) => {
                lemma_shunt_chars_concat(st1, a.drop_first(), b);
            },
        }
    }
}

/// Whether a character continues a number.
fn digit_or_dot(c: char) -> (r: bool)
    ensures
        r == is_digit_or_dot(c),
{
    let u = c as u32;
    (('0' as u32) <= u && u <= ('9' as u32)) || c == '.'
}

/// Whether a character is one the tokenizer accepts as an operator.
fn op_char(c: char) -> (r: bool)
    ensures
        r == is_op_char(c),
{
    c == '+' || c == '-' || c == '\u{00d7}' || c == '\u{00f7}' || c == '*' || c == '/' || c == '^'
}

/// Shunting a single character is one `shunt_char` step.
pub proof fn lemma_shunt_chars_singleton(st: ShuntState, c: char)
    ensures
        shunt_chars(st, seq![c]) == (match shunt_char(st, c) {
            Ok(st1) => (st1, None::<ParseErr>),
            Err(e) => (st, Some(e)),
        }),
{
    assert(seq![c].first() == c);
    assert(seq![c].drop_first() =~= Seq::<char>::empty());
    match shunt_char(st, c) {
        Ok(st1) => {
            assert(shunt_chars(st1, seq![c].drop_first()) == (st1, None::<ParseErr>));
        },
        Err(_) => {},
    }
}

/// A token sequence stays valid when a valid token is appended.
proof fn lemma_tokens_valid_push(toks: Seq<Token>, t: Token)
    requires
        tokens_valid(toks),
        token_valid(t),
    ensures
        tokens_valid(toks.push(t)),
{
    assert forall|i: int| 0 <= i < toks.push(t).len() implies token_valid(
        #[trigger] toks.push(t)[i],
    ) by {
        if i < toks.len() {
            assert(toks.push(t)[i] == toks[i]);
        } else {
            assert(toks.push(t)[i] == t);
        }
    }
}

/// Reduction distributes over concatenation of the postfix tokens.
pub proof fn lemma_reduce_tokens_concat(vals: Seq<Dec>, a: Seq<Token>, b: Seq<Token>)
    ensures
        reduce_tokens(vals, a + b) == (match reduce_tokens(vals, a) {
            Ok(vs) => reduce_tokens(vs, b),
            Err(e) => Err::<Seq<Dec>, ParseErr>(e),
        }),
    decreases a.len(),
{
    if a.len() == 0 {
        assert(a + b =~= b);
    } else {
        assert((a + b).first() == a.first());
        assert((a + b).drop_first() =~= a.drop_first() + b);
        match a.first() {
            Token::Num(d) => {
                lemma_reduce_tokens_concat(vals.push(d), a.drop_first(), b);
            },
            Token::Op(op) => {
                if vals.len() >= 2 {
                    match apply_op(op, vals[vals.len() - 2], vals.last()) {
                        Ok(v) => {
                            lemma_reduce_tokens_concat(
                                vals.drop_last().drop_last().push(v),
                                a.drop_first(),
                                b,
                            );
                        },
                        Err(_) => {},
                    }
                }
            },
        }
    }
}

/// Reducing a single token is one step of the reducer.
pub proof fn lemma_reduce_tokens_singleton(vals: Seq<Dec>, t: Token)
    ensures
        reduce_tokens(vals, seq![t]) == (match t {
            Token::Num(d) => Ok::<Seq<Dec>, ParseErr>(vals.push(d)),
            Token::Op(op) => {
                if vals.len() < 2 {
                    Err::<Seq<Dec>, ParseErr>(ParseErr::SyntaxErr)
                } else {
                    match apply_op(op, vals[vals.len() - 2], vals.last()) {
                        Ok(v) => Ok::<Seq<Dec>, ParseErr>(vals.drop_last().drop_last().push(v)),
                        Err(e) => Err::<Seq<Dec>, ParseErr>(e),
                    }
                }
            },
        }),
{
    assert(seq![t].first() == t);
    assert(seq![t].drop_first() =~= Seq::<Token>::empty());
    match t {
        Token::Num(d) => {
            assert(reduce_tokens(vals.push(d), seq![t].drop_first()) == Ok::<
                Seq<Dec>,
                ParseErr,
            >(vals.push(d)));
        },
        Token::Op(op) => {
            if vals.len() >= 2 {
                match apply_op(op, vals[vals.len() - 2], vals.last()) {
                    Ok(v) => {
                        assert(reduce_tokens(
                            vals.drop_last().drop_last().push(v),
                            seq![t].drop_first(),
                        ) == Ok::<Seq<Dec>, ParseErr>(vals.drop_last().drop_last().push(v)));
                    },
                    Err(_) => {},
                }
            }
        },
    }
}

/// A value stack stays valid when a valid value is pushed.
proof fn lemma_vals_valid_push(vals: Seq<Dec>, d: Dec)
    requires
        vals_valid(vals),
        d.valid(),
    ensures
        vals_valid(vals.push(d)),
{
    assert forall|i: int| 0 <= i < vals.push(d).len() implies (#[trigger] vals.push(d)[i]).valid() by {
        if i < vals.len() {
            assert(vals.push(d)[i] == vals[i]);
        } else {
            assert(vals.push(d)[i] == d);
        }
    }
}

/// The mathematical contents of a `ShuntParser`: the characters of the
/// current expression and the two token containers.
pub ghost struct ParserView {
    pub c_tokens: Seq<char>,
    pub output: Seq<Token>,
    pub stack: Seq<Operator>,
}

/// A shunting-yard parser. It owns the characters of the current expression,
/// the postfix output sequence, and the operator stack, all cleared by
/// `reset` after a calculation.
#[derive(Debug)]
pub struct ShuntParser {
    /// Tokens in char format from the input string.
    c_tokens: Vec<char>,
    /// The final output stack of tokens.
    output: Vec<Token>,
    /// Operator stack.
    stack: Vec<Operator>,
}

impl View for ShuntParser {
    type V = ParserView;

    closed spec fn view(&self) -> ParserView {
        ParserView { c_tokens: self.c_tokens@, output: self.output@, stack: self.stack@ }
    }
}

impl ShuntParser {
    /// Every number token held in the output is a representable decimal.
    pub open spec fn wf(self) -> bool {
        tokens_valid(self@.output)
    }

    /// A fresh parser: all three containers empty.
    pub fn new() -> (r: Self)
        ensures
            r@.c_tokens == Seq::<char>::empty(),
            r@.output == Seq::<Token>::empty(),
            r@.stack == Seq::<Operator>::empty(),
            r.wf(),
    {
        ShuntParser { c_tokens: Vec::new(), output: Vec::new(), stack: Vec::new() }
    }

    /// Replaces the expression with the characters of `input`; the other two
    /// containers are untouched. The last call wins.
    pub fn set_input(&mut self, input: String) -> (r: &Self)
        ensures
            final(self)@.c_tokens == input@,
            final(self)@.output == old(self)@.output,
            final(self)@.stack == old(self)@.stack,
            old(self).wf() ==> final(self).wf(),
    {
        let n = input.as_str().unicode_len();
        let mut cs: Vec<char> = Vec::new();
        let mut i: usize = 0;
        while i < n
            invariant
                i <= n,
                n == input@.len(),
                cs@ =~= input@.take(i as int),
            decreases n - i,
        {
            let c = input.as_str().get_char(i);
            cs.push(c);
            proof {
                assert(cs@ =~= input@.take(i + 1));
            }
            i += 1;
        }
        proof {
            assert(cs@ =~= input@);
        }
        self.c_tokens = cs;
        self
    }

    /// The tokenize-and-shunt pass: reads the expression characters once,
    /// left to right, staging digits into a number buffer and settling
    /// operators against the stack, then flushes the last number and drains
    /// the stack. The containers afterwards, and the error if one stopped the
    /// pass, are exactly what `spec_shunt` says of the initial contents.
    fn shunt_tokens(&mut self) -> (r: Result<(), ParseErr>)
        requires
            old(self).wf(),
        ensures
            ({
                let run = spec_shunt(
                    init_state(old(self)@.output, old(self)@.stack),
                    old(self)@.c_tokens,
                );
                &&& final(self)@.c_tokens == old(self)@.c_tokens
                &&& final(self)@.output == run.0.output
                &&& final(self)@.stack == run.0.stack
                &&& final(self).wf()
                &&& match r {
                    Ok(()) => run.1 is None,
                    Err(e) => run.1 == Some(e),
                }
            }),
    {
        let ghost st0 = init_state(self@.output, self@.stack);
        let ghost chars = self@.c_tokens;
        let mut stage: Vec<char> = Vec::new();
        let mut expect_operand = true;
        let n = self.c_tokens.len();
        let mut idx: usize = 0;
        while idx < n
            invariant
                idx <= n,
                n == self.c_tokens@.len(),
                self.c_tokens@ == chars,
                chars == old(self)@.c_tokens,
                st0 == init_state(old(self)@.output, old(self)@.stack),
                ({
                    let run = shunt_chars(st0, chars.take(idx as int));
                    &&& run.1 is None
                    &&& run.0.stage == stage@
                    &&& run.0.expect_operand == expect_operand
                    &&& run.0.output == self.output@
                    &&& run.0.stack == self.stack@
                }),
                tokens_valid(self.output@),
            decreases n - idx,
        {
            let c = self.c_tokens[idx];
            let ghost pre = shunt_chars(st0, chars.take(idx as int)).0;
            proof {
                lemma_shunt_chars_concat(st0, chars.take(idx as int), seq![c]);
                assert(chars.take(idx as int) + seq![c] =~= chars.take(idx as int + 1));
                lemma_shunt_chars_singleton(pre, c);
                lemma_shunt_chars_concat(st0, chars.take(idx as int), chars.skip(idx as int));
                assert(chars.take(idx as int) + chars.skip(idx as int) =~= chars);
                assert(chars.skip(idx as int).first() == c);
            }
            if digit_or_dot(c) {
                stage.push(c);
                expect_operand = false;
            } else if op_char(c) {
                // Flush the staged number first.
                if stage.len() > 0 {
                    match parse_decimal(&stage) {
                        Some(d) => {
                            self.output.push(Token::Num(d));
                            proof {
                                lemma_tokens_valid_push(pre.output, Token::Num(d));
                            }
                            stage.clear();
                        },
                        None => {
                            return Err(ParseErr::InvalidSymbol);
                        },
                    }
                }
                let ghost flushed = match flush_stage(pre) {
                    Ok(s) => s,
                    Err(_) => pre,
                };
                // Then handle the operator.
                if expect_operand && (c == '+' || c == '-') {
                    if c == '-' {
                        self.output.push(Token::Num(Dec::zero()));
                        proof {
                            lemma_tokens_valid_push(flushed.output, Token::Num(Dec::spec_zero()));
                        }
                        self.stack.push(Operator::Sub);
                    }
                } else {
                    let input_operator = match Operator::from_char(&c) {
                        Some(op) => op,
                        None => {
                            return Err(ParseErr::SyntaxErr);
                        },
                    };
                    let in_op_info = input_operator.get_precedance();
                    let ghost out_snap = self.output@;
                    let ghost stack_snap = self.stack@;
                    loop
                        invariant
                            settle_op(out_snap, stack_snap, input_operator) == settle_op(
                                self.output@,
                                self.stack@,
                                input_operator,
                            ),
                            tokens_valid(self.output@),
                            self.c_tokens@ == chars,
                            in_op_info.precedence == spec_prec(input_operator),
                            (in_op_info.associativity == Associativity::Left) == spec_is_left(
                                input_operator,
                            ),
                        ensures
                            settle_op(out_snap, stack_snap, input_operator) == ((
                                self.output@,
                                self.stack@.push(input_operator),
                            )),
                            tokens_valid(self.output@),
                            self.c_tokens@ == chars,
                        decreases self.stack@.len(),
                    {
                        if self.stack.len() == 0 {
                            break ;
                        }
                        let stack_operator = self.stack[self.stack.len() - 1];
                        let stack_op_info = stack_operator.get_precedance();
                        if (in_op_info.precedence < stack_op_info.precedence) || (
                        in_op_info.precedence == stack_op_info.precedence
                            && in_op_info.associativity == Associativity::Left) {
                            let ghost out_before = self.output@;
                            let stack_op = self.stack.pop().unwrap();
                            self.output.push(Token::Op(stack_op));
                            proof {
                                lemma_tokens_valid_push(out_before, Token::Op(stack_op));
                            }
                        } else {
                            break ;
                        }
                    }
                    self.stack.push(input_operator);
                    expect_operand = true;
                }
            } else {
                return Err(ParseErr::SyntaxErr);
            }
            idx += 1;
        }
        proof {
            assert(chars.take(n as int) =~= chars);
        }
        let ghost at_end = shunt_chars(st0, chars).0;
        // Flush the final staged number.
        if stage.len() > 0 {
            match parse_decimal(&stage) {
                Some(d) => {
                    self.output.push(Token::Num(d));
                    proof {
                        lemma_tokens_valid_push(at_end.output, Token::Num(d));
                    }
                    stage.clear();
                },
                None => {
                    return Err(ParseErr::InvalidSymbol);
                },
            }
        }
        let ghost flushed = match flush_stage(at_end) {
            Ok(s) => s,
            Err(_) => at_end,
        };
        // Drain the remaining operators to the output, in pop order.
        while self.stack.len() > 0
            invariant
                drain_ops(flushed.output, flushed.stack) == drain_ops(self.output@, self.stack@),
                tokens_valid(self.output@),
                self.c_tokens@ == chars,
            decreases self.stack@.len(),
        {
            let ghost out_before = self.output@;
            let operator = self.stack.pop().unwrap();
            self.output.push(Token::Op(operator));
            proof {
                lemma_tokens_valid_push(out_before, Token::Op(operator));
            }
        }
        Ok(())
    }

    /// The reduction pass: reads the postfix output once, pushing numbers on
    /// a value stack and applying each operator to the two most recently
    /// pushed values; returns the last value left, or the first error.
    fn parse_output_stack(&mut self) -> (r: ParseResult)
        requires
            old(self).wf(),
        ensures
            final(self)@ == old(self)@,
            r == spec_reduce(old(self)@.output),
            r matches Ok(d) ==> d.valid(),
    {
        let ghost toks = self@.output;
        let mut dec_stack: Vec<Dec> = Vec::new();
        let n = self.output.len();
        let mut j: usize = 0;
        while j < n
            invariant
                j <= n,
                n == self.output@.len(),
                self@ == old(self)@,
                toks == self@.output,
                tokens_valid(toks),
                reduce_tokens(Seq::empty(), toks.take(j as int)) == Ok::<Seq<Dec>, ParseErr>(
                    dec_stack@,
                ),
                vals_valid(dec_stack@),
            decreases n - j,
        {
            let au = self.output[j];
            let ghost vals = dec_stack@;
            proof {
                lemma_reduce_tokens_concat(Seq::empty(), toks.take(j as int), seq![au]);
                assert(toks.take(j as int) + seq![au] =~= toks.take(j as int + 1));
                lemma_reduce_tokens_singleton(vals, au);
                lemma_reduce_tokens_concat(Seq::empty(), toks.take(j as int), toks.skip(j as int));
                assert(toks.take(j as int) + toks.skip(j as int) =~= toks);
                assert(toks.skip(j as int).first() == au);
            }
            match au {
                Token::Num(dec) => {
                    dec_stack.push(dec);
                    proof {
                        assert(toks[j as int] == au);
                        assert(token_valid(toks[j as int]));
                        lemma_vals_valid_push(vals, dec);
                    }
                },
                Token::Op(op) => {
                    proof {
                        if vals.len() >= 2 {
                            assert(vals[vals.len() - 1].valid());
                            assert(vals[vals.len() - 2].valid());
                        } else if vals.len() == 1 {
                            assert(vals[0].valid());
                        }
                    }
                    let right_reg = match dec_stack.pop() {
                        Some(v) => v,
                        None => {
                            return Err(ParseErr::SyntaxErr);
                        },
                    };
                    let left_reg = match dec_stack.pop() {
                        Some(v) => v,
                        None => {
                            return Err(ParseErr::SyntaxErr);
                        },
                    };
                    proof {
                        assert(right_reg == vals.last());
                        assert(left_reg == vals[vals.len() - 2]);
                    }
                    let new_val = match op.operate_on(right_reg, left_reg) {
                        Ok(v) => v,
                        Err(e) => {
                            return Err(e);
                        },
                    };
                    dec_stack.push(new_val);
                    proof {
                        assert forall|i: int|
                            0 <= i < vals.drop_last().drop_last().len() implies (
                        #[trigger] vals.drop_last().drop_last()[i]).valid() by {
                            assert(vals.drop_last().drop_last()[i] == vals[i]);
                        }
                        lemma_vals_valid_push(vals.drop_last().drop_last(), new_val);
                        assert(dec_stack@ =~= vals.drop_last().drop_last().push(new_val));
                    }
                },
            }
            j += 1;
        }
        proof {
            assert(toks.take(n as int) =~= toks);
        }
        match dec_stack.pop() {
            Some(v) => Ok(v),
            None => Err(ParseErr::SyntaxErr),
        }
    }

    /// Runs the two passes in order: tokenize-and-shunt, then reduce. The
    /// result, and the containers afterwards, are exactly what `spec_calc`
    /// says of the containers before the call.
    pub fn calculate_result(&mut self) -> (r: ParseResult)
        requires
            old(self).wf(),
        ensures
            ({
                let cres = spec_calc(old(self)@.c_tokens, old(self)@.output, old(self)@.stack);
                &&& final(self)@.c_tokens == old(self)@.c_tokens
                &&& final(self)@.output == cres.0.output
                &&& final(self)@.stack == cres.0.stack
                &&& final(self).wf()
                &&& r == cres.1
                &&& (r matches Ok(d) ==> d.valid())
            }),
    {
        match self.shunt_tokens() {
            Err(e) => Err(e),
            Ok(()) => self.parse_output_stack(),
        }
    }

    /// Clears the expression, the output and the operator stack, leaving the
    /// parser as freshly constructed.
    pub fn reset(&mut self)
        ensures
            final(self)@.c_tokens == Seq::<char>::empty(),
            final(self)@.output == Seq::<Token>::empty(),
            final(self)@.stack == Seq::<Operator>::empty(),
            final(self).wf(),
    {
        self.c_tokens.clear();
        self.output.clear();
        self.stack.clear();
    }
}

/// Evaluates one expression string on a fresh evaluator.
pub fn calculate(input: String) -> (r: ParseResult)
    ensures
        r == spec_calculate(input@),
        r matches Ok(d) ==> d.valid(),
{
    let mut parser = ShuntParser::new();
    parser.set_input(input);
    parser.calculate_result()
}

} // verus!
