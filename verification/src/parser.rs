//! The expression evaluator: a recursive-descent parser over four
//! precedence tiers (additive, multiplicative, power, primary) that
//! computes a value while it parses, pulling tokens from the tokenizer
//! with one token of pushback per grammar rule. An end-of-input token is
//! never pushed back: pulling again re-scans the exhausted input and
//! yields the same token.
//!
//! Every rule is specified by a fuel-indexed mathematical evaluator
//! (`s_expression` and its companions); each executable rule is proved to
//! return exactly what the mathematical evaluator returns, for every
//! sufficient fuel, together with the exact tokenizer and variable-table
//! state it leaves behind. All operators of one tier combine left to
//! right; `^` in particular is evaluated left to right, not right
//! associatively. Errors are structured values that propagate to the
//! caller: an undefined variable is a catchable `UndefinedVariable` error,
//! not a process abort. Evaluating a parenthesized sub-expression clears
//! the whole variable table, an observable quirk that is kept and pinned
//! down by the specification.

use vstd::prelude::*;
use crate::lexer::{
    Lexer, LexStateV, lex_measure, spec_next, wf_state, lemma_spec_next_measure, Cursor,
};
use crate::token::{Token, TokenType, TokenV};
use crate::value::{
    ErrorKind, EvalError, Value, ValueV, spec_parse_number, spec_binary_operation,
    parse_number_text, pow_checked,
};

verus! {

/// Association list from identifier names to values, read as a map; a
/// later entry for the same name wins, though the table never holds one.
pub open spec fn assoc_map(s: Seq<(String, Value)>) -> Map<Seq<char>, ValueV>
    decreases s.len(),
{
    if s.len() == 0 {
        Map::empty()
    } else {
        assoc_map(s.drop_last()).insert(s.last().0@, s.last().1@)
    }
}

pub open spec fn keys_unique(s: Seq<(String, Value)>) -> bool {
    forall|i: int, j: int| 0 <= i < j < s.len() ==> (#[trigger] s[i]).0@ != (#[trigger] s[j]).0@
}

proof fn lemma_assoc_map_contains(s: Seq<(String, Value)>, k: Seq<char>)
    ensures
        assoc_map(s).contains_key(k) <==> exists|j: int| 0 <= j < s.len() && (#[trigger] s[j]).0@
            == k,
    decreases s.len(),
{
    if s.len() > 0 {
        lemma_assoc_map_contains(s.drop_last(), k);
        if s.last().0@ == k {
            assert(s[s.len() - 1].0@ == k);
        } else {
            if exists|j: int| 0 <= j < s.len() - 1 && (#[trigger] s.drop_last()[j]).0@ == k {
                let j = choose|j: int|
                    0 <= j < s.len() - 1 && (#[trigger] s.drop_last()[j]).0@ == k;
                assert(s[j].0@ == k);
            }
            if exists|j: int| 0 <= j < s.len() && (#[trigger] s[j]).0@ == k {
                let j = choose|j: int| 0 <= j < s.len() && (#[trigger] s[j]).0@ == k;
                assert(s.drop_last()[j].0@ == k);
            }
        }
    }
}

proof fn lemma_assoc_map_index(s: Seq<(String, Value)>, j: int)
    requires
        keys_unique(s),
        0 <= j < s.len(),
    ensures
        assoc_map(s).contains_key(s[j].0@),
        assoc_map(s)[s[j].0@] == s[j].1@,
    decreases s.len(),
{
    if j == s.len() - 1 {
    } else {
        assert(keys_unique(s.drop_last())) by {
            assert(forall|a: int, b: int|
                0 <= a < b < s.len() - 1 ==> (#[trigger] s.drop_last()[a]).0@ != (
                #[trigger] s.drop_last()[b]).0@) by {
                assert(forall|a: int|
                    0 <= a < s.len() - 1 ==> (#[trigger] s.drop_last()[a]) == s[a]);
            }
        }
        lemma_assoc_map_index(s.drop_last(), j);
        assert(s.drop_last()[j] == s[j]);
        assert(s[j].0@ != s.last().0@);
    }
}

proof fn lemma_assoc_map_remove(s: Seq<(String, Value)>, i: int)
    requires
        keys_unique(s),
        0 <= i < s.len(),
    ensures
        assoc_map(s.remove(i)) == assoc_map(s).remove(s[i].0@),
    decreases s.len(),
{
    let k = s[i].0@;
    if i == s.len() - 1 {
        assert(s.remove(i) =~= s.drop_last());
        lemma_assoc_map_contains(s.drop_last(), k);
        assert(forall|a: int| 0 <= a < s.len() - 1 ==> (#[trigger] s.drop_last()[a]) == s[a]);
        assert(!assoc_map(s.drop_last()).contains_key(k));
        assert(assoc_map(s.drop_last()) =~= assoc_map(s).remove(k));
    } else {
        assert(keys_unique(s.drop_last())) by {
            assert(forall|a: int| 0 <= a < s.len() - 1 ==> (#[trigger] s.drop_last()[a]) == s[a]);
        }
        assert(s.remove(i).last() == s.last());
        assert(s.remove(i).drop_last() =~= s.drop_last().remove(i));
        assert(s.drop_last()[i] == s[i]);
        lemma_assoc_map_remove(s.drop_last(), i);
        assert(k != s.last().0@);
        assert(assoc_map(s.drop_last()).remove(k).insert(s.last().0@, s.last().1@) =~= assoc_map(
            s.drop_last(),
        ).insert(s.last().0@, s.last().1@).remove(k));
    }
}

/// Mathematical image of the evaluator: its tokenizer state and variable
/// table.
#[verifier::ext_equal]
pub ghost struct PState {
    pub lex: LexStateV,
    pub vars: Map<Seq<char>, ValueV>,
}

/// The mathematical image of an evaluation result: the value, or the
/// structured error, that the caller receives.
pub open spec fn res_view(r: Result<Value, EvalError>) -> Result<ValueV, EvalError> {
    match r {
        Ok(v) => Ok(v@),
        Err(e) => Err(e),
    }
}

/// An error of kind `kind` at the position of token `t`.
pub open spec fn err_at(kind: ErrorKind, t: TokenV) -> EvalError {
    EvalError { kind, line: t.line as usize, column: t.column as usize }
}

/// Is `t` an operator token with exactly the text `s`?
pub open spec fn op_text_is(t: TokenV, s: Seq<char>) -> bool {
    t.token_type == TokenType::Operator && t.value == s
}

/// The tokenizer state with `t` pushed back in front.
pub open spec fn push1(st: LexStateV, t: TokenV) -> LexStateV {
    LexStateV { buf: seq![t] + st.buf, ..st }
}

/// How a binary operator token combines two values: a non-operator token
/// is a syntax error; otherwise the operator's rule applies, and an error
/// is reported at the token's position.
pub open spec fn spec_apply(l: ValueV, t: TokenV, r: ValueV) -> Result<ValueV, EvalError> {
    if t.token_type != TokenType::Operator {
        Err(err_at(ErrorKind::SyntaxError, t))
    } else {
        match spec_binary_operation(l, t.value, r) {
            Ok(v) => Ok(v),
            Err(k) => Err(err_at(k, t)),
        }
    }
}

/// Negating the result of a unary-minus chain: only a number can be
/// negated; the overflowing negation is reported at token `t`, as is an
/// attempt to negate a text.
pub open spec fn spec_negate(neg: bool, v: ValueV, t: TokenV) -> Result<ValueV, EvalError> {
    match v {
        ValueV::Number(m) => if neg {
            if m == i64::MIN {
                Err(err_at(ErrorKind::Overflow, t))
            } else {
                Ok(ValueV::Number((-m) as i64))
            }
        } else {
            Ok(ValueV::Number(m))
        },
        ValueV::Text(_) => Err(err_at(ErrorKind::TypeMismatch, t)),
    }
}

/// As `spec_negate`, expressed over the position alone.
pub open spec fn spec_negate_pos(neg: bool, v: ValueV, line: usize, column: usize) -> Result<
    ValueV,
    EvalError,
> {
    match v {
        ValueV::Number(m) => if neg {
            if m == i64::MIN {
                Err(EvalError { kind: ErrorKind::Overflow, line, column })
            } else {
                Ok(ValueV::Number((-m) as i64))
            }
        } else {
            Ok(ValueV::Number(m))
        },
        ValueV::Text(_) => Err(EvalError { kind: ErrorKind::TypeMismatch, line, column }),
    }
}

/// The additive tier: a term, then zero or more `+` or `-` terms, left to
/// right. `None` means the fuel ran out; every executable rule is proved
/// to agree with this for all sufficient fuel.
pub open spec fn s_expression(f: nat, p: PState) -> Option<(Result<ValueV, EvalError>, PState)>
    decreases f, 1int,
{
    if f == 0 {
        None
    } else {
        match s_term((f - 1) as nat, p) {
            None => None,
            Some((Err(e), p1)) => Some((Err(e), p1)),
            Some((Ok(v), p1)) => s_expr_more((f - 1) as nat, v, p1),
        }
    }
}

/// The continuation of the additive tier after a first value.
pub open spec fn s_expr_more(f: nat, acc: ValueV, p: PState) -> Option<
    (Result<ValueV, EvalError>, PState),
>
    decreases f, 0int,
{
    if f == 0 {
        None
    } else {
        let n = spec_next(p.lex);
        let p1 = PState { lex: n.st, vars: p.vars };
        if op_text_is(n.token, "+"@) || op_text_is(n.token, "-"@) {
            match s_term((f - 1) as nat, p1) {
                None => None,
                Some((Err(e), p2)) => Some((Err(e), p2)),
                Some((Ok(r), p2)) => match spec_apply(acc, n.token, r) {
                    Ok(v2) => s_expr_more((f - 1) as nat, v2, p2),
                    Err(e) => Some((Err(e), p2)),
                },
            }
        } else if n.token.token_type == TokenType::EOF {
            Some((Ok(acc), p1))
        } else {
            Some((Ok(acc), PState { lex: push1(n.st, n.token), vars: p.vars }))
        }
    }
}

/// The multiplicative tier: a power, then zero or more `*`, `/` or `%`
/// powers, left to right.
pub open spec fn s_term(f: nat, p: PState) -> Option<(Result<ValueV, EvalError>, PState)>
    decreases f, 1int,
{
    if f == 0 {
        None
    } else {
        match s_power((f - 1) as nat, p) {
            None => None,
            Some((Err(e), p1)) => Some((Err(e), p1)),
            Some((Ok(v), p1)) => s_term_more((f - 1) as nat, v, p1),
        }
    }
}

/// The continuation of the multiplicative tier after a first value.
pub open spec fn s_term_more(f: nat, acc: ValueV, p: PState) -> Option<
    (Result<ValueV, EvalError>, PState),
>
    decreases f, 0int,
{
    if f == 0 {
        None
    } else {
        let n = spec_next(p.lex);
        let p1 = PState { lex: n.st, vars: p.vars };
        if op_text_is(n.token, "*"@) || op_text_is(n.token, "/"@) || op_text_is(n.token, "%"@) {
            match s_power((f - 1) as nat, p1) {
                None => None,
                Some((Err(e), p2)) => Some((Err(e), p2)),
                Some((Ok(r), p2)) => match spec_apply(acc, n.token, r) {
                    Ok(v2) => s_term_more((f - 1) as nat, v2, p2),
                    Err(e) => Some((Err(e), p2)),
                },
            }
        } else if n.token.token_type == TokenType::EOF {
            Some((Ok(acc), p1))
        } else {
            Some((Ok(acc), PState { lex: push1(n.st, n.token), vars: p.vars }))
        }
    }
}

/// The power tier: a primary, then zero or more `^` primaries, combined
/// left to right (no right associativity).
pub open spec fn s_power(f: nat, p: PState) -> Option<(Result<ValueV, EvalError>, PState)>
    decreases f, 1int,
{
    if f == 0 {
        None
    } else {
        match s_primary((f - 1) as nat, p) {
            None => None,
            Some((Err(e), p1)) => Some((Err(e), p1)),
            Some((Ok(v), p1)) => s_power_more((f - 1) as nat, v, p1),
        }
    }
}

/// The continuation of the power tier after a first value.
pub open spec fn s_power_more(f: nat, acc: ValueV, p: PState) -> Option<
    (Result<ValueV, EvalError>, PState),
>
    decreases f, 0int,
{
    if f == 0 {
        None
    } else {
        let n = spec_next(p.lex);
        let p1 = PState { lex: n.st, vars: p.vars };
        if op_text_is(n.token, "^"@) {
            match s_primary((f - 1) as nat, p1) {
                None => None,
                Some((Err(e), p2)) => Some((Err(e), p2)),
                Some((Ok(r), p2)) => match spec_apply(acc, n.token, r) {
                    Ok(v2) => s_power_more((f - 1) as nat, v2, p2),
                    Err(e) => Some((Err(e), p2)),
                },
            }
        } else if n.token.token_type == TokenType::EOF {
            Some((Ok(acc), p1))
        } else {
            Some((Ok(acc), PState { lex: push1(n.st, n.token), vars: p.vars }))
        }
    }
}

/// The primary tier: a numeric literal, a string literal, a variable
/// lookup (a miss is an `UndefinedVariable` error), a parenthesized
/// sub-expression (which clears the whole variable table before requiring
/// the closing parenthesis), or a unary-minus chain. Anything else is a
/// syntax error at the offending token.
pub open spec fn s_primary(f: nat, p: PState) -> Option<(Result<ValueV, EvalError>, PState)>
    decreases f, 1int,
{
    if f == 0 {
        None
    } else {
        let n = spec_next(p.lex);
        let p1 = PState { lex: n.st, vars: p.vars };
        if n.token.token_type == TokenType::Number {
            match spec_parse_number(n.token.value) {
                Some(v) => Some((Ok(ValueV::Number(v)), p1)),
                None => Some((Err(err_at(ErrorKind::NumberFormat, n.token)), p1)),
            }
        } else if n.token.token_type == TokenType::StringLiteral {
            Some((Ok(ValueV::Text(n.token.value)), p1))
        } else if n.token.token_type == TokenType::Identifier {
            if p.vars.contains_key(n.token.value) {
                Some((Ok(p.vars[n.token.value]), p1))
            } else {
                Some((Err(err_at(ErrorKind::UndefinedVariable, n.token)), p1))
            }
        } else if n.token.token_type == TokenType::Punctuation && n.token.value == "("@ {
            match s_expression((f - 1) as nat, p1) {
                None => None,
                Some((Err(e), p2)) => Some((Err(e), p2)),
                Some((Ok(v), p2)) => {
                    let p3 = PState { lex: p2.lex, vars: Map::empty() };
                    let n2 = spec_next(p3.lex);
                    let p4 = PState { lex: n2.st, vars: p3.vars };
                    if n2.token.token_type == TokenType::Punctuation && n2.token.value == ")"@ {
                        Some((Ok(v), p4))
                    } else {
                        Some((Err(err_at(ErrorKind::SyntaxError, n2.token)), p4))
                    }
                },
            }
        } else if op_text_is(n.token, "-"@) {
            s_minus((f - 1) as nat, true, p1)
        } else {
            Some((Err(err_at(ErrorKind::SyntaxError, n.token)), p1))
        }
    }
}

/// A unary-minus chain: each further `-` toggles the sign; the first
/// other token must resolve to a number — a numeric literal, a
/// parenthesized sub-expression (whose closing parenthesis is left for
/// the caller), or a sub-expression starting at that token, which is
/// pushed back first.
pub open spec fn s_minus(f: nat, neg: bool, p: PState) -> Option<
    (Result<ValueV, EvalError>, PState),
>
    decreases f, 0int,
{
    if f == 0 {
        None
    } else {
        let n = spec_next(p.lex);
        let p1 = PState { lex: n.st, vars: p.vars };
        if op_text_is(n.token, "-"@) {
            s_minus((f - 1) as nat, !neg, p1)
        } else if n.token.token_type == TokenType::Number {
            match spec_parse_number(n.token.value) {
                Some(v) => Some(
                    (
                        if neg {
                            Ok(ValueV::Number((-(v as int)) as i64))
                        } else {
                            Ok(ValueV::Number(v))
                        },
                        p1,
                    ),
                ),
                None => Some((Err(err_at(ErrorKind::NumberFormat, n.token)), p1)),
            }
        } else if n.token.token_type == TokenType::Punctuation && n.token.value == "("@ {
            match s_expression((f - 1) as nat, p1) {
                None => None,
                Some((Err(e), p2)) => Some((Err(e), p2)),
                Some((Ok(v), p2)) => Some((spec_negate(neg, v, n.token), p2)),
            }
        } else {
            let pb = if n.token.token_type == TokenType::EOF {
                p1
            } else {
                PState { lex: push1(n.st, n.token), vars: p.vars }
            };
            match s_expression((f - 1) as nat, pb) {
                None => None,
                Some((Err(e), p2)) => Some((Err(e), p2)),
                Some((Ok(v), p2)) => Some((spec_negate(neg, v, n.token), p2)),
            }
        }
    }
}

/// The evaluator. It owns a tokenizer and a variable table and evaluates
/// one expression on demand.
pub struct Interpreter {
    lexer: Lexer,
    variables: Vec<(String, Value)>,
}

impl View for Interpreter {
    type V = PState;

    closed spec fn view(&self) -> PState {
        PState { lex: self.lexer@, vars: assoc_map(self.variables@) }
    }
}

impl Interpreter {
    /// The internal invariant: the tokenizer is well formed and the table
    /// holds each name at most once.
    pub closed spec fn wf(&self) -> bool {
        &&& self.lexer.wf()
        &&& keys_unique(self.variables@)
    }

    /// Builds an evaluator over `source_code`, with an empty variable table.
    pub fn new(source_code: String) -> (it: Interpreter)
        ensures
            it.wf(),
            it@.lex == (LexStateV {
                text: source_code@,
                cur: Cursor { pos: 0, line: 1, column: 1 },
                buf: Seq::empty(),
                diags: Seq::empty(),
            }),
            it@.vars == Map::<Seq<char>, ValueV>::empty(),
    {
        let it = Interpreter { lexer: Lexer::new(source_code), variables: Vec::new() };
        it
    }

    /// Looks an identifier up in the variable table.
    pub fn lookup_variable(&self, name: &String) -> (r: Option<Value>)
        requires
            self.wf(),
        ensures
            match r {
                Some(v) => self@.vars.contains_key(name@) && v@ == self@.vars[name@],
                None => !self@.vars.contains_key(name@),
            },
    {
        let n = self.variables.len();
        let mut i: usize = 0;
        while i < n
            invariant
                self.wf(),
                0 <= i <= n,
                n == self.variables@.len(),
                forall|j: int| 0 <= j < i ==> (#[trigger] self.variables@[j]).0@ != name@,
            decreases n - i,
        {
            if self.variables[i].0 == *name {
                let v = self.variables[i].1.clone();
                proof {
                    lemma_assoc_map_index(self.variables@, i as int);
                }
                return Some(v);
            }
            i = i + 1;
        }
        proof {
            lemma_assoc_map_contains(self.variables@, name@);
        }
        None
    }

    /// Binds `name` to `value`, replacing any earlier binding of the name.
    pub fn define_variable(&mut self, name: String, value: Value)
        requires
            old(self).wf(),
        ensures
            final(self).wf(),
            final(self)@.lex == old(self)@.lex,
            final(self)@.vars == old(self)@.vars.insert(name@, value@),
    {
        let n = self.variables.len();
        let mut i: usize = 0;
        while i < n
            invariant
                self.wf(),
                self@ == old(self)@,
                0 <= i <= n,
                n == self.variables@.len(),
                forall|j: int| 0 <= j < i ==> (#[trigger] self.variables@[j]).0@ != name@,
            decreases n - i,
        {
            if self.variables[i].0 == name {
                let ghost pre = self.variables@;
                proof {
                    lemma_assoc_map_remove(pre, i as int);
                    lemma_assoc_map_contains(pre.remove(i as int), name@);
                }
                self.variables.remove(i);
                self.variables.push((name, value));
                proof {
                    assert(self.variables@.drop_last() =~= pre.remove(i as int));
                    assert(assoc_map(self.variables@) =~= old(self)@.vars.insert(
                        name@,
                        value@,
                    ));
                    assert(self@ =~~= (PState {
                        lex: old(self)@.lex,
                        vars: old(self)@.vars.insert(name@, value@),
                    }));
                }
                return ;
            }
            i = i + 1;
        }
        let ghost pre = self.variables@;
        proof {
            lemma_assoc_map_contains(pre, name@);
        }
        self.variables.push((name, value));
        proof {
            assert(self.variables@.drop_last() =~= pre);
            assert(self@ =~~= (PState {
                lex: old(self)@.lex,
                vars: old(self)@.vars.insert(name@, value@),
            }));
        }
    }

    /// Applies a binary operator token to two evaluated operands.
    pub fn binary_operation(&self, left: Value, operator_token: Token, right: Value) -> (r:
        Result<Value, EvalError>)
        ensures
            res_view(r) == spec_apply(left@, operator_token@, right@),
    {
        if operator_token.token_type != TokenType::Operator {
            return Err(err_from(ErrorKind::SyntaxError, &operator_token));
        }
        if value_is(&operator_token.value, "+") {
            match (left, right) {
                (Value::Number(a), Value::Number(b)) => match a.checked_add(b) {
                    Some(v) => Ok(Value::Number(v)),
                    None => Err(err_from(ErrorKind::Overflow, &operator_token)),
                },
                (Value::Text(a), Value::Text(b)) => Ok(Value::Text(a.concat(b.as_str()))),
                _ => Err(err_from(ErrorKind::TypeMismatch, &operator_token)),
            }
        } else if value_is(&operator_token.value, "-") {
            match (left, right) {
                (Value::Number(a), Value::Number(b)) => match a.checked_sub(b) {
                    Some(v) => Ok(Value::Number(v)),
                    None => Err(err_from(ErrorKind::Overflow, &operator_token)),
                },
                _ => Err(err_from(ErrorKind::TypeMismatch, &operator_token)),
            }
        } else if value_is(&operator_token.value, "*") {
            match (left, right) {
                (Value::Number(a), Value::Number(b)) => match a.checked_mul(b) {
                    Some(v) => Ok(Value::Number(v)),
                    None => Err(err_from(ErrorKind::Overflow, &operator_token)),
                },
                _ => Err(err_from(ErrorKind::TypeMismatch, &operator_token)),
            }
        } else if value_is(&operator_token.value, "/") {
            match (left, right) {
                (Value::Number(a), Value::Number(b)) => match a.checked_div(b) {
                    Some(v) => Ok(Value::Number(v)),
                    None => if b == 0 {
                        Err(err_from(ErrorKind::DivisionByZero, &operator_token))
                    } else {
                        Err(err_from(ErrorKind::Overflow, &operator_token))
                    },
                },
                _ => Err(err_from(ErrorKind::TypeMismatch, &operator_token)),
            }
        } else if value_is(&operator_token.value, "%") {
            match (left, right) {
                (Value::Number(a), Value::Number(b)) => match a.checked_rem(b) {
                    Some(v) => Ok(Value::Number(v)),
                    None => if b == 0 {
                        Err(err_from(ErrorKind::DivisionByZero, &operator_token))
                    } else {
                        Err(err_from(ErrorKind::Overflow, &operator_token))
                    },
                },
                _ => Err(err_from(ErrorKind::TypeMismatch, &operator_token)),
            }
        } else if value_is(&operator_token.value, "^") {
            match (left, right) {
                (Value::Number(a), Value::Number(b)) => if b < 0 {
                    Err(err_from(ErrorKind::NegativeExponent, &operator_token))
                } else {
                    match pow_checked(a, b as u64) {
                        Some(v) => Ok(Value::Number(v)),
                        None => Err(err_from(ErrorKind::Overflow, &operator_token)),
                    }
                },
                _ => Err(err_from(ErrorKind::TypeMismatch, &operator_token)),
            }
        } else {
            Err(err_from(ErrorKind::SyntaxError, &operator_token))
        }
    }

    /// Evaluates one whole expression: the additive tier.
    pub fn expression(&mut self) -> (r: Result<Value, EvalError>)
        requires
            old(self).wf(),
        ensures
            final(self).wf(),
            wf_state(final(self)@.lex),
            final(self)@.lex.text == old(self)@.lex.text,
            lex_measure(final(self)@.lex) <= lex_measure(old(self)@.lex),
            forall|f: nat|
                f >= 8 * lex_measure(old(self)@.lex) + 8 ==> s_expression(f, old(self)@) == Some(
                    (res_view(r), final(self)@),
                ),
        decreases lex_measure(self@.lex), 8int,
    {
        let ghost p0 = self@;
        let ghost m0 = lex_measure(p0.lex);
        proof {
            self.lexer.lemma_wf_state();
        }
        let lv = match self.term() {
            Ok(v) => v,
            Err(e) => {
                proof {
                    assert forall|f: nat|
                        f >= 8 * m0 + 8 implies s_expression(f, p0) == Some(
                        (res_view(Err::<Value, EvalError>(e)), self@),
                    ) by {
                        assert(s_term((f - 1) as nat, p0) == Some(
                            (Err::<ValueV, EvalError>(e), self@),
                        ));
                    }
                }
                return Err(e);
            },
        };
        let ghost lvv = lv@;
        let ghost p1 = self@;
        let r = self.expression_more(lv);
        proof {
            assert forall|f: nat|
                f >= 8 * m0 + 8 implies s_expression(f, p0) == Some((res_view(r), self@)) by {
                assert(s_term((f - 1) as nat, p0) == Some((Ok::<ValueV, EvalError>(lvv), p1)));
                assert(s_expr_more((f - 1) as nat, lvv, p1) == Some((res_view(r), self@)));
            }
        }
        r
    }

    /// The rest of the additive tier after a first value.
    fn expression_more(&mut self, acc: Value) -> (r: Result<Value, EvalError>)
        requires
            old(self).wf(),
        ensures
            final(self).wf(),
            wf_state(final(self)@.lex),
            final(self)@.lex.text == old(self)@.lex.text,
            lex_measure(final(self)@.lex) <= lex_measure(old(self)@.lex),
            forall|f: nat|
                f >= 8 * lex_measure(old(self)@.lex) + 7 ==> s_expr_more(f, acc@, old(self)@)
                    == Some((res_view(r), final(self)@)),
        decreases lex_measure(self@.lex), 7int,
    {
        let ghost p0 = self@;
        let ghost m0 = lex_measure(p0.lex);
        let ghost accv = acc@;
        proof {
            self.lexer.lemma_wf_state();
            lemma_spec_next_measure(p0.lex);
        }
        let token = self.lexer.get_next_token();
        let ghost n = spec_next(p0.lex);
        let ghost p1 = self@;
        let is_add = token.token_type == TokenType::Operator && (value_is(&token.value, "+")
            || value_is(&token.value, "-"));
        if !is_add {
            if token.token_type != TokenType::EOF {
                self.lexer.unget_token(token);
                proof {
                    assert(self@.lex =~~= push1(n.st, n.token));
                }
            }
            proof {
                assert forall|f: nat|
                    f >= 8 * m0 + 7 implies s_expr_more(f, accv, p0) == Some(
                    (res_view(Ok::<Value, EvalError>(acc)), self@),
                ) by {
                    assert(self@ =~~= (if n.token.token_type == TokenType::EOF {
                        p1
                    } else {
                        PState { lex: push1(n.st, n.token), vars: p0.vars }
                    }));
                }
            }
            return Ok(acc);
        }
        let rv = match self.term() {
            Ok(v) => v,
            Err(e) => {
                proof {
                    assert forall|f: nat|
                        f >= 8 * m0 + 7 implies s_expr_more(f, accv, p0) == Some(
                        (res_view(Err::<Value, EvalError>(e)), self@),
                    ) by {
                        assert(s_term((f - 1) as nat, p1) == Some(
                            (Err::<ValueV, EvalError>(e), self@),
                        ));
                    }
                }
                return Err(e);
            },
        };
        let ghost rvv = rv@;
        let ghost p2 = self@;
        match self.binary_operation(acc, token, rv) {
            Ok(v2) => {
                let ghost v2v = v2@;
                let r = self.expression_more(v2);
                proof {
                    assert forall|f: nat|
                        f >= 8 * m0 + 7 implies s_expr_more(f, accv, p0) == Some(
                        (res_view(r), self@),
                    ) by {
                        assert(s_term((f - 1) as nat, p1) == Some(
                            (Ok::<ValueV, EvalError>(rvv), p2),
                        ));
                        assert(s_expr_more((f - 1) as nat, v2v, p2) == Some((res_view(r), self@)));
                    }
                }
                r
            },
            Err(e) => {
                proof {
                    assert forall|f: nat|
                        f >= 8 * m0 + 7 implies s_expr_more(f, accv, p0) == Some(
                        (res_view(Err::<Value, EvalError>(e)), self@),
                    ) by {
                        assert(s_term((f - 1) as nat, p1) == Some(
                            (Ok::<ValueV, EvalError>(rvv), p2),
                        ));
                    }
                }
                Err(e)
            },
        }
    }

    /// The multiplicative tier.
    pub fn term(&mut self) -> (r: Result<Value, EvalError>)
        requires
            old(self).wf(),
        ensures
            final(self).wf(),
            wf_state(final(self)@.lex),
            final(self)@.lex.text == old(self)@.lex.text,
            lex_measure(final(self)@.lex) <= lex_measure(old(self)@.lex),
            forall|f: nat|
                f >= 8 * lex_measure(old(self)@.lex) + 6 ==> s_term(f, old(self)@) == Some(
                    (res_view(r), final(self)@),
                ),
        decreases lex_measure(self@.lex), 6int,
    {
        let ghost p0 = self@;
        let ghost m0 = lex_measure(p0.lex);
        proof {
            self.lexer.lemma_wf_state();
        }
        let lv = match self.power() {
            Ok(v) => v,
            Err(e) => {
                proof {
                    assert forall|f: nat|
                        f >= 8 * m0 + 6 implies s_term(f, p0) == Some(
                        (res_view(Err::<Value, EvalError>(e)), self@),
                    ) by {
                        assert(s_power((f - 1) as nat, p0) == Some(
                            (Err::<ValueV, EvalError>(e), self@),
                        ));
                    }
                }
                return Err(e);
            },
        };
        let ghost lvv = lv@;
        let ghost p1 = self@;
        let r = self.term_more(lv);
        proof {
            assert forall|f: nat| f >= 8 * m0 + 6 implies s_term(f, p0) == Some(
                (res_view(r), self@),
            ) by {
                assert(s_power((f - 1) as nat, p0) == Some((Ok::<ValueV, EvalError>(lvv), p1)));
                assert(s_term_more((f - 1) as nat, lvv, p1) == Some((res_view(r), self@)));
            }
        }
        r
    }

    /// The rest of the multiplicative tier after a first value.
    fn term_more(&mut self, acc: Value) -> (r: Result<Value, EvalError>)
        requires
            old(self).wf(),
        ensures
            final(self).wf(),
            wf_state(final(self)@.lex),
            final(self)@.lex.text == old(self)@.lex.text,
            lex_measure(final(self)@.lex) <= lex_measure(old(self)@.lex),
            forall|f: nat|
                f >= 8 * lex_measure(old(self)@.lex) + 5 ==> s_term_more(f, acc@, old(self)@)
                    == Some((res_view(r), final(self)@)),
        decreases lex_measure(self@.lex), 5int,
    {
        let ghost p0 = self@;
        let ghost m0 = lex_measure(p0.lex);
        let ghost accv = acc@;
        proof {
            self.lexer.lemma_wf_state();
            lemma_spec_next_measure(p0.lex);
        }
        let token = self.lexer.get_next_token();
        let ghost n = spec_next(p0.lex);
        let ghost p1 = self@;
        let is_mul = token.token_type == TokenType::Operator && (value_is(&token.value, "*")
            || value_is(&token.value, "/") || value_is(&token.value, "%"));
        if !is_mul {
            if token.token_type != TokenType::EOF {
                self.lexer.unget_token(token);
                proof {
                    assert(self@.lex =~~= push1(n.st, n.token));
                }
            }
            proof {
                assert forall|f: nat|
                    f >= 8 * m0 + 5 implies s_term_more(f, accv, p0) == Some(
                    (res_view(Ok::<Value, EvalError>(acc)), self@),
                ) by {
                    assert(self@ =~~= (if n.token.token_type == TokenType::EOF {
                        p1
                    } else {
                        PState { lex: push1(n.st, n.token), vars: p0.vars }
                    }));
                }
            }
            return Ok(acc);
        }
        let rv = match self.power() {
            Ok(v) => v,
            Err(e) => {
                proof {
                    assert forall|f: nat|
                        f >= 8 * m0 + 5 implies s_term_more(f, accv, p0) == Some(
                        (res_view(Err::<Value, EvalError>(e)), self@),
                    ) by {
                        assert(s_power((f - 1) as nat, p1) == Some(
                            (Err::<ValueV, EvalError>(e), self@),
                        ));
                    }
                }
                return Err(e);
            },
        };
        let ghost rvv = rv@;
        let ghost p2 = self@;
        match self.binary_operation(acc, token, rv) {
            Ok(v2) => {
                let ghost v2v = v2@;
                let r = self.term_more(v2);
                proof {
                    assert forall|f: nat|
                        f >= 8 * m0 + 5 implies s_term_more(f, accv, p0) == Some(
                        (res_view(r), self@),
                    ) by {
                        assert(s_power((f - 1) as nat, p1) == Some(
                            (Ok::<ValueV, EvalError>(rvv), p2),
                        ));
                        assert(s_term_more((f - 1) as nat, v2v, p2) == Some((res_view(r), self@)));
                    }
                }
                r
            },
            Err(e) => {
                proof {
                    assert forall|f: nat|
                        f >= 8 * m0 + 5 implies s_term_more(f, accv, p0) == Some(
                        (res_view(Err::<Value, EvalError>(e)), self@),
                    ) by {
                        assert(s_power((f - 1) as nat, p1) == Some(
                            (Ok::<ValueV, EvalError>(rvv), p2),
                        ));
                    }
                }
                Err(e)
            },
        }
    }

    /// The power tier; `^` combines left to right.
    pub fn power(&mut self) -> (r: Result<Value, EvalError>)
        requires
            old(self).wf(),
        ensures
            final(self).wf(),
            wf_state(final(self)@.lex),
            final(self)@.lex.text == old(self)@.lex.text,
            lex_measure(final(self)@.lex) <= lex_measure(old(self)@.lex),
            forall|f: nat|
                f >= 8 * lex_measure(old(self)@.lex) + 4 ==> s_power(f, old(self)@) == Some(
                    (res_view(r), final(self)@),
                ),
        decreases lex_measure(self@.lex), 4int,
    {
        let ghost p0 = self@;
        let ghost m0 = lex_measure(p0.lex);
        proof {
            self.lexer.lemma_wf_state();
        }
        let lv = match self.primary() {
            Ok(v) => v,
            Err(e) => {
                proof {
                    assert forall|f: nat|
                        f >= 8 * m0 + 4 implies s_power(f, p0) == Some(
                        (res_view(Err::<Value, EvalError>(e)), self@),
                    ) by {
                        assert(s_primary((f - 1) as nat, p0) == Some(
                            (Err::<ValueV, EvalError>(e), self@),
                        ));
                    }
                }
                return Err(e);
            },
        };
        let ghost lvv = lv@;
        let ghost p1 = self@;
        let r = self.power_more(lv);
        proof {
            assert forall|f: nat| f >= 8 * m0 + 4 implies s_power(f, p0) == Some(
                (res_view(r), self@),
            ) by {
                assert(s_primary((f - 1) as nat, p0) == Some((Ok::<ValueV, EvalError>(lvv), p1)));
                assert(s_power_more((f - 1) as nat, lvv, p1) == Some((res_view(r), self@)));
            }
        }
        r
    }

    /// The rest of the power tier after a first value.
    fn power_more(&mut self, acc: Value) -> (r: Result<Value, EvalError>)
        requires
            old(self).wf(),
        ensures
            final(self).wf(),
            wf_state(final(self)@.lex),
            final(self)@.lex.text == old(self)@.lex.text,
            lex_measure(final(self)@.lex) <= lex_measure(old(self)@.lex),
            forall|f: nat|
                f >= 8 * lex_measure(old(self)@.lex) + 3 ==> s_power_more(f, acc@, old(self)@)
                    == Some((res_view(r), final(self)@)),
        decreases lex_measure(self@.lex), 3int,
    {
        let ghost p0 = self@;
        let ghost m0 = lex_measure(p0.lex);
        let ghost accv = acc@;
        proof {
            self.lexer.lemma_wf_state();
            lemma_spec_next_measure(p0.lex);
        }
        let token = self.lexer.get_next_token();
        let ghost n = spec_next(p0.lex);
        let ghost p1 = self@;
        let is_pow = token.token_type == TokenType::Operator && value_is(&token.value, "^");
        if !is_pow {
            if token.token_type != TokenType::EOF {
                self.lexer.unget_token(token);
                proof {
                    assert(self@.lex =~~= push1(n.st, n.token));
                }
            }
            proof {
                assert forall|f: nat|
                    f >= 8 * m0 + 3 implies s_power_more(f, accv, p0) == Some(
                    (res_view(Ok::<Value, EvalError>(acc)), self@),
                ) by {
                    assert(self@ =~~= (if n.token.token_type == TokenType::EOF {
                        p1
                    } else {
                        PState { lex: push1(n.st, n.token), vars: p0.vars }
                    }));
                }
            }
            return Ok(acc);
        }
        let rv = match self.primary() {
            Ok(v) => v,
            Err(e) => {
                proof {
                    assert forall|f: nat|
                        f >= 8 * m0 + 3 implies s_power_more(f, accv, p0) == Some(
                        (res_view(Err::<Value, EvalError>(e)), self@),
                    ) by {
                        assert(s_primary((f - 1) as nat, p1) == Some(
                            (Err::<ValueV, EvalError>(e), self@),
                        ));
                    }
                }
                return Err(e);
            },
        };
        let ghost rvv = rv@;
        let ghost p2 = self@;
        match self.binary_operation(acc, token, rv) {
            Ok(v2) => {
                let ghost v2v = v2@;
                let r = self.power_more(v2);
                proof {
                    assert forall|f: nat|
                        f >= 8 * m0 + 3 implies s_power_more(f, accv, p0) == Some(
                        (res_view(r), self@),
                    ) by {
                        assert(s_primary((f - 1) as nat, p1) == Some(
                            (Ok::<ValueV, EvalError>(rvv), p2),
                        ));
                        assert(s_power_more((f - 1) as nat, v2v, p2) == Some((res_view(r), self@)));
                    }
                }
                r
            },
            Err(e) => {
                proof {
                    assert forall|f: nat|
                        f >= 8 * m0 + 3 implies s_power_more(f, accv, p0) == Some(
                        (res_view(Err::<Value, EvalError>(e)), self@),
                    ) by {
                        assert(s_primary((f - 1) as nat, p1) == Some(
                            (Ok::<ValueV, EvalError>(rvv), p2),
                        ));
                    }
                }
                Err(e)
            },
        }
    }

    /// The primary tier: literals, variable lookup, parenthesized
    /// sub-expressions (which clear the variable table), and unary minus.
    pub fn primary(&mut self) -> (r: Result<Value, EvalError>)
        requires
            old(self).wf(),
        ensures
            final(self).wf(),
            wf_state(final(self)@.lex),
            final(self)@.lex.text == old(self)@.lex.text,
            lex_measure(final(self)@.lex) <= lex_measure(old(self)@.lex),
            forall|f: nat|
                f >= 8 * lex_measure(old(self)@.lex) + 2 ==> s_primary(f, old(self)@) == Some(
                    (res_view(r), final(self)@),
                ),
        decreases lex_measure(self@.lex), 2int,
    {
        let ghost p0 = self@;
        let ghost m0 = lex_measure(p0.lex);
        proof {
            self.lexer.lemma_wf_state();
            lemma_spec_next_measure(p0.lex);
        }
        let token = self.lexer.get_next_token();
        let ghost n = spec_next(p0.lex);
        let ghost p1 = self@;
        if token.token_type == TokenType::Number {
            let r = match parse_number_text(&token.value) {
                Some(v) => Ok(Value::Number(v)),
                None => Err(err_from(ErrorKind::NumberFormat, &token)),
            };
            proof {
                assert forall|f: nat| f >= 8 * m0 + 2 implies s_primary(f, p0) == Some(
                    (res_view(r), self@),
                ) by {}
            }
            return r;
        }
        if token.token_type == TokenType::StringLiteral {
            let r = Ok(Value::Text(token.value));
            proof {
                assert forall|f: nat| f >= 8 * m0 + 2 implies s_primary(f, p0) == Some(
                    (res_view(r), self@),
                ) by {}
            }
            return r;
        }
        if token.token_type == TokenType::Identifier {
            let r = match self.lookup_variable(&token.value) {
                Some(v) => Ok(v),
                None => Err(err_from(ErrorKind::UndefinedVariable, &token)),
            };
            proof {
                assert forall|f: nat| f >= 8 * m0 + 2 implies s_primary(f, p0) == Some(
                    (res_view(r), self@),
                ) by {}
            }
            return r;
        }
        if token.token_type == TokenType::Punctuation && value_is(&token.value, "(") {
            let inner = match self.expression() {
                Ok(v) => v,
                Err(e) => {
                    proof {
                        assert forall|f: nat|
                            f >= 8 * m0 + 2 implies s_primary(f, p0) == Some(
                            (res_view(Err::<Value, EvalError>(e)), self@),
                        ) by {
                            assert(s_expression((f - 1) as nat, p1) == Some(
                                (Err::<ValueV, EvalError>(e), self@),
                            ));
                        }
                    }
                    return Err(e);
                },
            };
            let ghost iv = inner@;
            let ghost p2 = self@;
            self.variables.clear();
            let ghost p3 = self@;
            proof {
                assert(p3 =~~= (PState { lex: p2.lex, vars: Map::empty() }));
                self.lexer.lemma_wf_state();
                lemma_spec_next_measure(p3.lex);
            }
            let next_token = self.lexer.get_next_token();
            let ghost n2 = spec_next(p3.lex);
            let r = if next_token.token_type == TokenType::Punctuation && value_is(
                &next_token.value,
                ")",
            ) {
                Ok(inner)
            } else {
                Err(err_from(ErrorKind::SyntaxError, &next_token))
            };
            proof {
                assert forall|f: nat| f >= 8 * m0 + 2 implies s_primary(f, p0) == Some(
                    (res_view(r), self@),
                ) by {
                    assert(s_expression((f - 1) as nat, p1) == Some(
                        (Ok::<ValueV, EvalError>(iv), p2),
                    ));
                    assert(self@ =~~= (PState { lex: n2.st, vars: p3.vars }));
                }
            }
            return r;
        }
        if token.token_type == TokenType::Operator && value_is(&token.value, "-") {
            let r = self.minus_chain(true);
            proof {
                assert forall|f: nat| f >= 8 * m0 + 2 implies s_primary(f, p0) == Some(
                    (res_view(r), self@),
                ) by {
                    assert(s_minus((f - 1) as nat, true, p1) == Some((res_view(r), self@)));
                }
            }
            return r;
        }
        let r = Err(err_from(ErrorKind::SyntaxError, &token));
        proof {
            assert forall|f: nat| f >= 8 * m0 + 2 implies s_primary(f, p0) == Some(
                (res_view(r), self@),
            ) by {}
        }
        r
    }

    /// A chain of unary minus signs and the numeric value they negate.
    #[verifier::rlimit(100)]
    fn minus_chain(&mut self, neg: bool) -> (r: Result<Value, EvalError>)
        requires
            old(self).wf(),
        ensures
            final(self).wf(),
            wf_state(final(self)@.lex),
            final(self)@.lex.text == old(self)@.lex.text,
            lex_measure(final(self)@.lex) <= lex_measure(old(self)@.lex),
            forall|f: nat|
                f >= 8 * lex_measure(old(self)@.lex) + 9 ==> s_minus(f, neg, old(self)@) == Some(
                    (res_view(r), final(self)@),
                ),
        decreases lex_measure(self@.lex), 9int,
    {
        let ghost p0 = self@;
        let ghost m0 = lex_measure(p0.lex);
        proof {
            self.lexer.lemma_wf_state();
            lemma_spec_next_measure(p0.lex);
        }
        let token = self.lexer.get_next_token();
        let ghost n = spec_next(p0.lex);
        let ghost p1 = self@;
        if token.token_type == TokenType::Operator && value_is(&token.value, "-") {
            let r = self.minus_chain(!neg);
            proof {
                assert forall|f: nat| f >= 8 * m0 + 9 implies s_minus(f, neg, p0) == Some(
                    (res_view(r), self@),
                ) by {
                    assert(s_minus((f - 1) as nat, !neg, p1) == Some((res_view(r), self@)));
                }
            }
            return r;
        }
        if token.token_type == TokenType::Number {
            let r = match parse_number_text(&token.value) {
                Some(v) => {
                    proof {
                        crate::value::lemma_digits_value_nonneg(token@.value);
                    }
                    if neg {
                        Ok(Value::Number(-v))
                    } else {
                        Ok(Value::Number(v))
                    }
                },
                None => Err(err_from(ErrorKind::NumberFormat, &token)),
            };
            proof {
                assert forall|f: nat| f >= 8 * m0 + 9 implies s_minus(f, neg, p0) == Some(
                    (res_view(r), self@),
                ) by {}
            }
            return r;
        }
        if token.token_type == TokenType::Punctuation && value_is(&token.value, "(") {
            let inner = match self.expression() {
                Ok(v) => v,
                Err(e) => {
                    proof {
                        assert forall|f: nat|
                            f >= 8 * m0 + 9 implies s_minus(f, neg, p0) == Some(
                            (res_view(Err::<Value, EvalError>(e)), self@),
                        ) by {
                            assert(s_expression((f - 1) as nat, p1) == Some(
                                (Err::<ValueV, EvalError>(e), self@),
                            ));
                        }
                    }
                    return Err(e);
                },
            };
            let ghost iv = inner@;
            let r = negate_value(neg, inner, token.line, token.column);
            proof {
                assert forall|f: nat| f >= 8 * m0 + 9 implies s_minus(f, neg, p0) == Some(
                    (res_view(r), self@),
                ) by {
                    assert(s_expression((f - 1) as nat, p1) == Some(
                        (Ok::<ValueV, EvalError>(iv), self@),
                    ));
                }
            }
            return r;
        }
        let tline = token.line;
        let tcolumn = token.column;
        if token.token_type != TokenType::EOF {
            self.lexer.unget_token(token);
            proof {
                assert(self@.lex =~~= push1(n.st, n.token));
            }
        }
        let ghost pb = self@;
        proof {
            assert(pb =~~= (if n.token.token_type == TokenType::EOF {
                p1
            } else {
                PState { lex: push1(n.st, n.token), vars: p0.vars }
            }));
        }
        let inner = match self.expression() {
            Ok(v) => v,
            Err(e) => {
                proof {
                    assert forall|f: nat| f >= 8 * m0 + 9 implies s_minus(f, neg, p0) == Some(
                        (res_view(Err::<Value, EvalError>(e)), self@),
                    ) by {
                        assert(s_expression((f - 1) as nat, pb) == Some(
                            (Err::<ValueV, EvalError>(e), self@),
                        ));
                    }
                }
                return Err(e);
            },
        };
        let ghost iv = inner@;
        let r = negate_value(neg, inner, tline, tcolumn);
        proof {
            assert forall|f: nat| f >= 8 * m0 + 9 implies s_minus(f, neg, p0) == Some(
                (res_view(r), self@),
            ) by {
                assert(s_expression((f - 1) as nat, pb) == Some((Ok::<ValueV, EvalError>(iv), self@)));
            }
        }
        r
    }

    /// Evaluates one expression from the source, yielding its value or a
    /// structured error.
    pub fn parse(&mut self) -> (r: Result<Value, EvalError>)
        requires
            old(self).wf(),
        ensures
            final(self).wf(),
            wf_state(final(self)@.lex),
            final(self)@.lex.text == old(self)@.lex.text,
            lex_measure(final(self)@.lex) <= lex_measure(old(self)@.lex),
            forall|f: nat|
                f >= 8 * lex_measure(old(self)@.lex) + 8 ==> s_expression(f, old(self)@) == Some(
                    (res_view(r), final(self)@),
                ),
    {
        self.expression()
    }
}

/// Builds an error of the given kind at a token's position.
fn err_from(kind: ErrorKind, t: &Token) -> (e: EvalError)
    ensures
        e == err_at(kind, t@),
{
    EvalError { kind, line: t.line, column: t.column }
}

/// Does the string hold exactly the text `s`?
fn value_is(v: &String, s: &str) -> (b: bool)
    ensures
        b == (v@ == s@),
{
    *v == String::from_str(s)
}

/// Negates (or passes through) the numeric result of a unary-minus chain;
/// an error is reported at the given source position.
fn negate_value(neg: bool, v: Value, line: usize, column: usize) -> (r: Result<Value, EvalError>)
    ensures
        res_view(r) == spec_negate_pos(neg, v@, line, column),
{
    match v {
        Value::Number(m) => if neg {
            if m == i64::MIN {
                Err(EvalError { kind: ErrorKind::Overflow, line, column })
            } else {
                Ok(Value::Number(-m))
            }
        } else {
            Ok(Value::Number(m))
        },
        Value::Text(_) => Err(EvalError { kind: ErrorKind::TypeMismatch, line, column }),
    }
}


/// Law: a primary whose next token is an identifier that the variable
/// table does not hold evaluates to a catchable `UndefinedVariable` error
/// at that token's position — evaluation returns the error instead of
/// aborting — and only that token is consumed.
pub proof fn lemma_undefined_variable(f: nat, p: PState)
    requires
        f >= 1,
        spec_next(p.lex).token.token_type == TokenType::Identifier,
        !p.vars.contains_key(spec_next(p.lex).token.value),
    ensures
        s_primary(f, p) == Some(
            (
                Err::<ValueV, EvalError>(
                    err_at(ErrorKind::UndefinedVariable, spec_next(p.lex).token),
                ),
                PState { lex: spec_next(p.lex).st, vars: p.vars },
            ),
        ),
{
}

} // verus!
