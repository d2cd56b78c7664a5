//! The runtime value model: a tagged union of a number and a text, and the
//! structured errors that evaluation can report.
//!
//! Numbers are exact 64-bit signed integers. A numeric literal with a
//! fractional part, or one too large for the range, is reported as a
//! `NumberFormat` error rather than being approximated. Division and
//! remainder by zero, overflow, and a negative exponent are each reported
//! as their own error kind instead of being left undefined.

use vstd::prelude::*;
use crate::lexer::is_digit_char;

verus! {

/// The result of evaluating an expression: a number or a text.
pub enum Value {
    Number(i64),
    Text(String),
}

/// Mathematical image of a runtime value.
pub ghost enum ValueV {
    Number(i64),
    Text(Seq<char>),
}

impl View for Value {
    type V = ValueV;

    open spec fn view(&self) -> ValueV {
        match self {
            Value::Number(n) => ValueV::Number(*n),
            Value::Text(s) => ValueV::Text(s@),
        }
    }
}

impl Clone for Value {
    fn clone(&self) -> (v: Value)
        ensures
            v@ == self@,
    {
        match self {
            Value::Number(n) => Value::Number(*n),
            Value::Text(s) => Value::Text(s.clone()),
        }
    }
}

/// The kind of an evaluation error.
#[derive(Clone, Copy, PartialEq, Eq, Debug, Structural)]
pub enum ErrorKind {
    /// A token appeared where the grammar does not allow it, or a required
    /// token (such as a closing parenthesis) is missing.
    SyntaxError,
    /// An operator was applied to operands of the wrong types.
    TypeMismatch,
    /// An identifier was looked up that the variable table does not hold.
    UndefinedVariable,
    /// A numeric literal with a fractional part or outside the 64-bit range.
    NumberFormat,
    /// Division or remainder by zero.
    DivisionByZero,
    /// An arithmetic result outside the 64-bit range.
    Overflow,
    /// A power with a negative exponent, which the integer model rejects.
    NegativeExponent,
}

/// An evaluation error: its kind and the 1-based source position of the
/// token at which it was detected.
#[derive(Clone, Copy, PartialEq, Eq, Debug, Structural)]
pub struct EvalError {
    pub kind: ErrorKind,
    pub line: usize,
    pub column: usize,
}

/// Does `n` fit in the 64-bit signed range?
pub open spec fn fits_i64(n: int) -> bool {
    i64::MIN <= n <= i64::MAX
}


/// The numeric value of a decimal digit, and 0 for any other character.
pub open spec fn digit_val(c: char) -> int {
    if c == '0' {
        0
    } else if c == '1' {
        1
    } else if c == '2' {
        2
    } else if c == '3' {
        3
    } else if c == '4' {
        4
    } else if c == '5' {
        5
    } else if c == '6' {
        6
    } else if c == '7' {
        7
    } else if c == '8' {
        8
    } else if c == '9' {
        9
    } else {
        0
    }
}

/// The numeric value of a decimal digit.
pub fn digit_value(c: char) -> (r: i64)
    requires
        is_digit_char(c),
    ensures
        r == digit_val(c),
        0 <= r <= 9,
{
    match c {
        '0' => 0,
        '1' => 1,
        '2' => 2,
        '3' => 3,
        '4' => 4,
        '5' => 5,
        '6' => 6,
        '7' => 7,
        '8' => 8,
        _ => 9,
    }
}

pub open spec fn all_digits(s: Seq<char>) -> bool {
    forall|i: int| 0 <= i < s.len() ==> is_digit_char(#[trigger] s[i])
}

/// The value of a digit string, most significant digit first.
pub open spec fn spec_digits_value(s: Seq<char>) -> int
    decreases s.len(),
{
    if s.len() == 0 {
        0
    } else {
        spec_digits_value(s.drop_last()) * 10 + digit_val(s.last())
    }
}

/// How a numeric literal evaluates: a nonempty all-digit text within the
/// 64-bit range is its value; anything else (a fractional part, an
/// overlong literal) is rejected.
pub open spec fn spec_parse_number(s: Seq<char>) -> Option<i64> {
    if s.len() > 0 && all_digits(s) && spec_digits_value(s) <= i64::MAX {
        Some(spec_digits_value(s) as i64)
    } else {
        None
    }
}

pub proof fn lemma_digits_value_nonneg(s: Seq<char>)
    ensures
        spec_digits_value(s) >= 0,
    decreases s.len(),
{
    if s.len() > 0 {
        lemma_digits_value_nonneg(s.drop_last());
    }
}

/// Extending a digit string never shrinks its value.
pub proof fn lemma_digits_value_prefix(s: Seq<char>, k: int)
    requires
        0 <= k <= s.len(),
    ensures
        spec_digits_value(s.take(k)) <= spec_digits_value(s),
    decreases s.len() - k,
{
    if k < s.len() {
        lemma_digits_value_prefix(s, k + 1);
        let t = s.take(k + 1);
        assert(t.drop_last() =~= s.take(k));
        assert(t.last() == s[k]);
        lemma_digits_value_nonneg(s.take(k));
        assert(spec_digits_value(s.take(k)) <= spec_digits_value(s.take(k + 1)));
    } else {
        assert(s.take(k) =~= s);
    }
}

/// Parses a numeric literal text as an exact 64-bit number.
pub fn parse_number_text(text: &String) -> (r: Option<i64>)
    ensures
        r == spec_parse_number(text@),
{
    let ghost s = text@;
    let n = text.as_str().unicode_len();
    if n == 0 {
        return None;
    }
    let mut acc: i64 = 0;
    let mut i: usize = 0;
    while i < n
        invariant
            0 <= i <= n,
            n == s.len(),
            s == text@,
            all_digits(s.take(i as int)),
            acc == spec_digits_value(s.take(i as int)),
            0 <= acc,
        decreases n - i,
    {
        let c = text.as_str().get_char(i);
        if !char_is_digit_exec(c) {
            return None;
        }
        let d = digit_value(c);
        let step = match acc.checked_mul(10) {
            Some(x) => x.checked_add(d),
            None => None,
        };
        match step {
            Some(y) => {
                proof {
                    assert(s.take(i + 1).drop_last() =~= s.take(i as int));
                    assert(s.take(i + 1).last() == s[i as int]);
                }
                acc = y;
            },
            None => {
                proof {
                    assert(s.take(i + 1).drop_last() =~= s.take(i as int));
                    assert(s.take(i + 1).last() == s[i as int]);
                    assert(spec_digits_value(s.take(i + 1)) > i64::MAX);
                    lemma_digits_value_prefix(s, i + 1);
                }
                return None;
            },
        }
        i = i + 1;
    }
    proof {
        assert(s.take(n as int) =~= s);
    }
    Some(acc)
}

fn char_is_digit_exec(c: char) -> (b: bool)
    ensures
        b == is_digit_char(c),
{
    '0' <= c && c <= '9'
}

/// Exponentiation by repeated checked multiplication: the result after `e`
/// multiplications by `b`, or nothing on the first intermediate overflow.
pub open spec fn spec_pow_checked(b: i64, e: nat) -> Option<i64>
    decreases e,
{
    if e == 0 {
        Some(1)
    } else {
        match spec_pow_checked(b, (e - 1) as nat) {
            Some(a) => if fits_i64(a * b) {
                Some((a * b) as i64)
            } else {
                None
            },
            None => None,
        }
    }
}

pub proof fn lemma_pow_checked_none(b: i64, e1: nat, e2: nat)
    requires
        e1 <= e2,
        spec_pow_checked(b, e1) is None,
    ensures
        spec_pow_checked(b, e2) is None,
    decreases e2,
{
    if e1 < e2 {
        lemma_pow_checked_none(b, e1, (e2 - 1) as nat);
    }
}

/// Raises `b` to the power `e` by repeated checked multiplication.
pub fn pow_checked(b: i64, e: u64) -> (r: Option<i64>)
    ensures
        r == spec_pow_checked(b, e as nat),
{
    let mut acc: i64 = 1;
    let mut i: u64 = 0;
    while i < e
        invariant
            0 <= i <= e,
            Some(acc) == spec_pow_checked(b, i as nat),
        decreases e - i,
    {
        match acc.checked_mul(b) {
            Some(x) => {
                acc = x;
            },
            None => {
                proof {
                    assert(spec_pow_checked(b, (i + 1) as nat) is None);
                    lemma_pow_checked_none(b, (i + 1) as nat, e as nat);
                }
                return None;
            },
        }
        i = i + 1;
    }
    Some(acc)
}

/// Truncated (round-toward-zero) division, as machine division behaves.
pub open spec fn spec_tdiv(x: int, d: int) -> int {
    if x == 0 {
        0
    } else if x > 0 && d > 0 {
        x / d
    } else if x < 0 && d < 0 {
        (x * -1) / (d * -1)
    } else if x < 0 {
        ((x * -1) / d) * -1
    } else {
        (x / (d * -1)) * -1
    }
}

/// Truncated remainder, with the sign of the dividend.
pub open spec fn spec_trem(x: int, d: int) -> int {
    if x == 0 {
        0
    } else if x > 0 && d > 0 {
        x % d
    } else if x < 0 && d < 0 {
        ((x * -1) % (d * -1)) * -1
    } else if x < 0 {
        ((x * -1) % d) * -1
    } else {
        x % (d * -1)
    }
}

/// How a binary operator combines two values. `+` adds numbers and
/// concatenates texts; `-`, `*`, `/`, `%` and `^` are numeric only. Mixed
/// or wrong operand types are a type mismatch; zero divisors, out-of-range
/// results and negative exponents each report their own kind; any other
/// operator text is a syntax error.
pub open spec fn spec_binary_operation(l: ValueV, op: Seq<char>, r: ValueV) -> Result<
    ValueV,
    ErrorKind,
> {
    if op == "+"@ {
        match (l, r) {
            (ValueV::Number(a), ValueV::Number(b)) => if fits_i64(a + b) {
                Ok(ValueV::Number((a + b) as i64))
            } else {
                Err(ErrorKind::Overflow)
            },
            (ValueV::Text(a), ValueV::Text(b)) => Ok(ValueV::Text(a + b)),
            _ => Err(ErrorKind::TypeMismatch),
        }
    } else if op == "-"@ {
        match (l, r) {
            (ValueV::Number(a), ValueV::Number(b)) => if fits_i64(a - b) {
                Ok(ValueV::Number((a - b) as i64))
            } else {
                Err(ErrorKind::Overflow)
            },
            _ => Err(ErrorKind::TypeMismatch),
        }
    } else if op == "*"@ {
        match (l, r) {
            (ValueV::Number(a), ValueV::Number(b)) => if fits_i64(a * b) {
                Ok(ValueV::Number((a * b) as i64))
            } else {
                Err(ErrorKind::Overflow)
            },
            _ => Err(ErrorKind::TypeMismatch),
        }
    } else if op == "/"@ {
        match (l, r) {
            (ValueV::Number(a), ValueV::Number(b)) => if b == 0 {
                Err(ErrorKind::DivisionByZero)
            } else if !fits_i64(spec_tdiv(a as int, b as int)) {
                Err(ErrorKind::Overflow)
            } else {
                Ok(ValueV::Number(spec_tdiv(a as int, b as int) as i64))
            },
            _ => Err(ErrorKind::TypeMismatch),
        }
    } else if op == "%"@ {
        match (l, r) {
            (ValueV::Number(a), ValueV::Number(b)) => if b == 0 {
                Err(ErrorKind::DivisionByZero)
            } else if a == i64::MIN && b == -1 {
                Err(ErrorKind::Overflow)
            } else if !fits_i64(spec_trem(a as int, b as int)) {
                Err(ErrorKind::Overflow)
            } else {
                Ok(ValueV::Number(spec_trem(a as int, b as int) as i64))
            },
            _ => Err(ErrorKind::TypeMismatch),
        }
    } else if op == "^"@ {
        match (l, r) {
            (ValueV::Number(a), ValueV::Number(b)) => if b < 0 {
                Err(ErrorKind::NegativeExponent)
            } else {
                match spec_pow_checked(a, b as nat) {
                    Some(v) => Ok(ValueV::Number(v)),
                    None => Err(ErrorKind::Overflow),
                }
            },
            _ => Err(ErrorKind::TypeMismatch),
        }
    } else {
        Err(ErrorKind::SyntaxError)
    }
}

} // verus!
