//! Values of the Rowly DSL and the operations on them that need no program state.

use vstd::prelude::*;

use crate::numbers::{boolean_value, integer_value, parse_boolean, parse_integer};
use crate::process::document::str_equal;
use crate::rowly_dsl::ast::{ArithmeticOperator, ComparisonOperator};
use crate::rowly_dsl::decimal::{
    add_spec, compare, compare_spec, decimal_add, decimal_div, decimal_from_text, decimal_mul,
    decimal_of_text, decimal_sub, decimal_text_of, decimal_to_string, div_spec, from_integer,
    integer_decimal, is_zero, is_zero_spec, mul_spec, negate, negate_spec, sub_spec, Decimal,
};
use crate::rowly_dsl::error::ExecutionError;
use crate::text::{chars_of, integer_text, integer_to_string};

verus! {

/// A runtime value. Objects are numbered in the order they were created.
#[derive(Debug)]
pub enum Value {
    Text(String),
    Integer(i64),
    Decimal(Decimal),
    Boolean(bool),
    Object(usize),
}

/// An exact copy of a value.
pub fn copy_value(value: &Value) -> (copy: Value)
    ensures
        copy == *value,
{
    match value {
        Value::Text(text) => Value::Text(text.clone()),
        Value::Integer(n) => Value::Integer(*n),
        Value::Decimal(d) => Value::Decimal(*d),
        Value::Boolean(b) => Value::Boolean(*b),
        Value::Object(id) => Value::Object(*id),
    }
}

/// The name of a value's type, as messages show it.
pub open spec fn value_type_name(value: Value) -> Seq<char> {
    match value {
        Value::Text(_) => "String"@,
        Value::Integer(_) => "Integer"@,
        Value::Decimal(_) => "Decimal"@,
        Value::Boolean(_) => "Boolean"@,
        Value::Object(_) => "Object"@,
    }
}

pub fn value_type(value: &Value) -> (name: String)
    ensures
        name@ == value_type_name(*value),
{
    match value {
        Value::Text(_) => String::from_str("String"),
        Value::Integer(_) => String::from_str("Integer"),
        Value::Decimal(_) => String::from_str("Decimal"),
        Value::Boolean(_) => String::from_str("Boolean"),
        Value::Object(_) => String::from_str("Object"),
    }
}

/// The text of a Boolean.
pub open spec fn boolean_text(b: bool) -> Seq<char> {
    if b {
        "true"@
    } else {
        "false"@
    }
}

/// The text of a scalar value; objects have none.
pub open spec fn scalar_text_spec(value: Value) -> Option<Seq<char>> {
    match value {
        Value::Text(text) => Some(text@),
        Value::Integer(n) => Some(integer_text(n as int)),
        Value::Decimal(d) => Some(decimal_text_of(d)),
        Value::Boolean(b) => Some(boolean_text(b)),
        Value::Object(_) => None,
    }
}

/// The text of a scalar value (see `scalar_text_spec`).
pub fn scalar_text(value: &Value) -> (text: Option<String>)
    ensures
        match scalar_text_spec(*value) {
            Some(t) => text matches Some(s) && s@ == t,
            None => text is None,
        },
{
    match value {
        Value::Text(text) => Some(text.clone()),
        Value::Integer(n) => Some(integer_to_string(*n)),
        Value::Decimal(d) => Some(decimal_to_string(*d)),
        Value::Boolean(b) => Some(if *b { String::from_str("true") } else { String::from_str("false") }),
        Value::Object(_) => None,
    }
}

/// The value as a decimal, when it is a number.
pub open spec fn as_decimal(value: Value) -> Option<Decimal> {
    match value {
        Value::Integer(n) => Some(integer_decimal(n as int)),
        Value::Decimal(d) => Some(d),
        _ => None,
    }
}

fn to_decimal(value: &Value) -> (decimal: Option<Decimal>)
    ensures
        decimal == as_decimal(*value),
{
    match value {
        Value::Integer(n) => Some(from_integer(*n)),
        Value::Decimal(d) => Some(*d),
        _ => None,
    }
}

/// Lexicographic order of two texts by character: `-1`, `0` or `1`.
pub open spec fn text_order(a: Seq<char>, b: Seq<char>) -> int
    decreases a.len(),
{
    if a.len() == 0 && b.len() == 0 {
        0
    } else if a.len() == 0 {
        -1
    } else if b.len() == 0 {
        1
    } else if a[0] < b[0] {
        -1
    } else if a[0] > b[0] {
        1
    } else {
        text_order(a.drop_first(), b.drop_first())
    }
}

/// Two texts are level in the order exactly when they are equal.
pub proof fn lemma_text_order_zero(a: Seq<char>, b: Seq<char>)
    ensures
        text_order(a, b) == 0 <==> a == b,
    decreases a.len(),
{
    if a.len() == 0 && b.len() == 0 {
        assert(a =~= b);
    } else if a.len() > 0 && b.len() > 0 && a[0] == b[0] {
        lemma_text_order_zero(a.drop_first(), b.drop_first());
        if a.drop_first() == b.drop_first() {
            assert(a =~= seq![a[0]] + a.drop_first());
            assert(b =~= seq![b[0]] + b.drop_first());
        }
        if a == b {
            assert(a.drop_first() =~= b.drop_first());
        }
    } else if a.len() > 0 && b.len() > 0 {
        assert(a[0] != b[0]);
    }
}

/// Swapping the texts flips the order.
pub proof fn lemma_text_order_antisymmetric(a: Seq<char>, b: Seq<char>)
    ensures
        text_order(a, b) == -text_order(b, a),
    decreases a.len(),
{
    if a.len() > 0 && b.len() > 0 && a[0] == b[0] {
        lemma_text_order_antisymmetric(a.drop_first(), b.drop_first());
    }
}

/// The strict order is transitive.
pub proof fn lemma_text_order_transitive(a: Seq<char>, b: Seq<char>, c: Seq<char>)
    requires
        text_order(a, b) < 0,
        text_order(b, c) < 0,
    ensures
        text_order(a, c) < 0,
    decreases a.len(),
{
    if a.len() > 0 && b.len() > 0 && c.len() > 0 && a[0] == b[0] && b[0] == c[0] {
        lemma_text_order_transitive(a.drop_first(), b.drop_first(), c.drop_first());
    }
}

/// Compares two texts by character code (see `text_order`).
pub fn compare_text(a: &str, b: &str) -> (order: i8)
    ensures
        order as int == text_order(a@, b@),
{
    let x = chars_of(a);
    let y = chars_of(b);
    let mut i: usize = 0;
    assert(a@.skip(0) =~= a@);
    assert(b@.skip(0) =~= b@);
    while i < x.len() && i < y.len() && x[i] == y[i]
        invariant
            x@ == a@,
            y@ == b@,
            i <= x@.len(),
            i <= y@.len(),
            text_order(a@, b@) == text_order(a@.skip(i as int), b@.skip(i as int)),
        decreases x@.len() - i,
    {
        proof {
            let sa = a@.skip(i as int);
            let sb = b@.skip(i as int);
            assert(sa.drop_first() =~= a@.skip(i + 1));
            assert(sb.drop_first() =~= b@.skip(i + 1));
        }
        i += 1;
    }
    let ghost sa = a@.skip(i as int);
    let ghost sb = b@.skip(i as int);
    assert(sa.len() == x@.len() - i);
    assert(sb.len() == y@.len() - i);
    if i == x.len() && i == y.len() {
        0
    } else if i == x.len() {
        -1
    } else if i == y.len() {
        1
    } else {
        assert(sa[0] == x@[i as int]);
        assert(sb[0] == y@[i as int]);
        if x[i] < y[i] {
            -1
        } else {
            1
        }
    }
}

/// The sign of `a - b`.
pub open spec fn sign_of(d: int) -> int {
    if d < 0 {
        -1
    } else if d == 0 {
        0
    } else {
        1
    }
}

/// How two values order (`-1`, `0`, `1`); `None` when they cannot be ordered.
pub open spec fn value_order(left: Value, right: Value) -> Option<int> {
    match (left, right) {
        (Value::Text(a), Value::Text(b)) => Some(text_order(a@, b@)),
        (Value::Integer(a), Value::Integer(b)) => Some(sign_of(a - b)),
        _ => match (as_decimal(left), as_decimal(right)) {
            (Some(a), Some(b)) => Some(compare_spec(a, b)),
            _ => None,
        },
    }
}

/// Whether two values are equal: same texts, Booleans or objects, or equal numbers
/// (an Integer and a Decimal compare by value).
pub open spec fn values_equal(left: Value, right: Value) -> bool {
    match (left, right) {
        (Value::Text(a), Value::Text(b)) => a@ == b@,
        (Value::Boolean(a), Value::Boolean(b)) => a == b,
        (Value::Object(a), Value::Object(b)) => a == b,
        (Value::Integer(a), Value::Integer(b)) => a == b,
        _ => match (as_decimal(left), as_decimal(right)) {
            (Some(a), Some(b)) => compare_spec(a, b) == 0,
            _ => false,
        },
    }
}

/// Whether two values are equal (see `values_equal`).
pub fn equal_values(left: &Value, right: &Value) -> (equal: bool)
    ensures
        equal == values_equal(*left, *right),
{
    match (left, right) {
        (Value::Text(a), Value::Text(b)) => str_equal(a.as_str(), b.as_str()),
        (Value::Boolean(a), Value::Boolean(b)) => *a == *b,
        (Value::Object(a), Value::Object(b)) => *a == *b,
        (Value::Integer(a), Value::Integer(b)) => *a == *b,
        _ => match (to_decimal(left), to_decimal(right)) {
            (Some(a), Some(b)) => compare(a, b) == 0,
            _ => false,
        },
    }
}

/// The outcome of `left <operator> right`; `None` when the values cannot be ordered.
pub open spec fn comparison_result(left: Value, operator: ComparisonOperator, right: Value) -> Option<bool> {
    match operator {
        ComparisonOperator::Equal => Some(values_equal(left, right)),
        ComparisonOperator::NotEqual => Some(!values_equal(left, right)),
        _ => match value_order(left, right) {
            Some(order) => Some(
                match operator {
                    ComparisonOperator::Less => order < 0,
                    ComparisonOperator::LessOrEqual => order <= 0,
                    ComparisonOperator::Greater => order > 0,
                    _ => order >= 0,
                },
            ),
            None => None,
        },
    }
}

/// The symbol of a comparison operator.
pub open spec fn comparison_symbol(operator: ComparisonOperator) -> Seq<char> {
    match operator {
        ComparisonOperator::Equal => "="@,
        ComparisonOperator::NotEqual => "!="@,
        ComparisonOperator::Less => "<"@,
        ComparisonOperator::LessOrEqual => "<="@,
        ComparisonOperator::Greater => ">"@,
        ComparisonOperator::GreaterOrEqual => ">="@,
    }
}

pub fn comparison_operator_text(operator: ComparisonOperator) -> (text: String)
    ensures
        text@ == comparison_symbol(operator),
{
    match operator {
        ComparisonOperator::Equal => String::from_str("="),
        ComparisonOperator::NotEqual => String::from_str("!="),
        ComparisonOperator::Less => String::from_str("<"),
        ComparisonOperator::LessOrEqual => String::from_str("<="),
        ComparisonOperator::Greater => String::from_str(">"),
        ComparisonOperator::GreaterOrEqual => String::from_str(">="),
    }
}

/// The symbol of an arithmetic operator.
pub open spec fn arithmetic_symbol(operator: ArithmeticOperator) -> Seq<char> {
    match operator {
        ArithmeticOperator::Add => "+"@,
        ArithmeticOperator::Subtract => "-"@,
        ArithmeticOperator::Multiply => "*"@,
        ArithmeticOperator::Divide => "/"@,
    }
}

pub fn arithmetic_operator_text(operator: ArithmeticOperator) -> (text: String)
    ensures
        text@ == arithmetic_symbol(operator),
{
    match operator {
        ArithmeticOperator::Add => String::from_str("+"),
        ArithmeticOperator::Subtract => String::from_str("-"),
        ArithmeticOperator::Multiply => String::from_str("*"),
        ArithmeticOperator::Divide => String::from_str("/"),
    }
}

/// `left <operator> right` (see `comparison_result`); values that cannot be ordered give
/// `IncomparableValues`.
pub fn compare_values(left: &Value, operator: ComparisonOperator, right: &Value) -> (result: Result<
    bool,
    ExecutionError,
>)
    ensures
        match comparison_result(*left, operator, *right) {
            Some(b) => result == Ok::<bool, ExecutionError>(b),
            None => result matches Err(ExecutionError::IncomparableValues { left_type, right_type, operator: symbol })
                && left_type@ == value_type_name(*left) && right_type@ == value_type_name(*right) && symbol@
                == comparison_symbol(operator),
        },
{
    let equality_operator = match operator {
        ComparisonOperator::Equal => true,
        ComparisonOperator::NotEqual => true,
        _ => false,
    };
    if equality_operator {
        let equal = equal_values(left, right);
        return Ok(
            match operator {
                ComparisonOperator::Equal => equal,
                _ => !equal,
            },
        );
    }
    let order: Option<i8> = match (left, right) {
        (Value::Text(a), Value::Text(b)) => Some(compare_text(a.as_str(), b.as_str())),
        (Value::Integer(a), Value::Integer(b)) => Some(
            if *a < *b {
                -1
            } else if *a == *b {
                0
            } else {
                1
            },
        ),
        _ => match (to_decimal(left), to_decimal(right)) {
            (Some(a), Some(b)) => Some(compare(a, b)),
            _ => None,
        },
    };
    match order {
        Some(o) => Ok(
            match operator {
                ComparisonOperator::Less => o < 0,
                ComparisonOperator::LessOrEqual => o <= 0,
                ComparisonOperator::Greater => o > 0,
                _ => o >= 0,
            },
        ),
        None => Err(
            ExecutionError::IncomparableValues {
                left_type: value_type(left),
                right_type: value_type(right),
                operator: comparison_operator_text(operator),
            },
        ),
    }
}

/// Why an arithmetic operation has no value.
#[derive(Debug, Clone, Copy, PartialEq, Eq, Structural)]
pub enum ArithmeticFailure {
    /// An operand is not a number.
    Mismatch,
    /// Division by zero.
    ZeroDivision,
    /// The result does not fit.
    Overflow,
}

/// `a <operator> b` on integers, for the operators other than division.
pub open spec fn integer_operation(operator: ArithmeticOperator, a: int, b: int) -> int {
    match operator {
        ArithmeticOperator::Add => a + b,
        ArithmeticOperator::Subtract => a - b,
        _ => a * b,
    }
}

/// `a <operator> b` on decimals, for the operators other than division.
pub open spec fn decimal_operation(operator: ArithmeticOperator, a: Decimal, b: Decimal) -> Option<Decimal> {
    match operator {
        ArithmeticOperator::Add => add_spec(a, b),
        ArithmeticOperator::Subtract => sub_spec(a, b),
        _ => mul_spec(a, b),
    }
}

/// The outcome of `left <operator> right`. Division always gives a Decimal; two Integers
/// otherwise give an Integer; a Decimal operand makes the result a Decimal.
pub open spec fn arithmetic_spec(left: Value, operator: ArithmeticOperator, right: Value) -> Result<
    Value,
    ArithmeticFailure,
> {
    if operator == ArithmeticOperator::Divide {
        match (as_decimal(left), as_decimal(right)) {
            (Some(a), Some(b)) => if is_zero_spec(b) {
                Err(ArithmeticFailure::ZeroDivision)
            } else {
                match div_spec(a, b) {
                    Some(q) => Ok(Value::Decimal(q)),
                    None => Err(ArithmeticFailure::Overflow),
                }
            },
            _ => Err(ArithmeticFailure::Mismatch),
        }
    } else {
        match (left, right) {
            (Value::Integer(a), Value::Integer(b)) => {
                let x = integer_operation(operator, a as int, b as int);
                if i64::MIN <= x <= i64::MAX {
                    Ok(Value::Integer(x as i64))
                } else {
                    Err(ArithmeticFailure::Overflow)
                }
            },
            _ => match (as_decimal(left), as_decimal(right)) {
                (Some(a), Some(b)) => match decimal_operation(operator, a, b) {
                    Some(v) => Ok(Value::Decimal(v)),
                    None => Err(ArithmeticFailure::Overflow),
                },
                _ => Err(ArithmeticFailure::Mismatch),
            },
        }
    }
}

/// `left <operator> right` (see `arithmetic_spec`), with the error each failure gives.
pub fn evaluate_arithmetic(left: &Value, operator: ArithmeticOperator, right: &Value) -> (result: Result<
    Value,
    ExecutionError,
>)
    ensures
        match arithmetic_spec(*left, operator, *right) {
            Ok(v) => result == Ok::<Value, ExecutionError>(v),
            Err(ArithmeticFailure::Mismatch) => result matches Err(
                ExecutionError::IncomparableArithmetic { left_type, right_type, operator: symbol },
            ) && left_type@ == value_type_name(*left) && right_type@ == value_type_name(*right) && symbol@
                == arithmetic_symbol(operator),
            Err(ArithmeticFailure::ZeroDivision) => result matches Err(ExecutionError::DivisionByZero),
            Err(ArithmeticFailure::Overflow) => result matches Err(
                ExecutionError::ArithmeticOverflow { operator: symbol },
            ) && symbol@ == arithmetic_symbol(operator),
        },
{
    let mismatch = ExecutionError::IncomparableArithmetic {
        left_type: value_type(left),
        right_type: value_type(right),
        operator: arithmetic_operator_text(operator),
    };
    if operator == ArithmeticOperator::Divide {
        return match (to_decimal(left), to_decimal(right)) {
            (Some(a), Some(b)) => {
                if is_zero(b) {
                    Err(ExecutionError::DivisionByZero)
                } else {
                    match decimal_div(a, b) {
                        Some(q) => Ok(Value::Decimal(q)),
                        None => Err(ExecutionError::ArithmeticOverflow { operator: arithmetic_operator_text(operator) }),
                    }
                }
            },
            _ => Err(mismatch),
        };
    }
    match (left, right) {
        (Value::Integer(a), Value::Integer(b)) => {
            let outcome = match operator {
                ArithmeticOperator::Add => a.checked_add(*b),
                ArithmeticOperator::Subtract => a.checked_sub(*b),
                _ => a.checked_mul(*b),
            };
            match outcome {
                Some(x) => Ok(Value::Integer(x)),
                None => Err(ExecutionError::ArithmeticOverflow { operator: arithmetic_operator_text(operator) }),
            }
        },
        _ => match (to_decimal(left), to_decimal(right)) {
            (Some(a), Some(b)) => {
                let outcome = match operator {
                    ArithmeticOperator::Add => decimal_add(a, b),
                    ArithmeticOperator::Subtract => decimal_sub(a, b),
                    _ => decimal_mul(a, b),
                };
                match outcome {
                    Some(v) => Ok(Value::Decimal(v)),
                    None => Err(ExecutionError::ArithmeticOverflow { operator: arithmetic_operator_text(operator) }),
                }
            },
            _ => Err(mismatch),
        },
    }
}

/// The outcome of `-value`: numbers are negated, other values refused.
pub open spec fn negation_spec(value: Value) -> Result<Value, ArithmeticFailure> {
    match value {
        Value::Integer(n) => if n == i64::MIN {
            Err(ArithmeticFailure::Overflow)
        } else {
            Ok(Value::Integer((-n) as i64))
        },
        Value::Decimal(d) => Ok(Value::Decimal(negate_spec(d))),
        _ => Err(ArithmeticFailure::Mismatch),
    }
}

/// `-value` (see `negation_spec`).
pub fn evaluate_negation(value: &Value) -> (result: Result<Value, ExecutionError>)
    ensures
        match negation_spec(*value) {
            Ok(v) => result == Ok::<Value, ExecutionError>(v),
            Err(ArithmeticFailure::Overflow) => result matches Err(
                ExecutionError::ArithmeticOverflow { operator: symbol },
            ) && symbol@ == "-"@,
            Err(_) => result matches Err(ExecutionError::InvalidUnaryArithmetic { value_type, operator: symbol })
                && value_type@ == value_type_name(*value) && symbol@ == "-"@,
        },
{
    match value {
        Value::Integer(n) => {
            if *n == i64::MIN {
                Err(ExecutionError::ArithmeticOverflow { operator: String::from_str("-") })
            } else {
                Ok(Value::Integer(-*n))
            }
        },
        Value::Decimal(d) => Ok(Value::Decimal(negate(*d))),
        _ => Err(
            ExecutionError::InvalidUnaryArithmetic {
                value_type: value_type(value),
                operator: String::from_str("-"),
            },
        ),
    }
}

/// `Integer(value)` succeeds on Integers and on texts that read as one.
pub open spec fn integer_conversion(value: Value) -> Option<i64> {
    match value {
        Value::Integer(n) => Some(n),
        Value::Text(t) => match integer_value(t@) {
            Some(n) => Some(n as i64),
            None => None,
        },
        _ => None,
    }
}

/// `Decimal(value)` succeeds on numbers and on texts that denote a decimal value.
pub open spec fn decimal_conversion(value: Value) -> Option<Decimal> {
    match value {
        Value::Integer(n) => Some(integer_decimal(n as int)),
        Value::Decimal(d) => Some(d),
        Value::Text(t) => decimal_of_text(t@),
        _ => None,
    }
}

/// `Boolean(value)` succeeds on Booleans and on `true` / `false` in any ASCII case.
pub open spec fn boolean_conversion(value: Value) -> Option<bool> {
    match value {
        Value::Boolean(b) => Some(b),
        Value::Text(t) => boolean_value(t@),
        _ => None,
    }
}

pub fn convert_to_integer(value: &Value) -> (converted: Option<i64>)
    ensures
        converted == integer_conversion(*value),
{
    match value {
        Value::Integer(n) => Some(*n),
        Value::Text(t) => {
            let chars = chars_of(t.as_str());
            parse_integer(chars.as_slice())
        },
        _ => None,
    }
}

pub fn convert_to_decimal(value: &Value) -> (converted: Option<Decimal>)
    ensures
        converted == decimal_conversion(*value),
{
    match value {
        Value::Integer(n) => Some(from_integer(*n)),
        Value::Decimal(d) => Some(*d),
        Value::Text(t) => {
            let chars = chars_of(t.as_str());
            decimal_from_text(chars.as_slice())
        },
        _ => None,
    }
}

pub fn convert_to_boolean(value: &Value) -> (converted: Option<bool>)
    ensures
        converted == boolean_conversion(*value),
{
    match value {
        Value::Boolean(b) => Some(*b),
        Value::Text(t) => {
            let chars = chars_of(t.as_str());
            parse_boolean(chars.as_slice())
        },
        _ => None,
    }
}

/// `Number.IsInteger(value)`: whether `Integer(value)` would succeed.
pub fn is_integer_value(value: &Value) -> (valid: bool)
    ensures
        valid == integer_conversion(*value) is Some,
{
    convert_to_integer(value).is_some()
}

/// `Number.IsDecimal(value)`: whether `Decimal(value)` would succeed.
pub fn is_decimal_value(value: &Value) -> (valid: bool)
    ensures
        valid == decimal_conversion(*value) is Some,
{
    convert_to_decimal(value).is_some()
}

/// `Boolean.IsValid(value)`: whether `Boolean(value)` would succeed.
pub fn is_boolean_value(value: &Value) -> (valid: bool)
    ensures
        valid == boolean_conversion(*value) is Some,
{
    convert_to_boolean(value).is_some()
}

/// Kana (with the phonetic extensions), CJK ideographs (with extension A and the
/// compatibility block) and half-width katakana.
pub open spec fn is_dsl_japanese(c: char) -> bool {
    ||| ('\u{3040}' <= c && c <= '\u{309f}')
    ||| ('\u{30a0}' <= c && c <= '\u{30ff}')
    ||| ('\u{31f0}' <= c && c <= '\u{31ff}')
    ||| ('\u{3400}' <= c && c <= '\u{4dbf}')
    ||| ('\u{4e00}' <= c && c <= '\u{9fff}')
    ||| ('\u{f900}' <= c && c <= '\u{faff}')
    ||| ('\u{ff66}' <= c && c <= '\u{ff9f}')
}

/// `Text.IsJapanese`: some character of the text is Japanese (see `is_dsl_japanese`).
pub fn text_is_japanese(text: &str) -> (found: bool)
    ensures
        found == exists|i: int| 0 <= i < text@.len() && is_dsl_japanese(#[trigger] text@[i]),
{
    let chars = chars_of(text);
    let mut i: usize = 0;
    while i < chars.len()
        invariant
            chars@ == text@,
            i <= chars@.len(),
            forall|j: int| 0 <= j < i ==> !is_dsl_japanese(#[trigger] chars@[j]),
        decreases chars@.len() - i,
    {
        let c = chars[i];
        if ('\u{3040}' <= c && c <= '\u{309f}') || ('\u{30a0}' <= c && c <= '\u{30ff}') || ('\u{31f0}'
            <= c && c <= '\u{31ff}') || ('\u{3400}' <= c && c <= '\u{4dbf}') || ('\u{4e00}' <= c && c
            <= '\u{9fff}') || ('\u{f900}' <= c && c <= '\u{faff}') || ('\u{ff66}' <= c && c
            <= '\u{ff9f}') {
            assert(is_dsl_japanese(chars@[i as int]));
            return true;
        }
        i += 1;
    }
    false
}

/// `needle` occurs in `haystack` starting at `at`.
pub open spec fn occurs_at(haystack: Seq<char>, needle: Seq<char>, at: int) -> bool {
    0 <= at && at + needle.len() <= haystack.len() && haystack.subrange(at, at + needle.len()) == needle
}

fn matches_at(haystack: &Vec<char>, needle: &Vec<char>, at: usize) -> (found: bool)
    requires
        at + needle@.len() <= haystack@.len(),
    ensures
        found == occurs_at(haystack@, needle@, at as int),
{
    let hlen = haystack.len();
    let mut k: usize = 0;
    while k < needle.len()
        invariant
            hlen == haystack@.len(),
            at + needle@.len() <= haystack@.len(),
            k <= needle@.len(),
            forall|j: int| 0 <= j < k ==> haystack@[at + j] == needle@[j],
        decreases needle@.len() - k,
    {
        if haystack[at + k] != needle[k] {
            assert(haystack@.subrange(at as int, at + needle@.len())[k as int] != needle@[k as int]);
            return false;
        }
        k += 1;
    }
    assert(haystack@.subrange(at as int, at + needle@.len()) =~= needle@);
    true
}

/// `Text.Contains`: `needle` occurs somewhere in `haystack`.
pub fn text_contains(haystack: &str, needle: &str) -> (found: bool)
    ensures
        found == exists|at: int| occurs_at(haystack@, needle@, at),
{
    let h = chars_of(haystack);
    let n = chars_of(needle);
    if n.len() > h.len() {
        return false;
    }
    let last = h.len() - n.len();
    let mut at: usize = 0;
    while at <= last
        invariant
            h@ == haystack@,
            n@ == needle@,
            last + n@.len() == h@.len(),
            at <= last + 1,
            forall|j: int| 0 <= j < at ==> !occurs_at(haystack@, needle@, j),
        decreases last + 1 - at,
    {
        if matches_at(&h, &n, at) {
            return true;
        }
        if at == last {
            return false;
        }
        at += 1;
    }
    false
}

/// `Text.StartsWith`.
pub fn text_starts_with(text: &str, prefix: &str) -> (found: bool)
    ensures
        found == occurs_at(text@, prefix@, 0),
{
    let t = chars_of(text);
    let p = chars_of(prefix);
    if p.len() > t.len() {
        return false;
    }
    matches_at(&t, &p, 0)
}

/// `Text.EndsWith`.
pub fn text_ends_with(text: &str, suffix: &str) -> (found: bool)
    ensures
        found == occurs_at(text@, suffix@, text@.len() - suffix@.len()),
{
    let t = chars_of(text);
    let s = chars_of(suffix);
    if s.len() > t.len() {
        return false;
    }
    matches_at(&t, &s, t.len() - s.len())
}

} // verus!
