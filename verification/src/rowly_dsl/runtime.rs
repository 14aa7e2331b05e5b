//! The interpreter of the Rowly DSL: it runs a parsed program against a CSV document,
//! editing it only through the document's own operations.

use vstd::prelude::*;

use crate::process::address::{a1_column, a1_failure, a1_result, a1_row};
use crate::process::document::{fill_range, header_lookup_error, range_exists};
use crate::process::{ColumnError, CsvDocument, DocumentError};
use crate::rowly_dsl::ast::{
    cond_size, expr_size, exprs_size, lemma_exprs_size_element, lemma_stmts_size_element,
    stmt_size, stmts_size, normalize_identifier, ClassDefinition, ColumnSelector, ComparisonOperator, Condition,
    DeclarationKind, ExecutionEvent, ExecutionReport, Expression, FunctionDefinition, Program,
    StandardNamespace, Statement, UnaryOperator,
};
use crate::rowly_dsl::error::ExecutionError;
use crate::rowly_dsl::parser::names_match;
use crate::rowly_dsl::value::{
    compare_values, convert_to_boolean, convert_to_decimal, convert_to_integer, copy_value,
    arithmetic_spec, comparison_result, boolean_conversion, decimal_conversion, evaluate_arithmetic, evaluate_negation,
    integer_conversion, is_boolean_value, is_decimal_value, is_integer_value, negation_spec, scalar_text, scalar_text_spec, text_contains, text_ends_with,
    text_is_japanese, text_starts_with, value_type, Value, is_dsl_japanese, occurs_at,
};
use crate::text::{count_to_string, decimal_digits, eq_ci, integer_to_string, lower_seq};
use crate::data::table::max_width;
use crate::process::column::header_columns;

verus! {

/// How deeply functions and methods may call one another.
pub const MAX_CALL_DEPTH: usize = 64;

/// The fuel of a call at `depth`: it shrinks with every nested call.
pub open spec fn fuel(depth: usize) -> int {
    2 * (MAX_CALL_DEPTH + 1 - depth)
}

/// A variable or constant.
pub struct Binding {
    pub value: Value,
    pub kind: DeclarationKind,
}

/// An object: its class and its fields, keyed by lower-cased name.
pub struct ObjectInstance {
    pub class_name: String,
    pub fields: Vec<(String, Value)>,
}

/// How a block ended: it ran to its end, or it hit `Return`.
pub enum Flow {
    Continue,
    Return(Option<Value>),
}

/// The state of one run: the scopes (the global one first), the objects created so far,
/// the events recorded, and the classes whose methods are running.
pub struct Runtime {
    pub scopes: Vec<Vec<(String, Binding)>>,
    pub objects: Vec<ObjectInstance>,
    pub events: Vec<ExecutionEvent>,
    pub method_context: Vec<String>,
}

/// `first` is a prefix of `second`.
pub open spec fn extends<T>(first: Seq<T>, second: Seq<T>) -> bool {
    first.len() <= second.len() && forall|i: int| 0 <= i < first.len() ==> #[trigger] second[i] == first[i]
}

/// The names a scope binds, in order.
pub open spec fn scope_names(scope: Vec<(String, Binding)>) -> Seq<Seq<char>> {
    scope@.map_values(|binding: (String, Binding)| binding.0@)
}

/// `after` has the scopes of `before` with the same names, but for names added at the
/// end of the innermost one.
pub open spec fn names_kept(before: Seq<Vec<(String, Binding)>>, after: Seq<Vec<(String, Binding)>>) -> bool {
    &&& after.len() == before.len()
    &&& forall|s: int| 0 <= s < before.len() - 1 ==> scope_names(#[trigger] after[s]) == scope_names(before[s])
    &&& before.len() > 0 ==> extends(scope_names(before.last()), scope_names(after.last()))
}

/// `after` has the scopes of `before`, binding the same names.
pub open spec fn same_names(before: Seq<Vec<(String, Binding)>>, after: Seq<Vec<(String, Binding)>>) -> bool {
    &&& after.len() == before.len()
    &&& forall|s: int| 0 <= s < before.len() ==> scope_names(#[trigger] after[s]) == scope_names(before[s])
}

/// Whether running the block can add a name to the scope it runs in: it holds a `VAR` or
/// `CONST` declaration, itself or in a branch of one of its `If` statements. A loop's
/// body and a call's body run in scopes of their own.
pub open spec fn declares_in_block(statements: Seq<Statement>) -> bool
    decreases stmts_size(statements),
{
    if statements.len() == 0 {
        false
    } else {
        proof {
            lemma_stmts_size_element(statements, statements.len() - 1);
        }
        declares_in_block(statements.drop_last()) || match statements.last() {
            Statement::Declare { .. } => true,
            Statement::If { body, else_body, .. } => declares_in_block(body@) || declares_in_block(
                else_body@,
            ),
            _ => false,
        }
    }
}

proof fn lemma_no_declaration_at(statements: Seq<Statement>, i: int)
    requires
        0 <= i < statements.len(),
        !declares_in_block(statements),
    ensures
        statements[i] !is Declare,
        statements[i] matches Statement::If { body, else_body, .. } ==> !declares_in_block(body@)
            && !declares_in_block(else_body@),
        !declares_in_block(seq![statements[i]]),
    decreases statements.len(),
{
    assert(seq![statements[i]].drop_last() =~= Seq::<Statement>::empty());
    assert(!declares_in_block(Seq::<Statement>::empty()));
    assert(seq![statements[i]].last() == statements[i]);
    if i < statements.len() - 1 {
        assert(statements.drop_last()[i] == statements[i]);
        lemma_no_declaration_at(statements.drop_last(), i);
    }
}

/// What evaluating an expression or running a call or a loop keeps: the frame, and the
/// very names every scope binds.
pub open spec fn keeps_scopes(before: Runtime, after: Runtime) -> bool {
    &&& keeps_frame(before, after)
    &&& same_names(before.scopes@, after.scopes@)
}

/// What every step of a run keeps: the scopes and method contexts are as deep as before,
/// no scope loses or renames a binding and only the innermost one gains some, and the
/// recorded events are only added to.
pub open spec fn keeps_frame(before: Runtime, after: Runtime) -> bool {
    &&& names_kept(before.scopes@, after.scopes@)
    &&& after.method_context@.len() == before.method_context@.len()
    &&& extends(before.events@, after.events@)
}

/// Some binding of `scope` is named `key`.
pub open spec fn scope_binds(scope: Seq<(String, Binding)>, key: Seq<char>) -> bool {
    exists|j: int| 0 <= j < scope.len() && (#[trigger] scope[j]).0@ == key
}

/// `j` is the first binding of `scope` named `key`.
pub open spec fn first_in_scope(scope: Seq<(String, Binding)>, key: Seq<char>, j: int) -> bool {
    &&& 0 <= j < scope.len()
    &&& scope[j].0@ == key
    &&& forall|k: int| 0 <= k < j ==> (#[trigger] scope[k]).0@ != key
}

/// `s` is the innermost scope that binds `key`.
pub open spec fn innermost_scope(scopes: Seq<Vec<(String, Binding)>>, key: Seq<char>, s: int) -> bool {
    &&& 0 <= s < scopes.len()
    &&& scope_binds(scopes[s]@, key)
    &&& forall|t: int| s < t < scopes.len() ==> !scope_binds(#[trigger] scopes[t]@, key)
}

/// Whether the name `key` is visible as a variable or a constant, if it is visible.
pub open spec fn visible_kind(runtime: Runtime, key: Seq<char>) -> Option<DeclarationKind> {
    if exists|s: int, j: int|
        innermost_scope(runtime.scopes@, key, s) && #[trigger] first_in_scope(
            runtime.scopes@[s]@,
            key,
            j,
        ) {
        let (s, j) = choose|s: int, j: int|
            innermost_scope(runtime.scopes@, key, s) && #[trigger] first_in_scope(
                runtime.scopes@[s]@,
                key,
                j,
            );
        Some(runtime.scopes@[s]@[j].1.kind)
    } else {
        None
    }
}

/// The value of the name `key` where it is visible.
pub open spec fn visible_value(runtime: Runtime, key: Seq<char>) -> Option<Value> {
    if exists|s: int, j: int|
        innermost_scope(runtime.scopes@, key, s) && #[trigger] first_in_scope(
            runtime.scopes@[s]@,
            key,
            j,
        ) {
        let (s, j) = choose|s: int, j: int|
            innermost_scope(runtime.scopes@, key, s) && #[trigger] first_in_scope(
                runtime.scopes@[s]@,
                key,
                j,
            );
        Some(runtime.scopes@[s]@[j].1.value)
    } else {
        None
    }
}

/// What the conversion named `name` (`Integer`, `Decimal` or `Boolean`, in any case)
/// makes of `argument`, where it succeeds.
pub open spec fn conversion_value(name: Seq<char>, argument: Value) -> Option<Value> {
    if eq_ci(name, "integer"@) {
        match integer_conversion(argument) {
            Some(n) => Some(Value::Integer(n)),
            None => None,
        }
    } else if eq_ci(name, "decimal"@) {
        match decimal_conversion(argument) {
            Some(d) => Some(Value::Decimal(d)),
            None => None,
        }
    } else if eq_ci(name, "boolean"@) {
        match boolean_conversion(argument) {
            Some(b) => Some(Value::Boolean(b)),
            None => None,
        }
    } else {
        None
    }
}

/// The value of an expression that can be had without reading cells, writing the
/// document or running a function, in a document that holds `rows`: a literal, a visible
/// variable, `RowCount()` and `ColumnCount()`, and the conversions `Integer`, `Decimal` and
/// `Boolean`, negation and arithmetic over such expressions, where they succeed. `None`
/// for any other expression, and where a variable is not visible or a count, a conversion
/// or the arithmetic fails.
pub open spec fn plain_value(runtime: Runtime, rows: Seq<Seq<Seq<char>>>, expression: Expression) -> Option<Value>
    decreases expression,
{
    match expression {
        Expression::Literal(text) => Some(Value::Text(text)),
        Expression::Call { name, arguments } => if arguments@.len() == 1 {
            match plain_value(runtime, rows, arguments@[0]) {
                Some(argument) => conversion_value(name@, argument),
                None => None,
            }
        } else if arguments@.len() == 0 && builtin_number(name@) == 6 && rows.len() <= i64::MAX {
            Some(Value::Integer(rows.len() as i64))
        } else if arguments@.len() == 0 && builtin_number(name@) == 7 && max_width(rows) <= i64::MAX {
            Some(Value::Integer(max_width(rows) as i64))
        } else {
            None
        },
        Expression::Variable(name) => visible_value(runtime, lower_seq(name@)),
        Expression::Unary { operand, .. } => match plain_value(runtime, rows, *operand) {
            Some(value) => match negation_spec(value) {
                Ok(negated) => Some(negated),
                Err(_) => None,
            },
            None => None,
        },
        Expression::Arithmetic { left, operator, right } => match (
            plain_value(runtime, rows, *left),
            plain_value(runtime, rows, *right),
        ) {
            (Some(a), Some(b)) => match arithmetic_spec(a, operator, b) {
                Ok(value) => Some(value),
                Err(_) => None,
            },
            _ => None,
        },
        _ => None,
    }
}

/// `after` is `before` with `binding` added, named `key`, at the end of the innermost
/// scope.
pub open spec fn binding_declared(
    before: Seq<Vec<(String, Binding)>>,
    after: Seq<Vec<(String, Binding)>>,
    key: Seq<char>,
    binding: Binding,
) -> bool {
    &&& before.len() > 0
    &&& after.len() == before.len()
    &&& forall|s: int| 0 <= s < before.len() - 1 ==> #[trigger] after[s] == before[s]
    &&& after.last()@.len() == before.last()@.len() + 1
    &&& forall|j: int| 0 <= j < before.last()@.len() ==> #[trigger] after.last()@[j] == before.last()@[j]
    &&& after.last()@.last().0@ == key
    &&& after.last()@.last().1 == binding
}

/// `after` is `before` with the visible binding named `key` now holding `value`.
pub open spec fn binding_assigned(
    before: Seq<Vec<(String, Binding)>>,
    after: Seq<Vec<(String, Binding)>>,
    key: Seq<char>,
    value: Value,
) -> bool {
    exists|s: int, j: int|
        #![trigger first_in_scope(before[s]@, key, j)]
        innermost_scope(before, key, s) && first_in_scope(before[s]@, key, j) && {
            &&& after.len() == before.len()
            &&& forall|t: int| 0 <= t < before.len() && t != s ==> #[trigger] after[t] == before[t]
            &&& after[s]@ == before[s]@.update(
                j,
                (before[s]@[j].0, Binding { value, kind: before[s]@[j].1.kind }),
            )
        }
}

/// `after` has one event more than `before`, the last.
pub open spec fn one_event_added(before: Seq<ExecutionEvent>, after: Seq<ExecutionEvent>) -> bool {
    after.len() == before.len() + 1 && after.drop_last() == before
}

/// The truth of a condition that can be had without reading cell values or running a
/// function: whether a column exists, comparisons and Boolean values of plain
/// expressions (see `plain_value`), and `Not`, `And` and `Or` over such conditions (`And`
/// and `Or` look at their right side only when the left one does not decide). `None` for
/// any other condition, and where a comparison or a Boolean cannot be had.
pub open spec fn plain_condition(runtime: Runtime, rows: Seq<Seq<Seq<char>>>, condition: Condition) -> Option<bool>
    decreases condition,
{
    match condition {
        Condition::ColumnExists { selector } => Some(
            match selector {
                ColumnSelector::Index(column) => column < max_width(rows),
                ColumnSelector::Header(header) => header_columns(rows, header@, max_width(rows) as int).len()
                    > 0,
            },
        ),
        Condition::Compare { left, operator, right } => match (
            plain_value(runtime, rows, left),
            plain_value(runtime, rows, right),
        ) {
            (Some(a), Some(b)) => comparison_result(a, operator, b),
            _ => None,
        },
        Condition::Expression(expression) => match plain_value(runtime, rows, expression) {
            Some(Value::Boolean(b)) => Some(b),
            _ => None,
        },
        Condition::Not(inner) => match plain_condition(runtime, rows, *inner) {
            Some(b) => Some(!b),
            None => None,
        },
        Condition::And(left, right) => match plain_condition(runtime, rows, *left) {
            Some(false) => Some(false),
            Some(true) => plain_condition(runtime, rows, *right),
            None => None,
        },
        Condition::Or(left, right) => match plain_condition(runtime, rows, *left) {
            Some(true) => Some(true),
            Some(false) => plain_condition(runtime, rows, *right),
            None => None,
        },
        _ => None,
    }
}

/// What evaluating `expression` from `before` is known to give (see
/// `Runtime::evaluate_expression`): the plain value where there is one (see
/// `plain_value`), with nothing changed.
pub open spec fn expression_evaluated(
    before: Runtime,
    doc_before: CsvDocument,
    expression: Expression,
    after: Runtime,
    doc_after: CsvDocument,
    result: Result<Value, ExecutionError>,
) -> bool {
    &&& after.wf()
    &&& doc_after.wf()
    &&& keeps_scopes(before, after)
    &&& plain_value(before, doc_before@, expression) matches Some(value) ==> {
        &&& result == Ok::<Value, ExecutionError>(value)
        &&& after == before
        &&& doc_after == doc_before
    }
    &&& call_evaluated(before, doc_before, expression, after, doc_after, result)
}

/// What a call of a builtin or standard function whose arguments are plain (see
/// `plain_value`) gives: the builtin's outcome on the arguments' values, against the
/// document (see `builtin_outcome`); the standard function's value, with nothing changed
/// (see `standard_value`).
pub open spec fn call_evaluated(
    before: Runtime,
    doc_before: CsvDocument,
    expression: Expression,
    after: Runtime,
    doc_after: CsvDocument,
    result: Result<Value, ExecutionError>,
) -> bool {
    &&& (expression matches Expression::Call { name, arguments } ==> (builtin_number(name@) != 0
        && arguments@.len() == builtin_arity(builtin_number(name@)) && (forall|i: int|
        0 <= i < arguments@.len() ==> (#[trigger] plain_value(before, doc_before@, arguments@[i])) is Some)
        ==> builtin_outcome(
        builtin_number(name@),
        plain_values(before, doc_before@, arguments@),
        doc_before,
        doc_after,
        result,
    )))
    &&& (expression matches Expression::StandardCall { namespace, name, arguments } ==> (standard_function(
        namespace,
        name@,
    ).0 != 0 && arguments@.len() == standard_function(namespace, name@).1 && (forall|i: int|
        0 <= i < arguments@.len() ==> (#[trigger] plain_value(before, doc_before@, arguments@[i])) is Some)
        ==> {
        &&& after == before
        &&& doc_after == doc_before
        &&& match standard_value(
            standard_function(namespace, name@).0,
            plain_values(before, doc_before@, arguments@),
        ) {
            Some(value) => result == Ok::<Value, ExecutionError>(value),
            None => result is Err,
        }
    }))
}

/// `values` are the values of `arguments`, evaluated one after the other, each from the
/// state the one before it left (the states of `trace`).
pub open spec fn arguments_evaluated(
    arguments: Seq<Expression>,
    trace: Seq<(Runtime, CsvDocument)>,
    values: Seq<Value>,
) -> bool {
    &&& values.len() == arguments.len()
    &&& trace.len() == arguments.len() + 1
    &&& forall|i: int|
        0 <= i < arguments.len() ==> expression_evaluated(
            #[trigger] trace[i].0,
            trace[i].1,
            arguments[i],
            trace[i + 1].0,
            trace[i + 1].1,
            Ok(values[i]),
        )
}

/// The values of plain expressions (see `plain_value`).
pub open spec fn plain_values(runtime: Runtime, rows: Seq<Seq<Seq<char>>>, expressions: Seq<Expression>) -> Seq<Value> {
    expressions.map_values(|expression: Expression| plain_value(runtime, rows, expression).unwrap())
}

/// Which standard function `namespace.name` is (any ASCII case), with the number of
/// arguments it takes: `Text.Contains`, `StartsWith`, `EndsWith` and `IsJapanese`,
/// `Number.IsInteger` and `IsDecimal`, `Boolean.IsValid`; `(0, 0)` for none.
pub open spec fn standard_function(namespace: StandardNamespace, name: Seq<char>) -> (int, int) {
    match namespace {
        StandardNamespace::Text => if eq_ci(name, "contains"@) {
            (1, 2)
        } else if eq_ci(name, "startswith"@) {
            (2, 2)
        } else if eq_ci(name, "endswith"@) {
            (3, 2)
        } else if eq_ci(name, "isjapanese"@) {
            (4, 1)
        } else {
            (0, 0)
        },
        StandardNamespace::Number => if eq_ci(name, "isinteger"@) {
            (5, 1)
        } else if eq_ci(name, "isdecimal"@) {
            (6, 1)
        } else {
            (0, 0)
        },
        StandardNamespace::Boolean => if eq_ci(name, "isvalid"@) {
            (7, 1)
        } else {
            (0, 0)
        },
    }
}

/// What the standard function `code` (see `standard_function`) gives for `values`, the
/// right number of them; `None` where a text function is given something else than text.
pub open spec fn standard_value(code: int, values: Seq<Value>) -> Option<Value> {
    if 1 <= code <= 3 {
        match (values[0], values[1]) {
            (Value::Text(a), Value::Text(b)) => Some(
                Value::Boolean(
                    if code == 1 {
                        exists|at: int| occurs_at(a@, b@, at)
                    } else if code == 2 {
                        occurs_at(a@, b@, 0)
                    } else {
                        occurs_at(a@, b@, a@.len() - b@.len())
                    },
                ),
            ),
            _ => None,
        }
    } else if code == 4 {
        match values[0] {
            Value::Text(a) => Some(
                Value::Boolean(exists|i: int| 0 <= i < a@.len() && is_dsl_japanese(#[trigger] a@[i])),
            ),
            _ => None,
        }
    } else if code == 5 {
        Some(Value::Boolean(integer_conversion(values[0]) is Some))
    } else if code == 6 {
        Some(Value::Boolean(decimal_conversion(values[0]) is Some))
    } else {
        Some(Value::Boolean(boolean_conversion(values[0]) is Some))
    }
}

/// A statement that a run refuses before evaluating anything in it: an assignment to a
/// name that is not visible or is a constant, or a declaration of a name the innermost
/// scope already has.
pub open spec fn refused_statement(runtime: Runtime, statement: Statement) -> bool {
    match statement {
        Statement::Assign { name, .. } => visible_kind(runtime, lower_seq(name@)) != Some(
            DeclarationKind::Var,
        ),
        Statement::Declare { name, .. } => runtime.scopes@.len() > 0 && scope_binds(
            runtime.scopes@.last()@,
            lower_seq(name@),
        ),
        _ => false,
    }
}

/// `error` is what a refused statement fails with.
pub open spec fn refusal_error(runtime: Runtime, statement: Statement, error: ExecutionError) -> bool {
    match statement {
        Statement::Assign { name, .. } => match visible_kind(runtime, lower_seq(name@)) {
            None => error matches ExecutionError::UnknownVariable(n) && n@ == name@,
            Some(_) => error matches ExecutionError::ConstantAssignment(n) && n@ == name@,
        },
        Statement::Declare { name, .. } => error matches ExecutionError::DuplicateVariable(n) && n@
            == name@,
        _ => false,
    }
}

proof fn lemma_visible_kind(runtime: Runtime, key: Seq<char>, s: int, j: int)
    requires
        innermost_scope(runtime.scopes@, key, s),
        first_in_scope(runtime.scopes@[s]@, key, j),
    ensures
        visible_kind(runtime, key) == Some(runtime.scopes@[s]@[j].1.kind),
        visible_value(runtime, key) == Some(runtime.scopes@[s]@[j].1.value),
{
    assert(innermost_scope(runtime.scopes@, key, s) && first_in_scope(runtime.scopes@[s]@, key, j));
    let (s2, j2) = choose|s: int, j: int|
        innermost_scope(runtime.scopes@, key, s) && #[trigger] first_in_scope(
            runtime.scopes@[s]@,
            key,
            j,
        );
    if s2 < s {
        assert(!scope_binds(runtime.scopes@[s]@, key));
    } else if s2 > s {
        assert(!scope_binds(runtime.scopes@[s2]@, key));
    }
    assert(s2 == s);
    if j2 < j {
        assert(runtime.scopes@[s]@[j2].0@ != key);
    } else if j2 > j {
        assert(runtime.scopes@[s]@[j].0@ != key);
    }
}

proof fn lemma_visible_none(runtime: Runtime, key: Seq<char>)
    requires
        forall|s: int|
            0 <= s < runtime.scopes@.len() ==> !scope_binds(#[trigger] runtime.scopes@[s]@, key),
    ensures
        visible_kind(runtime, key) is None,
        visible_value(runtime, key) is None,
{
    if exists|s: int, j: int|
        innermost_scope(runtime.scopes@, key, s) && #[trigger] first_in_scope(
            runtime.scopes@[s]@,
            key,
            j,
        ) {
        let (s, j) = choose|s: int, j: int|
            innermost_scope(runtime.scopes@, key, s) && #[trigger] first_in_scope(
                runtime.scopes@[s]@,
                key,
                j,
            );
        assert(!scope_binds(runtime.scopes@[s]@, key));
    }
}

fn execution_text(message: &str) -> (text: String)
    ensures
        text@ == message@,
{
    String::from_str(message)
}

fn column_error(error: ColumnError) -> (wrapped: ExecutionError)
    ensures
        wrapped == ExecutionError::Column(error),
{
    ExecutionError::Column(error)
}

fn document_error(error: DocumentError) -> (wrapped: ExecutionError)
    ensures
        wrapped == ExecutionError::Document(error),
{
    ExecutionError::Document(error)
}

/// `b` is `a` again: the same variant with the same names, operators and texts, and
/// the same sub-expressions, down to the last.
pub open spec fn same_expression(a: Expression, b: Expression) -> bool
    decreases a,
{
    match (a, b) {
        (Expression::Literal(x), Expression::Literal(y)) => x == y,
        (Expression::Unary { operator: o, operand: x }, Expression::Unary { operator: p, operand: y }) =>
            o == p && same_expression(*x, *y),
        (
            Expression::Arithmetic { left: l1, operator: o, right: r1 },
            Expression::Arithmetic { left: l2, operator: p, right: r2 },
        ) => o == p && same_expression(*l1, *l2) && same_expression(*r1, *r2),
        (Expression::Variable(x), Expression::Variable(y)) => x == y,
        (Expression::Call { name: n, arguments: x }, Expression::Call { name: m, arguments: y }) => n == m
            && same_expressions(x@, y@),
        (
            Expression::StandardCall { namespace: s1, name: n, arguments: x },
            Expression::StandardCall { namespace: s2, name: m, arguments: y },
        ) => s1 == s2 && n == m && same_expressions(x@, y@),
        (Expression::New { class_name: n, arguments: x }, Expression::New { class_name: m, arguments: y }) =>
            n == m && same_expressions(x@, y@),
        (Expression::Field { target: t1, field: f1 }, Expression::Field { target: t2, field: f2 }) => t1 == t2
            && f1 == f2,
        (
            Expression::MethodCall { target: t1, name: n, arguments: x },
            Expression::MethodCall { target: t2, name: m, arguments: y },
        ) => t1 == t2 && n == m && same_expressions(x@, y@),
        _ => false,
    }
}

/// `b` is `a` again, expression by expression (see `same_expression`).
pub open spec fn same_expressions(a: Seq<Expression>, b: Seq<Expression>) -> bool
    decreases a,
{
    a.len() == b.len() && forall|i: int| 0 <= i < a.len() ==> same_expression(a[i], #[trigger] b[i])
}

/// `b` is `a` again (see `same_expression`).
pub open spec fn same_condition(a: Condition, b: Condition) -> bool
    decreases a,
{
    match (a, b) {
        (Condition::ColumnExists { selector: x }, Condition::ColumnExists { selector: y }) => x == y,
        (
            Condition::ColumnTitleEquals { selector: x, expected: e },
            Condition::ColumnTitleEquals { selector: y, expected: f },
        ) => x == y && same_expression(e, f),
        (
            Condition::Compare { left: l1, operator: o, right: r1 },
            Condition::Compare { left: l2, operator: p, right: r2 },
        ) => o == p && same_expression(l1, l2) && same_expression(r1, r2),
        (Condition::Expression(x), Condition::Expression(y)) => same_expression(x, y),
        (Condition::Not(x), Condition::Not(y)) => same_condition(*x, *y),
        (Condition::And(l1, r1), Condition::And(l2, r2)) => same_condition(*l1, *l2) && same_condition(
            *r1,
            *r2,
        ),
        (Condition::Or(l1, r1), Condition::Or(l2, r2)) => same_condition(*l1, *l2) && same_condition(*r1, *r2),
        _ => false,
    }
}

/// `j` is the first field of `fields` named `key`.
pub open spec fn field_at(fields: Seq<(String, Value)>, key: Seq<char>, j: int) -> bool {
    &&& 0 <= j < fields.len()
    &&& fields[j].0@ == key
    &&& forall|k: int| 0 <= k < j ==> (#[trigger] fields[k]).0@ != key
}

/// The value of the first field of `fields` named `key`, if there is one.
pub open spec fn field_value(fields: Seq<(String, Value)>, key: Seq<char>) -> Option<Value> {
    if exists|j: int| field_at(fields, key, j) {
        Some(fields[choose|j: int| field_at(fields, key, j)].1)
    } else {
        None
    }
}

proof fn lemma_field_value(fields: Seq<(String, Value)>, key: Seq<char>, j: int)
    requires
        field_at(fields, key, j),
    ensures
        field_value(fields, key) == Some(fields[j].1),
{
    let k = choose|k: int| field_at(fields, key, k);
    if k < j {
        assert(fields[k].0@ != key);
    } else if k > j {
        assert(fields[j].0@ != key);
    }
}

proof fn lemma_no_field_value(fields: Seq<(String, Value)>, key: Seq<char>)
    requires
        forall|k: int| 0 <= k < fields.len() ==> (#[trigger] fields[k]).0@ != key,
    ensures
        field_value(fields, key) is None,
{
    if exists|j: int| field_at(fields, key, j) {
        let j = choose|j: int| field_at(fields, key, j);
        assert(fields[j].0@ != key);
    }
}

/// A copy of a column selector.
fn copy_selector(selector: &ColumnSelector) -> (copy: ColumnSelector)
    ensures
        copy == *selector,
{
    match selector {
        ColumnSelector::Index(i) => ColumnSelector::Index(*i),
        ColumnSelector::Header(h) => ColumnSelector::Header(h.clone()),
    }
}

fn copy_expressions(expressions: &Vec<Expression>) -> (copies: Vec<Expression>)
    ensures
        same_expressions(expressions@, copies@),
    decreases expressions@,
{
    let mut copies: Vec<Expression> = Vec::new();
    let mut i: usize = 0;
    while i < expressions.len()
        invariant
            i <= expressions@.len(),
            copies@.len() == i,
            forall|k: int| 0 <= k < i ==> same_expression(expressions@[k], #[trigger] copies@[k]),
        decreases expressions@.len() - i,
    {
        proof {
            assert(decreases_to!(expressions@ => expressions@[i as int]));
        }
        copies.push(copy_expression(&expressions[i]));
        i += 1;
    }
    copies
}

/// A copy of an expression.
fn copy_expression(expression: &Expression) -> (copy: Expression)
    ensures
        same_expression(*expression, copy),
    decreases expression,
{
    match expression {
        Expression::Literal(text) => Expression::Literal(text.clone()),
        Expression::Unary { operator, operand } => Expression::Unary {
            operator: *operator,
            operand: Box::new(copy_expression(operand)),
        },
        Expression::Arithmetic { left, operator, right } => Expression::Arithmetic {
            left: Box::new(copy_expression(left)),
            operator: *operator,
            right: Box::new(copy_expression(right)),
        },
        Expression::Variable(name) => Expression::Variable(name.clone()),
        Expression::Call { name, arguments } => Expression::Call {
            name: name.clone(),
            arguments: copy_expressions(arguments),
        },
        Expression::StandardCall { namespace, name, arguments } => Expression::StandardCall {
            namespace: *namespace,
            name: name.clone(),
            arguments: copy_expressions(arguments),
        },
        Expression::New { class_name, arguments } => Expression::New {
            class_name: class_name.clone(),
            arguments: copy_expressions(arguments),
        },
        Expression::Field { target, field } => Expression::Field { target: target.clone(), field: field.clone() },
        Expression::MethodCall { target, name, arguments } => Expression::MethodCall {
            target: target.clone(),
            name: name.clone(),
            arguments: copy_expressions(arguments),
        },
    }
}

/// A copy of a condition.
fn copy_condition(condition: &Condition) -> (copy: Condition)
    ensures
        same_condition(*condition, copy),
    decreases condition,
{
    match condition {
        Condition::ColumnExists { selector } => Condition::ColumnExists { selector: copy_selector(selector) },
        Condition::ColumnTitleEquals { selector, expected } => Condition::ColumnTitleEquals {
            selector: copy_selector(selector),
            expected: copy_expression(expected),
        },
        Condition::Compare { left, operator, right } => Condition::Compare {
            left: copy_expression(left),
            operator: *operator,
            right: copy_expression(right),
        },
        Condition::Expression(expression) => Condition::Expression(copy_expression(expression)),
        Condition::Not(inner) => Condition::Not(Box::new(copy_condition(inner))),
        Condition::And(left, right) => Condition::And(
            Box::new(copy_condition(left)),
            Box::new(copy_condition(right)),
        ),
        Condition::Or(left, right) => Condition::Or(
            Box::new(copy_condition(left)),
            Box::new(copy_condition(right)),
        ),
    }
}

/// The first class named `name` up to ASCII case, if there is one.
pub open spec fn class_named(classes: Seq<ClassDefinition>, name: Seq<char>, i: int) -> bool {
    &&& 0 <= i < classes.len()
    &&& eq_ci(classes[i].name@, name)
    &&& forall|k: int| 0 <= k < i ==> !eq_ci(#[trigger] classes[k].name@, name)
}

/// No class is named `name` up to ASCII case.
pub open spec fn no_class_named(classes: Seq<ClassDefinition>, name: Seq<char>) -> bool {
    forall|k: int| 0 <= k < classes.len() ==> !eq_ci(#[trigger] classes[k].name@, name)
}

/// The first function named `name` up to ASCII case, if there is one.
pub open spec fn function_named(functions: Seq<FunctionDefinition>, name: Seq<char>, i: int) -> bool {
    &&& 0 <= i < functions.len()
    &&& eq_ci(functions[i].name@, name)
    &&& forall|k: int| 0 <= k < i ==> !eq_ci(#[trigger] functions[k].name@, name)
}

/// Position of the class named `name` (up to ASCII case).
fn class_index(program: &Program, name: &str) -> (found: Option<usize>)
    ensures
        match found {
            Some(i) => class_named(program.classes@, name@, i as int),
            None => no_class_named(program.classes@, name@),
        },
{
    let mut i: usize = 0;
    while i < program.classes.len()
        invariant
            i <= program.classes@.len(),
            forall|k: int| 0 <= k < i ==> !eq_ci(#[trigger] program.classes@[k].name@, name@),
        decreases program.classes@.len() - i,
    {
        if names_match(program.classes[i].name.as_str(), name) {
            return Some(i);
        }
        i += 1;
    }
    None
}

fn class_by_name(program: &Program, name: &str) -> (result: Result<usize, ExecutionError>)
    ensures
        match result {
            Ok(i) => class_named(program.classes@, name@, i as int),
            Err(error) => no_class_named(program.classes@, name@) && (error matches ExecutionError::UnknownClass(
                n,
            ) && n@ == name@),
        },
{
    match class_index(program, name) {
        Some(i) => Ok(i),
        None => Err(ExecutionError::UnknownClass(name.to_owned())),
    }
}

/// The class at `child` names as its parent the class at `parent`.
pub open spec fn parent_link(classes: Seq<ClassDefinition>, child: usize, parent: usize) -> bool {
    classes[child as int].parent matches Some(name) && class_named(classes, name@, parent as int)
}

/// The class defines no method named `name` (up to ASCII case).
pub open spec fn lacks_method(class: ClassDefinition, name: Seq<char>) -> bool {
    forall|i: int| 0 <= i < class.methods@.len() ==> !eq_ci(#[trigger] class.methods@[i].name@, name)
}

/// `lineage` lists the class named `name` and its ancestors, oldest first: it ends with
/// that class, starts with a class without parent, and each class's parent is the class
/// before it.
pub open spec fn is_lineage(classes: Seq<ClassDefinition>, name: Seq<char>, lineage: Seq<usize>) -> bool {
    &&& lineage.len() > 0
    &&& class_named(classes, name, lineage.last() as int)
    &&& classes[lineage[0] as int].parent is None
    &&& forall|k: int|
        0 <= k < lineage.len() - 1 ==> parent_link(classes, lineage[k + 1], #[trigger] lineage[k])
}

/// The class and its ancestors, oldest first; refused when a parent is unknown or the
/// chain loops.
fn class_lineage(program: &Program, class_name: &str) -> (result: Result<Vec<usize>, ExecutionError>)
    ensures
        result matches Ok(lineage) ==> forall|k: int|
            0 <= k < lineage@.len() ==> #[trigger] lineage@[k] < program.classes@.len(),
        result matches Ok(lineage) ==> is_lineage(program.classes@, class_name@, lineage@),
        no_class_named(program.classes@, class_name@) ==> (result matches Err(ExecutionError::UnknownClass(n))
            && n@ == class_name@),
{
    let mut lineage: Vec<usize> = Vec::new();
    let mut seen: Vec<String> = Vec::new();
    let mut current = class_by_name(program, class_name)?;
    let count = program.classes.len();
    let mut steps: usize = 0;
    while steps <= count
        invariant
            current < program.classes@.len(),
            count == program.classes@.len(),
            forall|k: int| 0 <= k < lineage@.len() ==> #[trigger] lineage@[k] < program.classes@.len(),
            !no_class_named(program.classes@, class_name@),
            lineage@.len() == 0 ==> class_named(program.classes@, class_name@, current as int),
            lineage@.len() > 0 ==> class_named(program.classes@, class_name@, lineage@[0] as int),
            lineage@.len() > 0 ==> parent_link(program.classes@, lineage@.last(), current),
            forall|k: int|
                0 <= k < lineage@.len() - 1 ==> parent_link(program.classes@, lineage@[k], #[trigger] lineage@[k + 1]),
        decreases count + 1 - steps,
    {
        let class = &program.classes[current];
        let key = normalize_identifier(class.name.as_str());
        let mut j: usize = 0;
        while j < seen.len()
            invariant
                current < program.classes@.len(),
                !no_class_named(program.classes@, class_name@),
                lineage@.len() == 0 ==> class_named(program.classes@, class_name@, current as int),
                lineage@.len() > 0 ==> class_named(program.classes@, class_name@, lineage@[0] as int),
                lineage@.len() > 0 ==> parent_link(program.classes@, lineage@.last(), current),
                forall|k: int|
                    0 <= k < lineage@.len() - 1 ==> parent_link(program.classes@, lineage@[k], #[trigger] lineage@[k + 1]),
                forall|k: int| 0 <= k < lineage@.len() ==> #[trigger] lineage@[k] < program.classes@.len(),
            decreases seen@.len() - j,
        {
            if names_match(seen[j].as_str(), key.as_str()) {
                return Err(ExecutionError::InheritanceCycle(class.name.clone()));
            }
            j += 1;
        }
        seen.push(key);
        let ghost old_lineage = lineage@;
        lineage.push(current);
        proof {
            assert(lineage@.drop_last() == old_lineage);
            assert forall|k: int|
                0 <= k < lineage@.len() - 1 implies parent_link(program.classes@, lineage@[k], #[trigger] lineage@[k + 1]) by {
                assert(lineage@[k] == old_lineage[k]);
                if k + 1 < old_lineage.len() {
                    assert(lineage@[k + 1] == old_lineage[k + 1]);
                }
            }
        }
        match &class.parent {
            None => {
                let mut ordered: Vec<usize> = Vec::new();
                let mut k = lineage.len();
                while k > 0
                    invariant
                        k <= lineage@.len(),
                        ordered@.len() == lineage@.len() - k,
                        forall|m: int| 0 <= m < lineage@.len() ==> #[trigger] lineage@[m] < program.classes@.len(),
                        forall|m: int| 0 <= m < ordered@.len() ==> #[trigger] ordered@[m] == lineage@[lineage@.len() - 1 - m],
                    decreases k,
                {
                    k -= 1;
                    ordered.push(lineage[k]);
                }
                proof {
                    let n = lineage@.len() as int;
                    assert(ordered@.last() == lineage@[0]);
                    assert(ordered@[0] == lineage@[n - 1]);
                    assert forall|m: int| 0 <= m < ordered@.len() - 1 implies parent_link(program.classes@, ordered@[m + 1], #[trigger] ordered@[m]) by {
                        assert(ordered@[m] == lineage@[n - 1 - m]);
                        assert(ordered@[m + 1] == lineage@[n - 1 - (m + 1)]);
                        let j = n - 2 - m;
                        assert(lineage@[j + 1] == lineage@[n - 1 - m]);
                    }
                }
                return Ok(ordered);
            },
            Some(parent) => {
                match class_index(program, parent.as_str()) {
                    Some(p) => {
                        current = p;
                    },
                    None => {
                        return Err(
                            ExecutionError::UnknownParentClass {
                                class_name: class.name.clone(),
                                parent: parent.clone(),
                            },
                        );
                    },
                }
            },
        }
        if steps == count {
            return Err(ExecutionError::InheritanceCycle(program.classes[current].name.clone()));
        }
        steps += 1;
    }
    Err(ExecutionError::InheritanceCycle(program.classes[current].name.clone()))
}

/// The nearest class in the lineage of `class_name` (itself first) that defines
/// `method_name`: the class's position and the method's position in it.
fn find_method_in_hierarchy(program: &Program, class_name: &str, method_name: &str) -> (result: Result<
    Option<(usize, usize)>,
    ExecutionError,
>)
    ensures
        result matches Ok(Some((c, m))) ==> c < program.classes@.len() && m
            < program.classes@[c as int].methods@.len(),
        result matches Ok(found) ==> exists|lineage: Seq<usize>|
            #[trigger] is_lineage(program.classes@, class_name@, lineage) && (forall|j: int|
                0 <= j < lineage.len() ==> lineage[j] < program.classes@.len()) && match found {
                Some((c, m)) => exists|k: int|
                    0 <= k < lineage.len() && lineage[k] == c && function_named(
                        program.classes@[c as int].methods@,
                        method_name@,
                        m as int,
                    ) && forall|j: int|
                        k < j < lineage.len() ==> lacks_method(program.classes@[#[trigger] lineage[j] as int], method_name@),
                None => forall|j: int|
                    0 <= j < lineage.len() ==> lacks_method(program.classes@[#[trigger] lineage[j] as int], method_name@),
            },
        no_class_named(program.classes@, class_name@) ==> (result matches Err(ExecutionError::UnknownClass(n))
            && n@ == class_name@),
{
    let lineage = class_lineage(program, class_name)?;
    let mut k = lineage.len();
    while k > 0
        invariant
            k <= lineage@.len(),
            forall|j: int| 0 <= j < lineage@.len() ==> #[trigger] lineage@[j] < program.classes@.len(),
            forall|j: int|
                k <= j < lineage@.len() ==> lacks_method(program.classes@[#[trigger] lineage@[j] as int], method_name@),
            is_lineage(program.classes@, class_name@, lineage@),
        decreases k,
    {
        k -= 1;
        let c = lineage[k];
        let methods = &program.classes[c].methods;
        let mut m: usize = 0;
        while m < methods.len()
            invariant
                c < program.classes@.len(),
                methods == program.classes@[c as int].methods,
                m <= methods@.len(),
                forall|i: int| 0 <= i < m ==> !eq_ci(#[trigger] methods@[i].name@, method_name@),
                k < lineage@.len(),
                c == lineage@[k as int],
                forall|j: int| 0 <= j < lineage@.len() ==> #[trigger] lineage@[j] < program.classes@.len(),
                forall|j: int|
                    k < j < lineage@.len() ==> lacks_method(program.classes@[#[trigger] lineage@[j] as int], method_name@),
                is_lineage(program.classes@, class_name@, lineage@),
            decreases methods@.len() - m,
        {
            if names_match(methods[m].name.as_str(), method_name) {
                assert(lineage@[k as int] == c);
                return Ok(Some((c, m)));
            }
            m += 1;
        }
        assert(lacks_method(program.classes@[c as int], method_name@));
    }
    Ok(None)
}

/// Position of the function named `name` (up to ASCII case).
fn function_index(program: &Program, name: &str) -> (found: Option<usize>)
    ensures
        match found {
            Some(i) => function_named(program.functions@, name@, i as int),
            None => forall|k: int|
                0 <= k < program.functions@.len() ==> !eq_ci(#[trigger] program.functions@[k].name@, name@),
        },
{
    let mut i: usize = 0;
    while i < program.functions.len()
        invariant
            i <= program.functions@.len(),
            forall|k: int| 0 <= k < i ==> !eq_ci(#[trigger] program.functions@[k].name@, name@),
        decreases program.functions@.len() - i,
    {
        if names_match(program.functions[i].name.as_str(), name) {
            return Some(i);
        }
        i += 1;
    }
    None
}

/// The column a selector picks: in range for an index, the one matching column for a header.
fn resolve_column(selector: &ColumnSelector, document: &CsvDocument) -> (result: Result<usize, ColumnError>)
    ensures
        match *selector {
            ColumnSelector::Index(column) => if column < max_width(document@) {
                result == Ok::<usize, ColumnError>(column)
            } else {
                result == Err::<usize, ColumnError>(
                    ColumnError::ColumnOutOfBounds { column, column_count: max_width(document@) as usize },
                )
            },
            ColumnSelector::Header(header) => {
                let found = header_columns(document@, header@, max_width(document@) as int);
                match result {
                    Ok(column) => found.len() == 1 && found[0] == column,
                    Err(ColumnError::HeaderNotFound(name)) => found.len() == 0 && name@ == header@,
                    Err(ColumnError::AmbiguousHeader { header: name, columns }) => found.len() > 1 && name@
                        == header@ && columns@ == found,
                    Err(ColumnError::ColumnOutOfBounds { .. }) => false,
                }
            },
        },
{
    match selector {
        ColumnSelector::Index(column) => {
            let column_count = document.column_count();
            if *column >= column_count {
                return Err(ColumnError::ColumnOutOfBounds { column: *column, column_count });
            }
            Ok(*column)
        },
        ColumnSelector::Header(header) => document.column_index_by_header(header.as_str()),
    }
}

/// The value as an Integer, or `ExpectedInteger` for `context`.
fn expect_integer(value: &Value, context: &str) -> (result: Result<i64, ExecutionError>)
    ensures
        match *value {
            Value::Integer(n) => result == Ok::<i64, ExecutionError>(n),
            _ => result matches Err(ExecutionError::ExpectedInteger { context: c }) && c@ == context@,
        },
{
    match value {
        Value::Integer(n) => Ok(*n),
        _ => Err(ExecutionError::ExpectedInteger { context: execution_text(context) }),
    }
}

/// The value as a position counted from one.
fn expect_one_based_index(value: &Value, context: &str) -> (result: Result<usize, ExecutionError>)
    ensures
        match *value {
            Value::Integer(n) => if 1 <= n <= usize::MAX {
                result == Ok::<usize, ExecutionError>(n as usize)
            } else {
                result matches Err(ExecutionError::InvalidOneBasedIndex { context: c }) && c@ == context@
            },
            _ => result matches Err(ExecutionError::ExpectedInteger { context: c }) && c@ == context@,
        },
{
    let n = expect_integer(value, context)?;
    if n < 1 {
        return Err(ExecutionError::InvalidOneBasedIndex { context: execution_text(context) });
    }
    if n as u64 > usize::MAX as u64 {
        return Err(ExecutionError::InvalidOneBasedIndex { context: execution_text(context) });
    }
    Ok(n as usize)
}

/// The value as text, or `ExpectedText` for `context`.
fn expect_text(value: Value, context: &str) -> (result: Result<String, ExecutionError>)
    ensures
        match value {
            Value::Text(t) => result matches Ok(s) && s@ == t@,
            _ => result matches Err(ExecutionError::ExpectedText { context: c }) && c@ == context@,
        },
{
    match value {
        Value::Text(t) => Ok(t),
        _ => Err(ExecutionError::ExpectedText { context: execution_text(context) }),
    }
}

/// The value as a Boolean, or `ExpectedBoolean` for `context`.
fn expect_boolean(value: &Value, context: &str) -> (result: Result<bool, ExecutionError>)
    ensures
        match *value {
            Value::Boolean(b) => result == Ok::<bool, ExecutionError>(b),
            _ => result matches Err(ExecutionError::ExpectedBoolean { context: c }) && c@ == context@,
        },
{
    match value {
        Value::Boolean(b) => Ok(*b),
        _ => Err(ExecutionError::ExpectedBoolean { context: execution_text(context) }),
    }
}

/// The text written into a cell: a scalar's text; objects are refused.
fn cell_text(value: &Value) -> (result: Result<String, ExecutionError>)
    ensures
        scalar_text_spec(*value) matches Some(t) ==> result matches Ok(text) && text@ == t,
        result matches Ok(text) ==> scalar_text_spec(*value) == Some(text@),
{
    match scalar_text(value) {
        Some(text) => Ok(text),
        None => Err(ExecutionError::ExpectedText { context: execution_text("cell assignment") }),
    }
}

fn conversion_error(value_type_name: String, value: String, target: &str) -> (error: ExecutionError)
    ensures
        error matches ExecutionError::Conversion { value_type: t, value: v, target: g } && t == value_type_name
            && v == value && g@ == target@,
{
    ExecutionError::Conversion { value_type: value_type_name, value, target: execution_text(target) }
}

/// A missing-cell error naming `row N, <kind> <what>`.
fn missing_cell(row: usize, kind: &str, what: String) -> (error: ExecutionError)
    ensures
        error matches ExecutionError::MissingCell(text) && text@ == "row "@ + decimal_digits(row as nat) + ", "@
            + kind@ + " "@ + what@,
{
    let mut text = String::from_str("row ");
    let digits = count_to_string(row);
    text.append(digits.as_str());
    text.append(", ");
    text.append(kind);
    text.append(" ");
    text.append(what.as_str());
    ExecutionError::MissingCell(text)
}

/// Which transaction statement `name` calls (any ASCII case): `1` begin, `2` commit,
/// `3` roll back, `0` none.
pub open spec fn transaction_builtin(name: Seq<char>) -> int {
    if eq_ci(name, "begintransaction"@) {
        1
    } else if eq_ci(name, "committransaction"@) {
        2
    } else if eq_ci(name, "rollbacktransaction"@) {
        3
    } else {
        0
    }
}

/// The name a transaction statement is reported under.
pub open spec fn transaction_builtin_name(which: int) -> Seq<char> {
    if which == 1 {
        "BeginTransaction"@
    } else if which == 2 {
        "CommitTransaction"@
    } else {
        "RollbackTransaction"@
    }
}

impl Runtime {
    pub open spec fn wf(&self) -> bool {
        self.scopes@.len() >= 1
    }

    /// Text that shows a value in events and messages.
    fn describe_value(&self, value: &Value) -> (text: String)
        ensures
            scalar_text_spec(*value) matches Some(t) ==> text@ == t,
    {
        match value {
            Value::Object(id) => {
                if *id < self.objects.len() {
                    let mut text = String::from_str("<");
                    text.append(self.objects[*id].class_name.as_str());
                    text.append(" object>");
                    text
                } else {
                    String::from_str("<object>")
                }
            },
            _ => match scalar_text(value) {
                Some(text) => text,
                None => String::from_str("<object>"),
            },
        }
    }

    fn describe_values(&self, values: &Vec<Value>) -> (texts: Vec<String>)
        ensures
            texts@.len() == values@.len(),
            forall|k: int|
                0 <= k < values@.len() ==> (scalar_text_spec(#[trigger] values@[k]) matches Some(t) ==> texts@[k]@
                    == t),
    {
        let mut texts: Vec<String> = Vec::new();
        let mut i: usize = 0;
        while i < values.len()
            invariant
                i <= values@.len(),
                texts@.len() == i,
                forall|k: int|
                    0 <= k < i ==> (scalar_text_spec(#[trigger] values@[k]) matches Some(t) ==> texts@[k]@ == t),
            decreases values@.len() - i,
        {
            texts.push(self.describe_value(&values[i]));
            i += 1;
        }
        texts
    }

    /// The innermost binding of `name` (up to ASCII case): its scope and its position.
    fn find_binding(&self, name: &str) -> (found: Option<(usize, usize)>)
        ensures
            match found {
                Some((s, j)) => {
                    &&& innermost_scope(self.scopes@, lower_seq(name@), s as int)
                    &&& first_in_scope(self.scopes@[s as int]@, lower_seq(name@), j as int)
                },
                None => forall|s: int|
                    0 <= s < self.scopes@.len() ==> !scope_binds(
                        #[trigger] self.scopes@[s]@,
                        lower_seq(name@),
                    ),
            },
    {
        let key = normalize_identifier(name);
        let mut s = self.scopes.len();
        while s > 0
            invariant
                s <= self.scopes@.len(),
                key@ == lower_seq(name@),
                forall|t: int| s <= t < self.scopes@.len() ==> !scope_binds(#[trigger] self.scopes@[t]@, key@),
            decreases s,
        {
            s -= 1;
            let scope = &self.scopes[s];
            let mut j: usize = 0;
            while j < scope.len()
                invariant
                    s < self.scopes@.len(),
                    scope == self.scopes@[s as int],
                    key@ == lower_seq(name@),
                    j <= scope@.len(),
                    forall|k: int| 0 <= k < j ==> (#[trigger] scope@[k]).0@ != key@,
                    forall|t: int| s < t < self.scopes@.len() ==> !scope_binds(#[trigger] self.scopes@[t]@, key@),
                decreases scope@.len() - j,
            {
                if scope[j].0 == key {
                    assert(scope_binds(scope@, key@));
                    return Some((s, j));
                }
                j += 1;
            }
            assert(!scope_binds(scope@, key@));
        }
        None
    }

    /// Whether the innermost scope already binds `key`.
    fn current_scope_has(&self, key: &String) -> (found: bool)
        requires
            self.wf(),
        ensures
            found == scope_binds(self.scopes@.last()@, key@),
    {
        let scope = &self.scopes[self.scopes.len() - 1];
        let mut j: usize = 0;
        while j < scope.len()
            invariant
                scope == self.scopes@.last(),
                j <= scope@.len(),
                forall|k: int| 0 <= k < j ==> (#[trigger] scope@[k]).0@ != key@,
            decreases scope@.len() - j,
        {
            if scope[j].0 == *key {
                assert(scope_binds(scope@, key@));
                return true;
            }
            j += 1;
        }
        false
    }

    fn lookup_variable(&self, name: &str) -> (value: Option<Value>)
        ensures
            value == visible_value(*self, lower_seq(name@)),
    {
        match self.find_binding(name) {
            Some((s, j)) => {
                proof {
                    lemma_visible_kind(*self, lower_seq(name@), s as int, j as int);
                }
                Some(copy_value(&self.scopes[s][j].1.value))
            },
            None => {
                proof {
                    lemma_visible_none(*self, lower_seq(name@));
                }
                None
            },
        }
    }

    /// Replaces the value of the binding at scope `s`, position `j`.
    fn set_binding(&mut self, s: usize, j: usize, value: Value)
        requires
            s < old(self).scopes@.len(),
            j < old(self).scopes@[s as int]@.len(),
        ensures
            same_names(old(self).scopes@, final(self).scopes@),
            final(self).scopes@.len() == old(self).scopes@.len(),
            forall|t: int|
                0 <= t < old(self).scopes@.len() && t != s ==> #[trigger] final(self).scopes@[t] == old(
                    self,
                ).scopes@[t],
            final(self).scopes@[s as int]@ == old(self).scopes@[s as int]@.update(
                j as int,
                (
                    old(self).scopes@[s as int]@[j as int].0,
                    Binding { value, kind: old(self).scopes@[s as int]@[j as int].1.kind },
                ),
            ),
            final(self).objects == old(self).objects,
            final(self).events == old(self).events,
            final(self).method_context == old(self).method_context,
    {
        let ghost before = self.scopes@;
        let mut scope = self.scopes.remove(s);
        let (key, binding) = scope.remove(j);
        scope.insert(j, (key, Binding { value, kind: binding.kind }));
        proof {
            assert(scope_names(scope) =~= scope_names(before[s as int]));
            assert(scope@ =~= before[s as int]@.update(
                j as int,
                (before[s as int]@[j as int].0, Binding { value, kind: before[s as int]@[j as int].1.kind }),
            ));
        }
        self.scopes.insert(s, scope);
        proof {
            assert forall|t: int| 0 <= t < before.len() implies scope_names(#[trigger] self.scopes@[t])
                == scope_names(before[t]) by {
                if t != s {
                    assert(self.scopes@[t] == before[t]);
                }
            }
        }
    }

    /// Adds a binding to the innermost scope.
    fn declare(&mut self, key: String, binding: Binding)
        requires
            old(self).wf(),
        ensures
            names_kept(old(self).scopes@, final(self).scopes@),
            scope_names(final(self).scopes@.last()) == scope_names(old(self).scopes@.last()).push(key@),
            binding_declared(old(self).scopes@, final(self).scopes@, key@, binding),
            final(self).objects == old(self).objects,
            final(self).events == old(self).events,
            final(self).method_context == old(self).method_context,
    {
        let ghost before = self.scopes@;
        let last = self.scopes.len() - 1;
        let mut scope = self.scopes.remove(last);
        let ghost previous = scope;
        scope.push((key, binding));
        proof {
            assert(scope_names(scope) =~= scope_names(previous).push(key@));
        }
        self.scopes.insert(last, scope);
        proof {
            assert forall|t: int| 0 <= t < before.len() - 1 implies scope_names(#[trigger] self.scopes@[t])
                == scope_names(before[t]) by {
                assert(self.scopes@[t] == before[t]);
            }
        }
    }

    fn resolve_object(&self, variable: &str) -> (result: Result<usize, ExecutionError>)
        ensures
            match visible_value(*self, lower_seq(variable@)) {
                Some(Value::Object(id)) => result == Ok::<usize, ExecutionError>(id),
                Some(_) => result matches Err(ExecutionError::ExpectedObject(n)) && n@ == variable@,
                None => result matches Err(ExecutionError::UnknownVariable(n)) && n@ == variable@,
            },
    {
        match self.lookup_variable(variable) {
            Some(Value::Object(id)) => Ok(id),
            Some(_) => Err(ExecutionError::ExpectedObject(variable.to_owned())),
            None => Err(ExecutionError::UnknownVariable(variable.to_owned())),
        }
    }

    fn object_missing(object_id: usize) -> (error: ExecutionError)
        ensures
            error matches ExecutionError::ExpectedObject(text) && text@ == "object#"@ + decimal_digits(
                object_id as nat,
            ),
    {
        let mut text = String::from_str("object#");
        let digits = count_to_string(object_id);
        text.append(digits.as_str());
        ExecutionError::ExpectedObject(text)
    }

    /// Position of a field (by lower-cased name) of object `object_id`.
    fn field_position(&self, object_id: usize, key: &String) -> (found: Option<usize>)
        requires
            object_id < self.objects@.len(),
        ensures
            match found {
                Some(j) => field_at(self.objects@[object_id as int].fields@, key@, j as int),
                None => forall|k: int|
                    0 <= k < self.objects@[object_id as int].fields@.len() ==> (
                    #[trigger] self.objects@[object_id as int].fields@[k]).0@ != key@,
            },
    {
        let fields = &self.objects[object_id].fields;
        let mut j: usize = 0;
        while j < fields.len()
            invariant
                object_id < self.objects@.len(),
                fields == self.objects@[object_id as int].fields,
                j <= fields@.len(),
                forall|k: int| 0 <= k < j ==> (#[trigger] fields@[k]).0@ != key@,
            decreases fields@.len() - j,
        {
            if fields[j].0 == *key {
                return Some(j);
            }
            j += 1;
        }
        None
    }

    fn get_field(&self, object_id: usize, field: &str) -> (result: Result<Value, ExecutionError>)
        ensures
            object_id >= self.objects@.len() ==> (result matches Err(ExecutionError::ExpectedObject(text))
                && text@ == "object#"@ + decimal_digits(object_id as nat)),
            object_id < self.objects@.len() ==> match field_value(
                self.objects@[object_id as int].fields@,
                lower_seq(field@),
            ) {
                Some(value) => result == Ok::<Value, ExecutionError>(value),
                None => result matches Err(ExecutionError::UnknownField { class_name: c, field: f }) && c
                    == self.objects@[object_id as int].class_name && f@ == field@,
            },
    {
        if object_id >= self.objects.len() {
            return Err(Self::object_missing(object_id));
        }
        let key = normalize_identifier(field);
        match self.field_position(object_id, &key) {
            Some(j) => {
                proof {
                    lemma_field_value(self.objects@[object_id as int].fields@, key@, j as int);
                }
                Ok(copy_value(&self.objects[object_id].fields[j].1))
            },
            None => {
                proof {
                    lemma_no_field_value(self.objects@[object_id as int].fields@, key@);
                }
                Err(
                ExecutionError::UnknownField {
                    class_name: self.objects[object_id].class_name.clone(),
                    field: field.to_owned(),
                },
            )
            },
        }
    }

    fn set_field(&mut self, object_id: usize, field: &str, value: Value) -> (result: Result<(), ExecutionError>)
        ensures
            final(self).scopes == old(self).scopes,
            final(self).objects@.len() == old(self).objects@.len(),
            final(self).events == old(self).events,
            final(self).method_context == old(self).method_context,
            object_id >= old(self).objects@.len() ==> (result matches Err(ExecutionError::ExpectedObject(text))
                && text@ == "object#"@ + decimal_digits(object_id as nat) && final(self).objects == old(
                self,
            ).objects),
            object_id < old(self).objects@.len() ==> match field_value(
                old(self).objects@[object_id as int].fields@,
                lower_seq(field@),
            ) {
                Some(_) => {
                    &&& result is Ok
                    &&& forall|o: int|
                        0 <= o < old(self).objects@.len() && o != object_id ==> #[trigger] final(self).objects@[o]
                            == old(self).objects@[o]
                    &&& final(self).objects@[object_id as int].class_name == old(
                        self,
                    ).objects@[object_id as int].class_name
                    &&& field_value(final(self).objects@[object_id as int].fields@, lower_seq(field@)) == Some(
                        value,
                    )
                },
                None => {
                    &&& result matches Err(ExecutionError::UnknownField { class_name: c, field: f })
                    &&& c == old(self).objects@[object_id as int].class_name
                    &&& f@ == field@
                    &&& final(self).objects == old(self).objects
                },
            },
    {
        if object_id >= self.objects.len() {
            return Err(Self::object_missing(object_id));
        }
        let key = normalize_identifier(field);
        match self.field_position(object_id, &key) {
            Some(j) => {
                let ghost before = self.objects@;
                let mut object = self.objects.remove(object_id);
                let (name, _) = object.fields.remove(j);
                let ghost fields_before = before[object_id as int].fields@;
                object.fields.insert(j, (name, value));
                proof {
                    assert(object.fields@ =~= fields_before.update(j as int, (fields_before[j as int].0, value)));
                    assert forall|k: int| 0 <= k < j implies (#[trigger] object.fields@[k]).0@ != key@ by {
                        assert(object.fields@[k] == fields_before[k]);
                    }
                    lemma_field_value(object.fields@, key@, j as int);
                }
                self.objects.insert(object_id, object);
                proof {
                    assert forall|o: int| 0 <= o < before.len() && o != object_id implies #[trigger] self.objects@[o]
                        == before[o] by {}
                }
                Ok(())
            },
            None => {
                proof {
                    lemma_no_field_value(self.objects@[object_id as int].fields@, key@);
                }
                Err(
                ExecutionError::UnknownField {
                    class_name: self.objects[object_id].class_name.clone(),
                    field: field.to_owned(),
                },
            )
            },
        }
    }

    fn convert_integer(&self, value: &Value) -> (result: Result<Value, ExecutionError>)
        ensures
            integer_conversion(*value) matches Some(converted) ==> result == Ok::<Value, ExecutionError>(
                Value::Integer(converted),
            ),
    {
        match convert_to_integer(value) {
            Some(n) => Ok(Value::Integer(n)),
            None => match value {
                Value::Text(text) => Err(conversion_error(String::from_str("String"), text.clone(), "Integer")),
                _ => Err(conversion_error(value_type(value), self.describe_value(value), "Integer")),
            },
        }
    }

    fn convert_decimal(&self, value: &Value) -> (result: Result<Value, ExecutionError>)
        ensures
            decimal_conversion(*value) matches Some(converted) ==> result == Ok::<Value, ExecutionError>(
                Value::Decimal(converted),
            ),
    {
        match convert_to_decimal(value) {
            Some(d) => Ok(Value::Decimal(d)),
            None => match value {
                Value::Text(text) => Err(conversion_error(String::from_str("String"), text.clone(), "Decimal")),
                _ => Err(conversion_error(value_type(value), self.describe_value(value), "Decimal")),
            },
        }
    }

    fn convert_boolean(&self, value: &Value) -> (result: Result<Value, ExecutionError>)
        ensures
            boolean_conversion(*value) matches Some(converted) ==> result == Ok::<Value, ExecutionError>(
                Value::Boolean(converted),
            ),
    {
        match convert_to_boolean(value) {
            Some(b) => Ok(Value::Boolean(b)),
            None => match value {
                Value::Text(text) => Err(conversion_error(String::from_str("String"), text.clone(), "Boolean")),
                _ => Err(conversion_error(value_type(value), self.describe_value(value), "Boolean")),
            },
        }
    }

    fn convert_string(&self, value: &Value) -> (result: Result<Value, ExecutionError>)
        ensures
            match scalar_text_spec(*value) {
                Some(t) => result matches Ok(Value::Text(s)) && s@ == t,
                None => result matches Err(ExecutionError::ExpectedText { context: c }) && c@
                    == "String conversion"@,
            },
    {
        match value {
            Value::Object(_) => Err(ExecutionError::ExpectedText { context: execution_text("String conversion") }),
            _ => Ok(Value::Text(self.describe_value(value))),
        }
    }

    fn evaluate_arguments(&mut self, program: &Program, document: &mut CsvDocument, arguments: &Vec<Expression>, depth: usize) -> (result: Result<
        Vec<Value>,
        ExecutionError,
    >)
        requires
            old(self).wf(),
            old(document).wf(),
            depth <= MAX_CALL_DEPTH,
        ensures
            final(self).wf(),
            final(document).wf(),
            keeps_scopes(*old(self), *final(self)),
            result matches Ok(values) ==> values@.len() == arguments@.len(),
            result matches Ok(values) ==> exists|trace: Seq<(Runtime, CsvDocument)>|
                #[trigger] arguments_evaluated(arguments@, trace, values@) && trace[0] == (*old(self), *old(document))
                    && trace.last() == (*final(self), *final(document)),
            (forall|i: int|
                0 <= i < arguments@.len() ==> (#[trigger] plain_value(*old(self), old(document)@, arguments@[i])) is Some)
                ==> {
                &&& result matches Ok(values)
                &&& forall|i: int|
                    0 <= i < arguments@.len() ==> Some(values@[i]) == #[trigger] plain_value(
                        *old(self),
                        old(document)@,
                        arguments@[i],
                    )
                &&& *final(self) == *old(self)
                &&& *final(document) == *old(document)
            },
        decreases fuel(depth), exprs_size(arguments@), 0int,
    {
        let mut values: Vec<Value> = Vec::new();
        let mut i: usize = 0;
        let ghost start = *self;
        let ghost mut trace: Seq<(Runtime, CsvDocument)> = seq![(*self, *document)];
        while i < arguments.len()
            invariant
                self.wf(),
                document.wf(),
                trace.len() == i + 1,
                trace[0] == (*old(self), *old(document)),
                trace.last() == (*self, *document),
                forall|k: int|
                    0 <= k < i ==> expression_evaluated(
                        #[trigger] trace[k].0,
                        trace[k].1,
                        arguments@[k],
                        trace[k + 1].0,
                        trace[k + 1].1,
                        Ok(values@[k]),
                    ),
                depth <= MAX_CALL_DEPTH,
                keeps_scopes(start, *self),
                start == *old(self),
                i <= arguments@.len(),
                values@.len() == i,
                (forall|k: int|
                    0 <= k < arguments@.len() ==> (#[trigger] plain_value(start, old(document)@, arguments@[k])) is Some)
                    ==> {
                    &&& *self == start
                    &&& *document == *old(document)
                    &&& forall|k: int| 0 <= k < i ==> Some(values@[k]) == #[trigger] plain_value(start, old(document)@, arguments@[k])
                },
            decreases arguments@.len() - i,
        {
            proof {
                lemma_exprs_size_element(arguments@, i as int);
            }
            let ghost previous = trace;
            let value = self.evaluate_expression(program, document, &arguments[i], depth)?;
            proof {
                trace = previous.push((*self, *document));
                assert forall|k: int| 0 <= k <= i implies #[trigger] trace[k] == previous[k] by {}
            }
            values.push(value);
            i += 1;
        }
        assert(arguments_evaluated(arguments@, trace, values@));
        let ghost evaluated_values = values@;
        let evaluated: Result<Vec<Value>, ExecutionError> = Ok(values);
        assert(evaluated->Ok_0@ == evaluated_values);
        evaluated
    }

    fn evaluate_condition(&mut self, program: &Program, document: &mut CsvDocument, condition: &Condition, depth: usize) -> (result:
        Result<bool, ExecutionError>)
        requires
            old(self).wf(),
            old(document).wf(),
            depth <= MAX_CALL_DEPTH,
        ensures
            final(self).wf(),
            final(document).wf(),
            keeps_scopes(*old(self), *final(self)),
            plain_condition(*old(self), old(document)@, *condition) matches Some(b) ==> {
                &&& result == Ok::<bool, ExecutionError>(b)
                &&& *final(self) == *old(self)
                &&& *final(document) == *old(document)
            },
        decreases fuel(depth), cond_size(*condition), 0int,
    {
        match condition {
            Condition::ColumnExists { selector } => Ok(
                match selector {
                    ColumnSelector::Index(column) => *column < document.column_count(),
                    ColumnSelector::Header(header) => document.column_indices_by_header(header.as_str()).len() > 0,
                },
            ),
            Condition::ColumnTitleEquals { selector, expected } => {
                let column = match resolve_column(selector, document) {
                    Ok(column) => column,
                    Err(error) => {
                        return Err(column_error(error));
                    },
                };
                let value = self.evaluate_expression(program, document, expected, depth)?;
                let expected_text = expect_text(value, "column title comparison")?;
                Ok(
                    match document.cell(0, column) {
                        Some(title) => crate::process::document::str_equal(title, expected_text.as_str()),
                        None => false,
                    },
                )
            },
            Condition::Compare { left, operator, right } => {
                let left_value = self.evaluate_expression(program, document, left, depth)?;
                let right_value = self.evaluate_expression(program, document, right, depth)?;
                compare_values(&left_value, *operator, &right_value)
            },
            Condition::Expression(expression) => {
                let value = self.evaluate_expression(program, document, expression, depth)?;
                expect_boolean(&value, "condition")
            },
            Condition::Not(inner) => {
                let result = self.evaluate_condition(program, document, inner, depth)?;
                Ok(!result)
            },
            Condition::And(left, right) => {
                if !self.evaluate_condition(program, document, left, depth)? {
                    return Ok(false);
                }
                self.evaluate_condition(program, document, right, depth)
            },
            Condition::Or(left, right) => {
                if self.evaluate_condition(program, document, left, depth)? {
                    return Ok(true);
                }
                self.evaluate_condition(program, document, right, depth)
            },
        }
    }

    fn evaluate_expression(&mut self, program: &Program, document: &mut CsvDocument, expression: &Expression, depth: usize) -> (result:
        Result<Value, ExecutionError>)
        requires
            old(self).wf(),
            old(document).wf(),
            depth <= MAX_CALL_DEPTH,
        ensures
            final(self).wf(),
            final(document).wf(),
            keeps_scopes(*old(self), *final(self)),
            plain_value(*old(self), old(document)@, *expression) matches Some(value) ==> {
                &&& result == Ok::<Value, ExecutionError>(value)
                &&& *final(self) == *old(self)
                &&& *final(document) == *old(document)
            },
            call_evaluated(*old(self), *old(document), *expression, *final(self), *final(document), result),
            *expression matches Expression::Call { name, arguments } ==> (builtin_number(name@) == 0 ==> (
            result matches Ok(value) ==> function_call_ran(
                program.functions@,
                name@,
                arguments@,
                *old(self),
                *old(document),
                *final(document),
                Ok(Some(value)),
            ))),
            *expression matches Expression::MethodCall { target, name, arguments } ==> (!eq_ci(target@, "super"@)
                ==> (result matches Ok(value) ==> (visible_value(*old(self), lower_seq(target@)) matches Some(
                Value::Object(id),
            ) && id < old(self).objects@.len() && method_call_ran(
                program.classes@,
                old(self).objects@[id as int].class_name@,
                name@,
                id,
                arguments@,
                *old(self),
                *old(document),
                *final(document),
                Ok(Some(value)),
            )))),
        decreases fuel(depth), expr_size(*expression), 0int,
    {
        match expression {
            Expression::Literal(text) => Ok(Value::Text(text.clone())),
            Expression::Unary { operator, operand } => {
                let value = self.evaluate_expression(program, document, operand, depth)?;
                match operator {
                    UnaryOperator::Negate => evaluate_negation(&value),
                }
            },
            Expression::Arithmetic { left, operator, right } => {
                let left_value = self.evaluate_expression(program, document, left, depth)?;
                let right_value = self.evaluate_expression(program, document, right, depth)?;
                evaluate_arithmetic(&left_value, *operator, &right_value)
            },
            Expression::Variable(name) => match self.lookup_variable(name.as_str()) {
                Some(value) => Ok(value),
                None => Err(ExecutionError::UnknownVariable(name.clone())),
            },
            Expression::Call { name, arguments } => {
                match self.call_builtin(program, document, name.as_str(), arguments, depth)? {
                    Some(value) => {
                        return Ok(value);
                    },
                    None => {},
                }
                match self.call_function(program, document, name.as_str(), arguments, depth)? {
                    Some(value) => Ok(value),
                    None => Err(ExecutionError::MissingReturnValue(name.clone())),
                }
            },
            Expression::StandardCall { namespace, name, arguments } => self.call_standard_namespace(
                program,
                document,
                *namespace,
                name.as_str(),
                arguments,
                depth,
            ),
            Expression::New { class_name, arguments } => self.instantiate_class(
                program,
                document,
                class_name.as_str(),
                arguments,
                depth,
            ),
            Expression::Field { target, field } => {
                let object_id = self.resolve_object(target.as_str())?;
                self.get_field(object_id, field.as_str())
            },
            Expression::MethodCall { target, name, arguments } => {
                let returned = if names_match(target.as_str(), "super") {
                    self.call_super_method(program, document, name.as_str(), arguments, depth)?
                } else {
                    let object_id = self.resolve_object(target.as_str())?;
                    self.call_method(program, document, object_id, name.as_str(), arguments, depth)?
                };
                match returned {
                    Some(value) => Ok(value),
                    None => {
                        let mut text = target.clone();
                        text.append(".");
                        text.append(name.as_str());
                        Err(ExecutionError::MissingReturnValue(text))
                    },
                }
            },
        }
    }

    /// `BeginTransaction()`, `CommitTransaction()` and `RollbackTransaction()`; `false` for
    /// any other name.
    fn call_statement_builtin(&mut self, document: &mut CsvDocument, name: &str, arguments: &Vec<Expression>) -> (result:
        Result<bool, ExecutionError>)
        requires
            old(document).wf(),
        ensures
            final(document).wf(),
            *final(self) == *old(self),
            transaction_builtin(name@) == 0 ==> result == Ok::<bool, ExecutionError>(false) && *final(document)
                == *old(document),
            transaction_builtin(name@) != 0 && arguments@.len() != 0 ==> {
                &&& result matches Err(ExecutionError::ArgumentCount { name: n, expected, actual })
                &&& n@ == transaction_builtin_name(transaction_builtin(name@))
                &&& expected == 0
                &&& actual == arguments@.len()
                &&& *final(document) == *old(document)
            },
            transaction_builtin(name@) != 0 && arguments@.len() == 0 ==> {
                &&& result is Ok ==> result == Ok::<bool, ExecutionError>(true)
                &&& result is Err ==> result matches Err(ExecutionError::Document(DocumentError::Transaction(_)))
            },
            transaction_builtin(name@) == 1 && arguments@.len() == 0 ==> {
                &&& result is Ok <==> !old(document).spec_transaction_active()
                &&& final(document)@ == old(document)@
                &&& final(document).spec_transaction_active()
                &&& result is Ok ==> final(document).spec_transaction_base() == old(document)@
            },
            transaction_builtin(name@) == 2 && arguments@.len() == 0 ==> {
                &&& result is Ok <==> old(document).spec_transaction_active()
                &&& final(document)@ == old(document)@
                &&& !final(document).spec_transaction_active()
            },
            transaction_builtin(name@) == 3 && arguments@.len() == 0 ==> {
                &&& result is Ok <==> old(document).spec_transaction_active()
                &&& result is Ok ==> !final(document).spec_transaction_active() && final(document)@ == old(
                    document,
                ).spec_transaction_base()
                &&& result is Err ==> final(document)@ == old(document)@
            },
    {
        let which: u8 = if names_match(name, "begintransaction") {
            1
        } else if names_match(name, "committransaction") {
            2
        } else if names_match(name, "rollbacktransaction") {
            3
        } else {
            0
        };
        if which == 0 {
            return Ok(false);
        }
        let canonical = if which == 1 {
            "BeginTransaction"
        } else if which == 2 {
            "CommitTransaction"
        } else {
            "RollbackTransaction"
        };
        if arguments.len() != 0 {
            return Err(
                ExecutionError::ArgumentCount {
                    name: execution_text(canonical),
                    expected: 0,
                    actual: arguments.len(),
                },
            );
        }
        let outcome = if which == 1 {
            document.begin_transaction()
        } else if which == 2 {
            document.commit_transaction()
        } else {
            document.rollback_transaction()
        };
        match outcome {
            Ok(()) => Ok(true),
            Err(error) => Err(document_error(error)),
        }
    }

    fn call_standard_namespace(
        &mut self,
        program: &Program,
        document: &mut CsvDocument,
        namespace: StandardNamespace,
        name: &str,
        arguments: &Vec<Expression>,
        depth: usize,
    ) -> (result: Result<Value, ExecutionError>)
        requires
            old(self).wf(),
            old(document).wf(),
            depth <= MAX_CALL_DEPTH,
        ensures
            final(self).wf(),
            final(document).wf(),
            keeps_scopes(*old(self), *final(self)),
            standard_function(namespace, name@).0 == 0 ==> (result matches Err(
                ExecutionError::UnknownStandardFunction { name: n, .. },
            ) && n@ == name@ && *final(self) == *old(self) && *final(document) == *old(document)),
            standard_function(namespace, name@).0 != 0 && arguments@.len() != standard_function(namespace, name@).1
                ==> (result matches Err(ExecutionError::ArgumentCount { expected, actual, .. }) && expected
                == standard_function(namespace, name@).1 && actual == arguments@.len() && *final(self) == *old(
                self,
            ) && *final(document) == *old(document)),
            standard_function(namespace, name@).0 != 0 && arguments@.len() == standard_function(namespace, name@).1
                && (forall|i: int|
                0 <= i < arguments@.len() ==> (#[trigger] plain_value(*old(self), old(document)@, arguments@[i])) is Some) ==> {
                &&& *final(self) == *old(self)
                &&& *final(document) == *old(document)
                &&& match standard_value(
                    standard_function(namespace, name@).0,
                    plain_values(*old(self), old(document)@, arguments@),
                ) {
                    Some(value) => result == Ok::<Value, ExecutionError>(value),
                    None => result is Err,
                }
            },
            result matches Ok(value) ==> exists|trace: Seq<(Runtime, CsvDocument)>, values: Seq<Value>|
                #[trigger] arguments_evaluated(arguments@, trace, values) && trace[0] == (*old(self), *old(document))
                    && standard_value(standard_function(namespace, name@).0, values) == Some(value)
                    && standard_function(namespace, name@).0 != 0,
        decreases fuel(depth), exprs_size(arguments@), 1int,
    {
        let (namespace_name, code, expected): (&str, u8, usize) = match namespace {
            StandardNamespace::Text => {
                if names_match(name, "contains") {
                    ("Text", 1, 2)
                } else if names_match(name, "startswith") {
                    ("Text", 2, 2)
                } else if names_match(name, "endswith") {
                    ("Text", 3, 2)
                } else if names_match(name, "isjapanese") {
                    ("Text", 4, 1)
                } else {
                    ("Text", 0, 0)
                }
            },
            StandardNamespace::Number => {
                if names_match(name, "isinteger") {
                    ("Number", 5, 1)
                } else if names_match(name, "isdecimal") {
                    ("Number", 6, 1)
                } else {
                    ("Number", 0, 0)
                }
            },
            StandardNamespace::Boolean => {
                if names_match(name, "isvalid") {
                    ("Boolean", 7, 1)
                } else {
                    ("Boolean", 0, 0)
                }
            },
        };
        if code == 0 {
            return Err(
                ExecutionError::UnknownStandardFunction {
                    namespace: execution_text(namespace_name),
                    name: name.to_owned(),
                },
            );
        }
        let canonical = if code == 1 {
            "Contains"
        } else if code == 2 {
            "StartsWith"
        } else if code == 3 {
            "EndsWith"
        } else if code == 4 {
            "IsJapanese"
        } else if code == 5 {
            "IsInteger"
        } else if code == 6 {
            "IsDecimal"
        } else {
            "IsValid"
        };
        if arguments.len() != expected {
            let mut full_name = execution_text(namespace_name);
            full_name.append(".");
            full_name.append(canonical);
            return Err(ExecutionError::ArgumentCount { name: full_name, expected, actual: arguments.len() });
        }
        let values = self.evaluate_arguments(program, document, arguments, depth)?;
        proof {
            if forall|i: int| 0 <= i < arguments@.len() ==> (#[trigger] plain_value(*old(self), old(document)@, arguments@[i])) is Some {
                assert(values@ =~= plain_values(*old(self), old(document)@, arguments@));
            }
        }
        if code == 1 || code == 2 || code == 3 {
            let first_context = if code == 1 {
                "Text.Contains first argument"
            } else if code == 2 {
                "Text.StartsWith first argument"
            } else {
                "Text.EndsWith first argument"
            };
            let second_context = if code == 1 {
                "Text.Contains second argument"
            } else if code == 2 {
                "Text.StartsWith second argument"
            } else {
                "Text.EndsWith second argument"
            };
            let first = expect_text(copy_value(&values[0]), first_context)?;
            let second = expect_text(copy_value(&values[1]), second_context)?;
            let found = if code == 1 {
                text_contains(first.as_str(), second.as_str())
            } else if code == 2 {
                text_starts_with(first.as_str(), second.as_str())
            } else {
                text_ends_with(first.as_str(), second.as_str())
            };
            assert(standard_value(code as int, values@) == Some(Value::Boolean(found)));
            return Ok(Value::Boolean(found));
        }
        if code == 4 {
            let text = expect_text(copy_value(&values[0]), "Text.IsJapanese argument")?;
            let japanese = text_is_japanese(text.as_str());
            assert(standard_value(code as int, values@) == Some(Value::Boolean(japanese)));
            return Ok(Value::Boolean(japanese));
        }
        if code == 5 {
            return Ok(Value::Boolean(is_integer_value(&values[0])));
        }
        if code == 6 {
            return Ok(Value::Boolean(is_decimal_value(&values[0])));
        }
        Ok(Value::Boolean(is_boolean_value(&values[0])))
    }

    /// The built-in functions; `None` when `name` is not one of them.
    fn call_builtin(
        &mut self,
        program: &Program,
        document: &mut CsvDocument,
        name: &str,
        arguments: &Vec<Expression>,
        depth: usize,
    ) -> (result: Result<Option<Value>, ExecutionError>)
        requires
            old(self).wf(),
            old(document).wf(),
            depth <= MAX_CALL_DEPTH,
        ensures
            final(self).wf(),
            final(document).wf(),
            keeps_scopes(*old(self), *final(self)),
            builtin_number(name@) == 0 ==> result == Ok::<Option<Value>, ExecutionError>(None) && *final(self)
                == *old(self) && *final(document) == *old(document),
            builtin_number(name@) != 0 && arguments@.len() != builtin_arity(builtin_number(name@)) ==> (result matches Err(
                ExecutionError::ArgumentCount { expected, actual, .. },
            ) && expected == builtin_arity(builtin_number(name@)) && actual == arguments@.len() && *final(self)
                == *old(self) && *final(document) == *old(document)),
            builtin_number(name@) != 0 ==> !(result matches Ok(None)),
            builtin_number(name@) != 0 ==> (result matches Ok(Some(value)) ==> exists|
                trace: Seq<(Runtime, CsvDocument)>,
                values: Seq<Value>,
            |
                #![trigger arguments_evaluated(arguments@, trace, values)]
                arguments_evaluated(arguments@, trace, values) && trace[0] == (*old(self), *old(document))
                    && builtin_outcome(builtin_number(name@), values, trace.last().1, *final(document), Ok(value))),
            builtin_number(name@) != 0 && arguments@.len() == builtin_arity(builtin_number(name@)) && (forall|i: int|
                0 <= i < arguments@.len() ==> (#[trigger] plain_value(*old(self), old(document)@, arguments@[i])) is Some) ==> builtin_outcome(
                builtin_number(name@),
                plain_values(*old(self), old(document)@, arguments@),
                *old(document),
                *final(document),
                match result {
                    Ok(Some(value)) => Ok(value),
                    Ok(None) => Err(ExecutionError::ReturnOutsideFunction),
                    Err(error) => Err(error),
                },
            ),
            arguments@.len() == 0 && builtin_number(name@) == 6 && old(document)@.len() <= i64::MAX ==> {
                &&& result == Ok::<Option<Value>, ExecutionError>(Some(Value::Integer(old(document)@.len() as i64)))
                &&& *final(self) == *old(self)
                &&& *final(document) == *old(document)
            },
            arguments@.len() == 0 && builtin_number(name@) == 7 && max_width(old(document)@) <= i64::MAX ==> {
                &&& result == Ok::<Option<Value>, ExecutionError>(Some(Value::Integer(max_width(old(document)@) as i64)))
                &&& *final(self) == *old(self)
                &&& *final(document) == *old(document)
            },
            arguments@.len() == 1 ==> (plain_value(*old(self), old(document)@, arguments@[0]) matches Some(argument) ==> (
            conversion_value(name@, argument) matches Some(value) ==> {
                &&& result == Ok::<Option<Value>, ExecutionError>(Some(value))
                &&& *final(self) == *old(self)
                &&& *final(document) == *old(document)
            })),
        decreases fuel(depth), exprs_size(arguments@), 1int,
    {
        let code: u8 = if names_match(name, "integer") {
            1
        } else if names_match(name, "decimal") {
            2
        } else if names_match(name, "boolean") {
            3
        } else if names_match(name, "string") {
            4
        } else if names_match(name, "cellvalue") {
            5
        } else if names_match(name, "rowcount") {
            6
        } else if names_match(name, "columncount") {
            7
        } else if names_match(name, "cellvalueat") {
            8
        } else if names_match(name, "setcellvalueat") {
            9
        } else if names_match(name, "columnindex") {
            10
        } else if names_match(name, "cellvaluebyheader") {
            11
        } else if names_match(name, "setcellvaluebyheader") {
            12
        } else {
            0
        };
        if code == 0 {
            return Ok(None);
        }
        let canonical = if code == 1 {
            "Integer"
        } else if code == 2 {
            "Decimal"
        } else if code == 3 {
            "Boolean"
        } else if code == 4 {
            "String"
        } else if code == 5 {
            "CellValue"
        } else if code == 6 {
            "RowCount"
        } else if code == 7 {
            "ColumnCount"
        } else if code == 8 {
            "CellValueAt"
        } else if code == 9 {
            "SetCellValueAt"
        } else if code == 10 {
            "ColumnIndex"
        } else if code == 11 {
            "CellValueByHeader"
        } else {
            "SetCellValueByHeader"
        };
        let expected: usize = if code == 6 || code == 7 {
            0
        } else if code == 8 || code == 11 {
            2
        } else if code == 9 || code == 12 {
            3
        } else {
            1
        };
        if arguments.len() != expected {
            return Err(
                ExecutionError::ArgumentCount {
                    name: execution_text(canonical),
                    expected,
                    actual: arguments.len(),
                },
            );
        }
        let values = self.evaluate_arguments(program, document, arguments, depth)?;
        proof {
            if forall|i: int| 0 <= i < arguments@.len() ==> (#[trigger] plain_value(*old(self), old(document)@, arguments@[i])) is Some {
                assert(values@ =~= plain_values(*old(self), old(document)@, arguments@));
            }
        }
        let value = self.apply_builtin(code, &values, document)?;
        Ok(Some(value))
    }

    /// Runs builtin number `code` (see `builtin_number`) on its evaluated arguments.
    fn apply_builtin(&self, code: u8, values: &Vec<Value>, document: &mut CsvDocument) -> (result: Result<
        Value,
        ExecutionError,
    >)
        requires
            1 <= code <= 12,
            values@.len() == builtin_arity(code as int),
            old(document).wf(),
        ensures
            final(document).wf(),
            builtin_outcome(code as int, values@, *old(document), *final(document), result),
    {
        let value = if code == 1 {
            self.convert_integer(&values[0])?
        } else if code == 2 {
            self.convert_decimal(&values[0])?
        } else if code == 3 {
            self.convert_boolean(&values[0])?
        } else if code == 4 {
            self.convert_string(&values[0])?
        } else if code == 5 {
            let reference = expect_text(copy_value(&values[0]), "CellValue argument")?;
            match document.cell_a1(reference.as_str()) {
                Ok(Some(text)) => Value::Text(text.to_owned()),
                Ok(None) => {
                    return Err(ExecutionError::MissingCell(reference));
                },
                Err(error) => {
                    return Err(document_error(error));
                },
            }
        } else if code == 6 {
            let rows = document.row_count();
            if rows as u64 > i64::MAX as u64 {
                return Err(ExecutionError::ArithmeticOverflow { operator: execution_text("RowCount") });
            }
            Value::Integer(rows as i64)
        } else if code == 7 {
            let columns = document.column_count();
            if columns as u64 > i64::MAX as u64 {
                return Err(ExecutionError::ArithmeticOverflow { operator: execution_text("ColumnCount") });
            }
            Value::Integer(columns as i64)
        } else if code == 8 {
            let row = expect_one_based_index(&values[0], "CellValueAt row")?;
            let column = expect_one_based_index(&values[1], "CellValueAt column")?;
            match document.cell(row - 1, column - 1) {
                Some(text) => Value::Text(text.to_owned()),
                None => {
                    let column_text = count_to_string(column);
                    return Err(missing_cell(row, "column", column_text));
                },
            }
        } else if code == 9 {
            let row = expect_one_based_index(&values[0], "SetCellValueAt row")?;
            let column = expect_one_based_index(&values[1], "SetCellValueAt column")?;
            let text = cell_text(&values[2])?;
            match document.set_cell(row - 1, column - 1, text.as_str()) {
                Ok(()) => Value::Text(text),
                Err(error) => {
                    return Err(document_error(error));
                },
            }
        } else if code == 10 {
            let header = expect_text(copy_value(&values[0]), "ColumnIndex header")?;
            let column = match document.column_index_by_header(header.as_str()) {
                Ok(column) => column,
                Err(error) => {
                    return Err(column_error(error));
                },
            };
            if column as u64 >= i64::MAX as u64 {
                return Err(ExecutionError::ArithmeticOverflow { operator: execution_text("ColumnIndex") });
            }
            Value::Integer((column as i64) + 1)
        } else if code == 11 {
            let row = expect_one_based_index(&values[0], "CellValueByHeader row")?;
            let header = expect_text(copy_value(&values[1]), "CellValueByHeader header")?;
            let column = match document.column_index_by_header(header.as_str()) {
                Ok(column) => column,
                Err(error) => {
                    return Err(column_error(error));
                },
            };
            match document.cell(row - 1, column) {
                Some(text) => Value::Text(text.to_owned()),
                None => {
                    return Err(missing_cell(row, "header", header));
                },
            }
        } else {
            let row = expect_one_based_index(&values[0], "SetCellValueByHeader row")?;
            let header = expect_text(copy_value(&values[1]), "SetCellValueByHeader header")?;
            let column = match document.column_index_by_header(header.as_str()) {
                Ok(column) => column,
                Err(error) => {
                    return Err(column_error(error));
                },
            };
            let text = cell_text(&values[2])?;
            match document.set_cell(row - 1, column, text.as_str()) {
                Ok(()) => Value::Text(text),
                Err(error) => {
                    return Err(document_error(error));
                },
            }
        };
        Ok(value)
    }

    /// Creates an object: evaluates the constructor arguments, fills the fields of the
    /// lineage (oldest class first) with their defaults, records the creation, then runs
    /// the nearest `Init`.
    fn instantiate_class(
        &mut self,
        program: &Program,
        document: &mut CsvDocument,
        class_name: &str,
        arguments: &Vec<Expression>,
        depth: usize,
    ) -> (result: Result<Value, ExecutionError>)
        requires
            old(self).wf(),
            old(document).wf(),
            depth <= MAX_CALL_DEPTH,
        ensures
            final(self).wf(),
            final(document).wf(),
            keeps_scopes(*old(self), *final(self)),
            no_class_named(program.classes@, class_name@) ==> (result matches Err(
                ExecutionError::UnknownClass(n),
            ) && n@ == class_name@ && *final(self) == *old(self) && *final(document) == *old(document)),
        decreases fuel(depth), exprs_size(arguments@), 1int,
    {
        let class_position = class_by_name(program, class_name)?;
        let class = &program.classes[class_position];
        let lineage = class_lineage(program, class.name.as_str())?;
        let constructor = find_method_in_hierarchy(program, class.name.as_str(), "Init")?;
        let expected = match constructor {
            Some((c, m)) => program.classes[c].methods[m].parameters.len(),
            None => 0,
        };
        if expected != arguments.len() {
            return Err(
                ExecutionError::ConstructorArgumentCount {
                    class_name: class.name.clone(),
                    expected,
                    actual: arguments.len(),
                },
            );
        }
        let values = self.evaluate_arguments(program, document, arguments, depth)?;
        if depth >= MAX_CALL_DEPTH {
            return Err(ExecutionError::CallDepthExceeded { limit: MAX_CALL_DEPTH });
        }
        let mut fields: Vec<(String, Value)> = Vec::new();
        let mut k: usize = 0;
        while k < lineage.len()
            invariant
                self.wf(),
                document.wf(),
                depth < MAX_CALL_DEPTH,
                keeps_scopes(*old(self), *self),
                !no_class_named(program.classes@, class_name@),
                forall|j: int| 0 <= j < lineage@.len() ==> #[trigger] lineage@[j] < program.classes@.len(),
            decreases lineage@.len() - k,
        {
            let current = &program.classes[lineage[k]];
            let mut f: usize = 0;
            while f < current.fields.len()
                invariant
                    self.wf(),
                    document.wf(),
                    depth < MAX_CALL_DEPTH,
                    keeps_scopes(*old(self), *self),
                    !no_class_named(program.classes@, class_name@),
                decreases current.fields@.len() - f,
            {
                let field = &current.fields[f];
                let value = self.evaluate_expression(program, document, &field.default, depth + 1)?;
                let key = normalize_identifier(field.name.as_str());
                let mut replaced = false;
                let mut j: usize = 0;
                while j < fields.len()
                    decreases fields@.len() - j,
                {
                    if fields[j].0 == key {
                        let (name, _) = fields.remove(j);
                        fields.insert(j, (name, copy_value(&value)));
                        replaced = true;
                        break;
                    }
                    j += 1;
                }
                if !replaced {
                    fields.push((key, value));
                }
                f += 1;
            }
            k += 1;
        }
        let object_id = self.objects.len();
        self.objects.push(ObjectInstance { class_name: class.name.clone(), fields });
        self.events.push(ExecutionEvent::ObjectCreated { class_name: class.name.clone() });
        match constructor {
            Some((c, m)) => {
                let method = &program.classes[c].methods[m];
                let defining_class = &program.classes[c].name;
                self.invoke_method_with_values(
                    program,
                    document,
                    object_id,
                    defining_class.as_str(),
                    method,
                    values,
                    depth,
                )?;
            },
            None => {},
        }
        Ok(Value::Object(object_id))
    }

    /// Runs a user function: checks the depth and the argument count, evaluates the
    /// arguments, and runs the body in a scope of its own.
    fn call_function(
        &mut self,
        program: &Program,
        document: &mut CsvDocument,
        name: &str,
        arguments: &Vec<Expression>,
        depth: usize,
    ) -> (result: Result<Option<Value>, ExecutionError>)
        requires
            old(self).wf(),
            old(document).wf(),
            depth <= MAX_CALL_DEPTH,
        ensures
            final(self).wf(),
            final(document).wf(),
            keeps_scopes(*old(self), *final(self)),
            depth >= MAX_CALL_DEPTH ==> (result matches Err(ExecutionError::CallDepthExceeded { limit })
                && limit == MAX_CALL_DEPTH && *final(self) == *old(self) && *final(document) == *old(document)),
            depth < MAX_CALL_DEPTH && (forall|k: int|
                0 <= k < program.functions@.len() ==> !eq_ci(#[trigger] program.functions@[k].name@, name@))
                ==> (result matches Err(ExecutionError::UnknownFunction(n)) && n@ == name@ && *final(self)
                == *old(self) && *final(document) == *old(document)),
            forall|i: int|
                depth < MAX_CALL_DEPTH && #[trigger] function_named(program.functions@, name@, i)
                    && program.functions@[i].parameters@.len() != arguments@.len() ==> (result matches Err(
                    ExecutionError::ArgumentCount { name: n, expected, actual },
                ) && n == program.functions@[i].name && expected == program.functions@[i].parameters@.len()
                    && actual == arguments@.len() && *final(self) == *old(self) && *final(document) == *old(
                    document,
                )),
            result is Ok ==> function_call_ran(program.functions@, name@, arguments@, *old(self), *old(document), *final(document), result),
        decreases fuel(depth), exprs_size(arguments@), 1int,
    {
        if depth >= MAX_CALL_DEPTH {
            return Err(ExecutionError::CallDepthExceeded { limit: MAX_CALL_DEPTH });
        }
        let position = match function_index(program, name) {
            Some(position) => position,
            None => {
                return Err(ExecutionError::UnknownFunction(name.to_owned()));
            },
        };
        let function = &program.functions[position];
        if function.parameters.len() != arguments.len() {
            return Err(
                ExecutionError::ArgumentCount {
                    name: function.name.clone(),
                    expected: function.parameters.len(),
                    actual: arguments.len(),
                },
            );
        }
        let values = self.evaluate_arguments(program, document, arguments, depth)?;
        let ghost outer = *self;
        let ghost doc_outer = *document;
        let mut scope: Vec<(String, Binding)> = Vec::new();
        let mut i: usize = 0;
        while i < values.len()
            invariant
                values@.len() == function.parameters@.len(),
                i <= values@.len(),
                scope@.len() == i,
                forall|k: int|
                    0 <= k < i ==> (#[trigger] scope@[k]).0@ == lower_seq(function.parameters@[k]@) && scope@[k].1
                        == (Binding { value: values@[k], kind: DeclarationKind::Var }),
            decreases values@.len() - i,
        {
            scope.push(
                (
                    normalize_identifier(function.parameters[i].as_str()),
                    Binding { value: copy_value(&values[i]), kind: DeclarationKind::Var },
                ),
            );
            i += 1;
        }
        self.scopes.push(scope);
        let ghost frame = *self;
        proof {
            assert(frame_entered(outer, function.parameters@, values@, frame));
        }
        let execution = self.execute_statements(program, document, &function.body, depth + 1);
        proof {
            let args = choose|args: Seq<(Runtime, CsvDocument)>|
                #[trigger] arguments_evaluated(arguments@, args, values@) && args[0] == (*old(self), *old(document))
                    && args.last() == (outer, doc_outer);
            let run = choose|run: Seq<(Runtime, CsvDocument)>|
                #[trigger] ran_in_order(function.body@, run, execution) && run[0] == (frame, doc_outer) && run.last() == (
                    *self,
                    *document,
                );
            assert(arguments_evaluated(arguments@, args, values@));
            assert(ran_in_order(program.functions@[position as int].body@, run, execution));
        }
        self.scopes.pop();
        let flow = execution?;
        let return_value = match flow {
            Flow::Continue => None,
            Flow::Return(value) => value,
        };
        let argument_texts = self.describe_values(&values);
        let return_text = match &return_value {
            Some(value) => Some(self.describe_value(value)),
            None => None,
        };
        self.events.push(
            ExecutionEvent::FunctionCalled {
                name: function.name.clone(),
                arguments: argument_texts,
                return_value: return_text,
            },
        );
        Ok(return_value)
    }

    fn call_method(
        &mut self,
        program: &Program,
        document: &mut CsvDocument,
        object_id: usize,
        name: &str,
        arguments: &Vec<Expression>,
        depth: usize,
    ) -> (result: Result<Option<Value>, ExecutionError>)
        requires
            old(self).wf(),
            old(document).wf(),
            depth <= MAX_CALL_DEPTH,
        ensures
            final(self).wf(),
            final(document).wf(),
            keeps_scopes(*old(self), *final(self)),
            object_id >= old(self).objects@.len() ==> (result matches Err(ExecutionError::ExpectedObject(text))
                && text@ == "object#"@ + decimal_digits(object_id as nat) && *final(self) == *old(self) && *final(document) == *old(document)),
            result is Ok ==> object_id < old(self).objects@.len() && method_call_ran(
                program.classes@,
                old(self).objects@[object_id as int].class_name@,
                name@,
                object_id,
                arguments@,
                *old(self),
                *old(document),
                *final(document),
                result,
            ),
        decreases fuel(depth), exprs_size(arguments@), 1int,
    {
        if object_id >= self.objects.len() {
            return Err(Self::object_missing(object_id));
        }
        let class_name = self.objects[object_id].class_name.clone();
        let (c, m) = match find_method_in_hierarchy(program, class_name.as_str(), name)? {
            Some(found) => found,
            None => {
                return Err(ExecutionError::UnknownMethod { class_name, method: name.to_owned() });
            },
        };
        let method = &program.classes[c].methods[m];
        if method.parameters.len() != arguments.len() {
            return Err(
                ExecutionError::MethodArgumentCount {
                    class_name,
                    name: method.name.clone(),
                    expected: method.parameters.len(),
                    actual: arguments.len(),
                },
            );
        }
        proof {
            assert(method_dispatch(program.classes@, class_name@, name@, c as int, m as int));
        }
        let values = self.evaluate_arguments(program, document, arguments, depth)?;
        let ghost evaluated = values@;
        let ghost outer = *self;
        let ghost doc_outer = *document;
        let invoked = self.invoke_method_with_values(program, document, object_id, program.classes[c].name.as_str(), method, values, depth);
        proof {
            if invoked is Ok {
                let args = choose|args: Seq<(Runtime, CsvDocument)>|
                    #[trigger] arguments_evaluated(arguments@, args, evaluated) && args[0] == (*old(self), *old(document))
                        && args.last() == (outer, doc_outer);
                assert(arguments_evaluated(arguments@, args, evaluated));
                assert(method_dispatch(program.classes@, old(self).objects@[object_id as int].class_name@, name@, c as int, m as int));
            }
        }
        invoked
    }

    fn call_super_method(
        &mut self,
        program: &Program,
        document: &mut CsvDocument,
        name: &str,
        arguments: &Vec<Expression>,
        depth: usize,
    ) -> (result: Result<Option<Value>, ExecutionError>)
        requires
            old(self).wf(),
            old(document).wf(),
            depth <= MAX_CALL_DEPTH,
        ensures
            final(self).wf(),
            final(document).wf(),
            keeps_scopes(*old(self), *final(self)),
            old(self).method_context@.len() == 0 ==> (result matches Err(ExecutionError::SuperOutsideMethod)
                && *final(self) == *old(self) && *final(document) == *old(document)),
        decreases fuel(depth), exprs_size(arguments@), 1int,
    {
        if self.method_context.len() == 0 {
            return Err(ExecutionError::SuperOutsideMethod);
        }
        let current_class = self.method_context[self.method_context.len() - 1].clone();
        let current_position = class_by_name(program, current_class.as_str())?;
        let parent = match &program.classes[current_position].parent {
            Some(parent) => parent,
            None => {
                return Err(ExecutionError::NoSuperClass { class_name: current_class });
            },
        };
        let object_id = self.resolve_object("Self")?;
        let (c, m) = match find_method_in_hierarchy(program, parent.as_str(), name)? {
            Some(found) => found,
            None => {
                return Err(ExecutionError::UnknownSuperMethod { class_name: current_class, method: name.to_owned() });
            },
        };
        let method = &program.classes[c].methods[m];
        if method.parameters.len() != arguments.len() {
            return Err(
                ExecutionError::MethodArgumentCount {
                    class_name: program.classes[c].name.clone(),
                    name: method.name.clone(),
                    expected: method.parameters.len(),
                    actual: arguments.len(),
                },
            );
        }
        let values = self.evaluate_arguments(program, document, arguments, depth)?;
        self.invoke_method_with_values(program, document, object_id, program.classes[c].name.as_str(), method, values, depth)
    }

    /// Runs a method on an object: checks the depth, binds the parameters and `Self` (a
    /// constant), and records the call.
    fn invoke_method_with_values(
        &mut self,
        program: &Program,
        document: &mut CsvDocument,
        object_id: usize,
        defining_class: &str,
        method: &FunctionDefinition,
        values: Vec<Value>,
        depth: usize,
    ) -> (result: Result<Option<Value>, ExecutionError>)
        requires
            old(self).wf(),
            old(document).wf(),
            depth <= MAX_CALL_DEPTH,
        ensures
            final(self).wf(),
            final(document).wf(),
            keeps_scopes(*old(self), *final(self)),
            depth >= MAX_CALL_DEPTH ==> (result matches Err(ExecutionError::CallDepthExceeded { limit })
                && limit == MAX_CALL_DEPTH && *final(self) == *old(self) && *final(document) == *old(document)),
            values@.len() == method.parameters@.len() && result is Ok ==> method_body_ran(
                *method,
                defining_class@,
                object_id,
                values@,
                *old(self),
                *old(document),
                *final(document),
                result,
            ),
        decreases fuel(depth) - 1, 0int, 0int,
    {
        if depth >= MAX_CALL_DEPTH {
            return Err(ExecutionError::CallDepthExceeded { limit: MAX_CALL_DEPTH });
        }
        let mut scope: Vec<(String, Binding)> = Vec::new();
        let mut i: usize = 0;
        while i < values.len() && i < method.parameters.len()
            invariant
                i <= values@.len(),
                scope@.len() == i,
                forall|k: int|
                    0 <= k < i ==> (#[trigger] scope@[k]).0@ == lower_seq(method.parameters@[k]@) && scope@[k].1
                        == (Binding { value: values@[k], kind: DeclarationKind::Var }),
            decreases values@.len() - i,
        {
            scope.push(
                (
                    normalize_identifier(method.parameters[i].as_str()),
                    Binding { value: copy_value(&values[i]), kind: DeclarationKind::Var },
                ),
            );
            i += 1;
        }
        let ghost outer = *self;
        let ghost bound = scope@;
        scope.push((String::from_str("self"), Binding { value: Value::Object(object_id), kind: DeclarationKind::Const }));
        proof {
            reveal_strlit("self");
            assert(scope@.drop_last() =~= bound);
        }
        self.scopes.push(scope);
        self.method_context.push(defining_class.to_owned());
        let ghost frame = *self;
        proof {
            if values@.len() == method.parameters@.len() {
                assert(method_frame_entered(outer, method.parameters@, values@, object_id, defining_class@, frame));
            }
        }
        let execution = self.execute_statements(program, document, &method.body, depth + 1);
        proof {
            let run = choose|run: Seq<(Runtime, CsvDocument)>|
                #[trigger] ran_in_order(method.body@, run, execution) && run[0] == (frame, *old(document)) && run.last() == (
                    *self,
                    *document,
                );
            assert(ran_in_order(method.body@, run, execution));
        }
        self.method_context.pop();
        self.scopes.pop();
        let flow = execution?;
        let return_value = match flow {
            Flow::Continue => None,
            Flow::Return(value) => value,
        };
        let argument_texts = self.describe_values(&values);
        let return_text = match &return_value {
            Some(value) => Some(self.describe_value(value)),
            None => None,
        };
        self.events.push(
            ExecutionEvent::MethodCalled {
                class_name: defining_class.to_owned(),
                name: method.name.clone(),
                arguments: argument_texts,
                return_value: return_text,
            },
        );
        Ok(return_value)
    }

    /// Runs `For variable = start To end [Step step]`: the counter starts at `start` and
    /// moves by `step` (one when omitted) while it has not passed `end`; each round gets a
    /// fresh scope holding the counter.
    fn execute_for(
        &mut self,
        program: &Program,
        document: &mut CsvDocument,
        variable: &String,
        start: i64,
        end: i64,
        step: i64,
        body: &Vec<Statement>,
        depth: usize,
    ) -> (result: Result<Flow, ExecutionError>)
        requires
            old(self).wf(),
            old(document).wf(),
            depth <= MAX_CALL_DEPTH,
            step != 0,
        ensures
            final(self).wf(),
            final(document).wf(),
            keeps_scopes(*old(self), *final(self)),
            (if step > 0 {
                start > end
            } else {
                start < end
            }) ==> (result matches Ok(Flow::Continue) && *final(self) == *old(self) && *final(document)
                == *old(document)),
            exists|trace: Seq<(Runtime, CsvDocument)>|
                #[trigger] for_ran(lower_seq(variable@), start as int, end as int, step as int, body@, trace, result)
                    && trace[0] == (*old(self), *old(document)) && trace.last() == (*final(self), *final(document)),
        decreases fuel(depth), stmts_size(body@), 2int,
    {
        let key = normalize_identifier(variable.as_str());
        let mut current = start;
        let ghost initial = *self;
        let ghost key_view = lower_seq(variable@);
        let ghost mut trace: Seq<(Runtime, CsvDocument)> = seq![(*self, *document)];
        let ghost mut passes: int = 0;
        loop
            invariant
                self.wf(),
                document.wf(),
                depth <= MAX_CALL_DEPTH,
                step != 0,
                keeps_scopes(initial, *self),
                initial == *old(self),
                (if step > 0 {
                    start > end
                } else {
                    start < end
                }) ==> current == start && *self == *old(self) && *document == *old(document),
                key@ == key_view,
                key_view == lower_seq(variable@),
                passes >= 0,
                current == pass_value(start as int, step as int, passes),
                trace.len() == passes + 1,
                trace[0] == (*old(self), *old(document)),
                trace.last() == (*self, *document),
                passes_continued(key_view, start as int, end as int, step as int, body@, trace, passes),
            decreases if step > 0 {
                if current <= end { end as int - current as int + 1 } else { 0 }
            } else {
                if current >= end { current as int - end as int + 1 } else { 0 }
            },
        {
            let in_range = if step > 0 { current <= end } else { current >= end };
            if !in_range {
                proof {
                    let r = Ok::<Flow, ExecutionError>(Flow::Continue);
                    assert(trace.len() - 1 == passes);
                    assert(!within_loop(start + passes * step, end as int, step as int));
                    assert(for_ran(key_view, start as int, end as int, step as int, body@, trace, r));
                }
                return Ok(Flow::Continue);
            }
            let ghost outer = *self;
            let ghost doc_before = *document;
            let mut scope: Vec<(String, Binding)> = Vec::new();
            scope.push((key.clone(), Binding { value: Value::Integer(current), kind: DeclarationKind::Var }));
            self.scopes.push(scope);
            let ghost inner = *self;
            proof {
                assert(loop_scope_pushed(outer, key_view, current, inner));
            }
            let execution = self.execute_statements(program, document, body, depth);
            let ghost finished = *self;
            proof {
                let run = choose|run: Seq<(Runtime, CsvDocument)>|
                    #[trigger] ran_in_order(body@, run, execution) && run[0] == (inner, doc_before) && run.last() == (
                        finished,
                        *document,
                    );
                lemma_effects_in_order(body@, run, execution);
                assert(block_effects(inner, doc_before, body@, finished, *document, execution));
            }
            self.scopes.pop();
            let ghost previous = trace;
            proof {
                assert(loop_scope_popped(finished, *self));
                trace = previous.push((*self, *document));
                assert forall|i: int| 0 <= i <= passes implies #[trigger] trace[i] == previous[i] by {}
                assert(loop_pass(outer, doc_before, key_view, current, body@, *self, *document, execution));
                lemma_passes_extend(key_view, start as int, end as int, step as int, body@, previous, trace, passes);
                assert(trace[passes] == (outer, doc_before));
                assert(trace[passes + 1] == (*self, *document));
            }
            let flow = match execution {
                Ok(flow) => flow,
                Err(error) => {
                    proof {
                        assert(for_ran(key_view, start as int, end as int, step as int, body@, trace, Err::<Flow, ExecutionError>(error)));
                    }
                    return Err(error);
                },
            };
            match flow {
                Flow::Continue => {},
                Flow::Return(value) => {
                    proof {
                        assert(for_ran(key_view, start as int, end as int, step as int, body@, trace, Ok::<Flow, ExecutionError>(Flow::Return(value))));
                    }
                    return Ok(Flow::Return(value));
                },
            }
            proof {
                assert(start + (passes + 1) * step == start + passes * step + step) by (nonlinear_arith);
                assert(pass_value(start as int, step as int, passes + 1) == pass_value(start as int, step as int, passes) + step);
                assert(pass_continued(key_view, start as int, end as int, step as int, body@, trace, passes));
                lemma_passes_push(key_view, start as int, end as int, step as int, body@, trace, passes);
            }
            match current.checked_add(step) {
                Some(next) => {
                    current = next;
                    proof {
                        passes = passes + 1;
                    }
                },
                None => {
                    proof {
                        assert(for_ran(key_view, start as int, end as int, step as int, body@, trace, Err::<Flow, ExecutionError>(ExecutionError::LoopCounterOverflow)));
                    }
                    return Err(ExecutionError::LoopCounterOverflow);
                },
            }
        }
    }

    /// Runs one statement at call depth `depth`. A refused statement (see
    /// `refused_statement`) fails before anything in it is evaluated.
    pub fn execute_statement(&mut self, program: &Program, document: &mut CsvDocument, statement: &Statement, depth: usize) -> (result:
        Result<Flow, ExecutionError>)
        requires
            old(self).wf(),
            old(document).wf(),
            depth <= MAX_CALL_DEPTH,
        ensures
            statement_step(*old(self), *old(document), *statement, *final(self), *final(document), result),
            *statement matches Statement::Call { name, arguments } ==> (transaction_builtin(name@) == 0
                && builtin_number(name@) == 0 && result is Ok ==> exists|called: Result<Option<Value>, ExecutionError>|
                #[trigger] function_call_ran(
                    program.functions@,
                    name@,
                    arguments@,
                    *old(self),
                    *old(document),
                    *final(document),
                    called,
                ) && called is Ok),
            *statement matches Statement::MethodCall { target, name, arguments } ==> (!eq_ci(target@, "super"@)
                && result is Ok ==> (visible_value(*old(self), lower_seq(target@)) matches Some(Value::Object(id))
                && id < old(self).objects@.len() && exists|called: Result<Option<Value>, ExecutionError>|
                #[trigger] method_call_ran(
                    program.classes@,
                    old(self).objects@[id as int].class_name@,
                    name@,
                    id,
                    arguments@,
                    *old(self),
                    *old(document),
                    *final(document),
                    called,
                ) && called is Ok)),
        decreases fuel(depth), stmt_size(*statement), 2int,
    {
        match statement {
            Statement::If { condition, body, else_body } => {
                let result = self.evaluate_condition(program, document, condition, depth)?;
                let ghost events_before = self.events@;
                self.events.push(ExecutionEvent::ConditionEvaluated { condition: copy_condition(condition), result });
                proof {
                    assert(self.events@.drop_last() =~= events_before);
                    if plain_condition(*old(self), old(document)@, *condition) is Some {
                        assert(condition_recorded(*old(self), *condition, result, *self));
                    }
                }
                let ghost mid = *self;
                let ghost doc_mid = *document;
                let branch = if result {
                    self.execute_statements(program, document, body, depth)
                } else {
                    self.execute_statements(program, document, else_body, depth)
                };
                proof {
                    let chosen = if result {
                        body@
                    } else {
                        else_body@
                    };
                    let run = choose|run: Seq<(Runtime, CsvDocument)>|
                        #[trigger] ran_in_order(chosen, run, branch) && run[0] == (mid, doc_mid) && run.last() == (
                            *self,
                            *document,
                        );
                    lemma_effects_in_order(chosen, run, branch);
                    assert(block_effects(mid, doc_mid, chosen, *self, *document, branch));
                }
                let flow = branch?;
                match flow {
                    Flow::Continue => {},
                    Flow::Return(value) => {
                        return Ok(Flow::Return(value));
                    },
                }
            },
            Statement::For { variable, start, end, step, body } => {
                let start_value = self.evaluate_expression(program, document, start, depth)?;
                let end_value = self.evaluate_expression(program, document, end, depth)?;
                let step_value = match step {
                    Some(expression) => Some(self.evaluate_expression(program, document, expression, depth)?),
                    None => None,
                };
                let first = expect_integer(&start_value, "For start")?;
                let last = expect_integer(&end_value, "For end")?;
                let increment = match &step_value {
                    Some(value) => expect_integer(value, "For Step")?,
                    None => 1,
                };
                proof {
                    if for_bounds(*old(self), old(document)@, *start, *end, *step) is Some {
                        assert(*self == *old(self) && *document == *old(document));
                        assert(for_bounds(*old(self), old(document)@, *start, *end, *step) == Some(
                            (first as int, last as int, increment as int),
                        ));
                    }
                }
                if increment == 0 {
                    return Err(ExecutionError::ZeroLoopStep);
                }
                let ghost ready = *self;
                let ghost doc_ready = *document;
                let looped = self.execute_for(program, document, variable, first, last, increment, body, depth);
                proof {
                    let run = choose|run: Seq<(Runtime, CsvDocument)>|
                        #[trigger] for_ran(lower_seq(variable@), first as int, last as int, increment as int, body@, run, looped)
                            && run[0] == (ready, doc_ready) && run.last() == (*self, *document);
                    assert(for_ran(lower_seq(variable@), first as int, last as int, increment as int, body@, run, looped));
                    if for_bounds(*old(self), old(document)@, *start, *end, *step) is Some {
                        assert(run[0] == (*old(self), *old(document)));
                        let bounds = for_bounds(*old(self), old(document)@, *start, *end, *step).unwrap();
                        assert(bounds.0 == first as int && bounds.1 == last as int && bounds.2 == increment as int);
                        assert(exists|trace: Seq<(Runtime, CsvDocument)>|
                            #[trigger] for_ran(lower_seq(variable@), bounds.0, bounds.1, bounds.2, body@, trace, looped)
                                && trace[0] == (*old(self), *old(document)) && trace.last() == (*self, *document));
                        assert(block_step(*old(self), *old(document), *statement, *self, *document, looped));
                    }
                }
                let flow = looped?;
                match flow {
                    Flow::Continue => {},
                    Flow::Return(value) => {
                        return Ok(Flow::Return(value));
                    },
                }
            },
            Statement::Declare { kind, name, value } => {
                let key = normalize_identifier(name.as_str());
                if self.current_scope_has(&key) {
                    return Err(ExecutionError::DuplicateVariable(name.clone()));
                }
                assert(!refused_statement(*self, *statement));
                let evaluated = self.evaluate_expression(program, document, value, depth)?;
                let ghost mid = *self;
                let ghost doc_mid = *document;
                let ghost v = evaluated;
                let event_value = self.describe_value(&evaluated);
                self.declare(key, Binding { value: evaluated, kind: *kind });
                let ghost events_before = self.events@;
                self.events.push(ExecutionEvent::VariableSet { name: name.clone(), value: event_value });
                assert(self.events@.drop_last() =~= events_before);
                assert(expression_evaluated(*old(self), *old(document), *value, mid, doc_mid, Ok(v)));
                assert(binding_declared(mid.scopes@, self.scopes@, lower_seq(name@), Binding { value: v, kind: *kind }));
                assert(one_event_added(mid.events@, self.events@));
            },
            Statement::Assign { name, value } => {
                let (s, j) = match self.find_binding(name.as_str()) {
                    Some(found) => found,
                    None => {
                        proof {
                            lemma_visible_none(*self, lower_seq(name@));
                        }
                        return Err(ExecutionError::UnknownVariable(name.clone()));
                    },
                };
                proof {
                    lemma_visible_kind(*self, lower_seq(name@), s as int, j as int);
                }
                if self.scopes[s][j].1.kind == DeclarationKind::Const {
                    return Err(ExecutionError::ConstantAssignment(name.clone()));
                }
                assert(!refused_statement(*self, *statement));
                let evaluated = self.evaluate_expression(program, document, value, depth)?;
                let event_value = self.describe_value(&evaluated);
                let ghost scopes_before = self.scopes@;
                let ghost assigned = evaluated;
                if s < self.scopes.len() && j < self.scopes[s].len() {
                    self.set_binding(s, j, evaluated);
                }
                let ghost events_before = self.events@;
                self.events.push(ExecutionEvent::VariableSet { name: name.clone(), value: event_value });
                proof {
                    assert(self.events@.drop_last() =~= events_before);
                    if plain_value(*old(self), old(document)@, *value) is Some {
                        assert(scopes_before == old(self).scopes@);
                        assert(first_in_scope(scopes_before[s as int]@, lower_seq(name@), j as int));
                        assert(binding_assigned(scopes_before, self.scopes@, lower_seq(name@), assigned));
                    }
                }
            },
            Statement::Return { value } => {
                let returned = match value {
                    Some(expression) => {
                        let evaluated = self.evaluate_expression(program, document, expression, depth)?;
                        assert(expression_evaluated(*old(self), *old(document), *expression, *self, *document, Ok(evaluated)));
                        Some(evaluated)
                    },
                    None => None,
                };
                return Ok(Flow::Return(returned));
            },
            Statement::Call { name, arguments } => {
                if !self.call_statement_builtin(document, name.as_str(), arguments)? {
                    let ghost ready = *self;
                    let ghost doc_ready = *document;
                    let called = self.call_builtin(program, document, name.as_str(), arguments, depth);
                    proof {
                        let outcome = builtin_call_outcome(called);
                        if builtin_number(name@) != 0 && arguments@.len() == builtin_arity(builtin_number(name@))
                            && (forall|i: int|
                            0 <= i < arguments@.len() ==> (#[trigger] plain_value(ready, doc_ready@, arguments@[i])) is Some) {
                            assert(builtin_outcome(
                                builtin_number(name@),
                                plain_values(ready, doc_ready@, arguments@),
                                doc_ready,
                                *document,
                                outcome,
                            ));
                        }
                    }
                    proof {
                        if builtin_number(name@) != 0 && (called matches Ok(Some(_))) {
                            let v = builtin_call_outcome(called)->Ok_0;
                            let (run, vals) = choose|run: Seq<(Runtime, CsvDocument)>, vals: Seq<Value>|
                                arguments_evaluated(arguments@, run, vals) && run[0] == (ready, doc_ready)
                                    && builtin_outcome(builtin_number(name@), vals, run.last().1, *document, Ok(v));
                            assert(arguments_evaluated(arguments@, run, vals));
                            assert(builtin_outcome(builtin_number(name@), vals, run.last().1, *document, Ok(v)));
                        }
                    }
                    let builtin = called?;
                    if builtin.is_none() {
                        let function_result = self.call_function(program, document, name.as_str(), arguments, depth);
                        proof {
                            if function_result is Ok && builtin_number(name@) == 0 {
                                assert(function_call_ran(
                                    program.functions@,
                                    name@,
                                    arguments@,
                                    *old(self),
                                    *old(document),
                                    *document,
                                    function_result,
                                ));
                            }
                        }
                        function_result?;
                    }
                }
            },
            Statement::MethodCall { target, name, arguments } => {
                if names_match(target.as_str(), "super") {
                    self.call_super_method(program, document, name.as_str(), arguments, depth)?;
                } else {
                    let object_id = self.resolve_object(target.as_str())?;
                    let method_result = self.call_method(program, document, object_id, name.as_str(), arguments, depth);
                    proof {
                        if method_result is Ok {
                            assert(method_call_ran(
                                program.classes@,
                                old(self).objects@[object_id as int].class_name@,
                                name@,
                                object_id,
                                arguments@,
                                *old(self),
                                *old(document),
                                *document,
                                method_result,
                            ));
                        }
                    }
                    method_result?;
                }
            },
            Statement::SetField { target, field, value } => {
                let evaluated = self.evaluate_expression(program, document, value, depth)?;
                let object_id = self.resolve_object(target.as_str())?;
                let event_value = self.describe_value(&evaluated);
                self.set_field(object_id, field.as_str(), evaluated)?;
                self.events.push(ExecutionEvent::FieldSet { target: target.clone(), field: field.clone(), value: event_value });
            },
            Statement::SetRangeValue { range, value } => {
                let evaluated = self.evaluate_expression(program, document, value, depth)?;
                let ghost mid = *self;
                let ghost doc_mid = *document;
                assert(expression_evaluated(*old(self), *old(document), *value, mid, doc_mid, Ok(evaluated)));
                let text = cell_text(&evaluated)?;
                match document.set_range_value(*range, text.as_str()) {
                    Ok(()) => {},
                    Err(error) => {
                        return Err(document_error(error));
                    },
                }
                let ghost events_before = self.events@;
                self.events.push(ExecutionEvent::RangeValueSet { range: *range, value: text });
                assert(self.events@.drop_last() =~= events_before);
                assert(range_exists(doc_mid@, *range));
                assert(one_event_added(mid.events@, self.events@));
                assert(scalar_text_spec(evaluated) == Some(text@));
                assert(document@ == fill_range(doc_mid@, *range, text@));
                assert(self.scopes == mid.scopes);
            },
            Statement::ValidateColumnType { selector, column_type } => {
                let column = match resolve_column(selector, document) {
                    Ok(column) => column,
                    Err(error) => {
                        return Err(column_error(error));
                    },
                };
                let report = match document.validate_column_type(column, *column_type) {
                    Ok(report) => report,
                    Err(error) => {
                        return Err(column_error(error));
                    },
                };
                self.events.push(ExecutionEvent::ColumnTypeChecked { selector: copy_selector(selector), report });
            },
            Statement::CheckJapanese { selector } => {
                let column = match resolve_column(selector, document) {
                    Ok(column) => column,
                    Err(error) => {
                        return Err(column_error(error));
                    },
                };
                let report = match document.check_column_japanese(column) {
                    Ok(report) => report,
                    Err(error) => {
                        return Err(column_error(error));
                    },
                };
                self.events.push(ExecutionEvent::JapaneseChecked { selector: copy_selector(selector), report });
            },
        }
        Ok(Flow::Continue)
    }

    /// Runs a block of statements at call depth `depth`. A statement that is refused
    /// (see `refused_statement`) fails before anything in it is evaluated, so it changes
    /// neither the run nor the document.
    pub fn execute_statements(&mut self, program: &Program, document: &mut CsvDocument, statements: &Vec<Statement>, depth: usize) -> (result:
        Result<Flow, ExecutionError>)
        requires
            old(self).wf(),
            old(document).wf(),
            depth <= MAX_CALL_DEPTH,
        ensures
            final(self).wf(),
            final(document).wf(),
            keeps_frame(*old(self), *final(self)),
            !declares_in_block(statements@) ==> same_names(old(self).scopes@, final(self).scopes@),
            statements@.len() == 0 ==> (result matches Ok(Flow::Continue) && *final(self) == *old(self)
                && *final(document) == *old(document)),
            statements@.len() > 0 && refused_statement(*old(self), statements@[0]) ==> {
                &&& result matches Err(error)
                &&& refusal_error(*old(self), statements@[0], error)
                &&& *final(self) == *old(self)
                &&& *final(document) == *old(document)
            },
            exists|trace: Seq<(Runtime, CsvDocument)>|
                #[trigger] ran_in_order(statements@, trace, result) && trace[0] == (*old(self), *old(document))
                    && trace.last() == (*final(self), *final(document)),
        decreases fuel(depth), stmts_size(statements@), 1int,
    {
        let mut index: usize = 0;
        let ghost initial = *self;
        let ghost mut trace: Seq<(Runtime, CsvDocument)> = seq![(*self, *document)];
        while index < statements.len()
            invariant
                self.wf(),
                document.wf(),
                depth <= MAX_CALL_DEPTH,
                keeps_frame(initial, *self),
                initial == *old(self),
                index <= statements@.len(),
                statements@.len() == 0 ==> *self == *old(self) && *document == *old(document),
                index == 0 ==> *self == *old(self) && *document == *old(document),
                index > 0 ==> !(statements@.len() > 0 && refused_statement(*old(self), statements@[0])),
                !declares_in_block(statements@) ==> same_names(initial.scopes@, self.scopes@),
                trace.len() == index + 1,
                trace[0] == (*old(self), *old(document)),
                trace.last() == (*self, *document),
                forall|i: int|
                    0 <= i < index ==> statement_step(
                        #[trigger] trace[i].0,
                        trace[i].1,
                        statements@[i],
                        trace[i + 1].0,
                        trace[i + 1].1,
                        Ok(Flow::Continue),
                    ),
            decreases statements@.len() - index,
        {
            proof {
                lemma_stmts_size_element(statements@, index as int);
                if !declares_in_block(statements@) {
                    lemma_no_declaration_at(statements@, index as int);
                }
            }
            let ghost previous = trace;
            let step = self.execute_statement(program, document, &statements[index], depth);
            proof {
                trace = previous.push((*self, *document));
                assert forall|i: int| 0 <= i <= index implies #[trigger] trace[i] == previous[i] by {}
            }
            let flow = match step {
                Ok(flow) => flow,
                Err(error) => {
                    proof {
                        assert(ran_in_order(statements@, trace, Err::<Flow, ExecutionError>(error)));
                    }
                    return Err(error);
                },
            };
            match flow {
                Flow::Continue => {},
                Flow::Return(value) => {
                    proof {
                        assert(ran_in_order(statements@, trace, Ok::<Flow, ExecutionError>(Flow::Return(value))));
                    }
                    return Ok(Flow::Return(value));
                },
            }
            index += 1;
        }
        assert(ran_in_order(statements@, trace, Ok::<Flow, ExecutionError>(Flow::Continue)));
        Ok(Flow::Continue)
    }
}

/// The scalar fields of an object, as text.
pub open spec fn scalar_fields(fields: Seq<(String, Value)>) -> Seq<(Seq<char>, Seq<char>)>
    decreases fields.len(),
{
    if fields.len() == 0 {
        Seq::empty()
    } else {
        let rest = scalar_fields(fields.drop_last());
        match scalar_text_spec(fields.last().1) {
            Some(text) => rest.push((fields.last().0@, text)),
            None => rest,
        }
    }
}

/// Pairs of texts as plain text.
pub open spec fn text_pairs(pairs: Seq<(String, String)>) -> Seq<(Seq<char>, Seq<char>)> {
    pairs.map_values(|pair: (String, String)| (pair.0@, pair.1@))
}

fn object_field_texts(runtime: &Runtime, object_id: usize) -> (texts: Vec<(String, String)>)
    ensures
        text_pairs(texts@) == if object_id < runtime.objects@.len() {
            scalar_fields(runtime.objects@[object_id as int].fields@)
        } else {
            Seq::empty()
        },
{
    let mut texts: Vec<(String, String)> = Vec::new();
    if object_id < runtime.objects.len() {
        let fields = &runtime.objects[object_id].fields;
        let mut j: usize = 0;
        while j < fields.len()
            invariant
                j <= fields@.len(),
                text_pairs(texts@) == scalar_fields(fields@.take(j as int)),
            decreases fields@.len() - j,
        {
            assert(fields@.take(j + 1).drop_last() =~= fields@.take(j as int));
            let ghost before = texts@;
            match scalar_text(&fields[j].1) {
                Some(text) => {
                    texts.push((fields[j].0.clone(), text));
                    assert(text_pairs(texts@) =~= text_pairs(before).push((fields@[j as int].0@, text@)));
                },
                None => {},
            }
            j += 1;
        }
        assert(fields@.take(j as int) =~= fields@);
    } else {
        assert(text_pairs(texts@) =~= Seq::<(Seq<char>, Seq<char>)>::empty());
    }
    texts
}

/// The bounds of a `For` loop whose start, end and step (one when omitted) are plain
/// integers (see `plain_value`); `None` otherwise.
pub open spec fn for_bounds(
    runtime: Runtime,
    rows: Seq<Seq<Seq<char>>>,
    start: Expression,
    end: Expression,
    step: Option<Expression>,
) -> Option<(int, int, int)> {
    match (plain_value(runtime, rows, start), plain_value(runtime, rows, end)) {
        (Some(Value::Integer(a)), Some(Value::Integer(z))) => match step {
            None => Some((a as int, z as int, 1)),
            Some(expression) => match plain_value(runtime, rows, expression) {
                Some(Value::Integer(s)) => Some((a as int, z as int, s as int)),
                _ => None,
            },
        },
        _ => None,
    }
}

/// `after` is `before` with one more event, recording that `condition` came out `result`.
pub open spec fn condition_recorded(before: Runtime, condition: Condition, result: bool, after: Runtime) -> bool {
    &&& after.scopes == before.scopes
    &&& after.objects == before.objects
    &&& after.method_context == before.method_context
    &&& one_event_added(before.events@, after.events@)
    &&& after.events@.last() matches ExecutionEvent::ConditionEvaluated { condition: c, result: r }
    &&& same_condition(condition, c)
    &&& r == result
}

/// `scope` binds each of `parameters`, lower-cased, to the value at the same place, as a
/// variable, and holds nothing else.
pub open spec fn parameters_bound(scope: Seq<(String, Binding)>, parameters: Seq<String>, values: Seq<Value>) -> bool {
    &&& scope.len() == parameters.len()
    &&& values.len() == parameters.len()
    &&& forall|i: int|
        0 <= i < scope.len() ==> (#[trigger] scope[i]).0@ == lower_seq(parameters[i]@) && scope[i].1 == (Binding {
            value: values[i],
            kind: DeclarationKind::Var,
        })
}

/// `frame` is `outer` with one more scope, binding `parameters` to `values` (see
/// `parameters_bound`).
pub open spec fn frame_entered(outer: Runtime, parameters: Seq<String>, values: Seq<Value>, frame: Runtime) -> bool {
    &&& frame.scopes@.len() == outer.scopes@.len() + 1
    &&& forall|s: int| 0 <= s < outer.scopes@.len() ==> #[trigger] frame.scopes@[s] == outer.scopes@[s]
    &&& parameters_bound(frame.scopes@.last()@, parameters, values)
    &&& frame.objects == outer.objects
    &&& frame.events == outer.events
    &&& frame.method_context == outer.method_context
}

/// What a call gives back from the run of its body: nothing when the body ran to its end,
/// the returned value when it returned, its error when it failed.
pub open spec fn returned(flow: Result<Flow, ExecutionError>) -> Result<Option<Value>, ExecutionError> {
    match flow {
        Ok(Flow::Continue) => Ok(None),
        Ok(Flow::Return(value)) => Ok(value),
        Err(error) => Err(error),
    }
}

/// A call of the user function `name` (the first of `functions` so named, up to ASCII case)
/// with `arguments`, from `before`, gave `result`: the arguments were evaluated in order
/// (see `arguments_evaluated`), the body ran in a frame binding the parameters to their
/// values (see `frame_entered`, `ran_in_order`), and what it returned is the result (see
/// `returned`), the document left as the body left it.
pub open spec fn function_call_ran(
    functions: Seq<FunctionDefinition>,
    name: Seq<char>,
    arguments: Seq<Expression>,
    before: Runtime,
    doc_before: CsvDocument,
    doc_after: CsvDocument,
    result: Result<Option<Value>, ExecutionError>,
) -> bool {
    exists|
        i: int,
        trace: Seq<(Runtime, CsvDocument)>,
        values: Seq<Value>,
        run: Seq<(Runtime, CsvDocument)>,
        flow: Result<Flow, ExecutionError>,
    |
        #![trigger arguments_evaluated(arguments, trace, values), ran_in_order(functions[i].body@, run, flow)]
        function_named(functions, name, i) && arguments_evaluated(arguments, trace, values) && trace[0] == (
            before,
            doc_before,
        ) && frame_entered(trace.last().0, functions[i].parameters@, values, run[0].0) && run[0].1
            == trace.last().1 && ran_in_order(functions[i].body@, run, flow) && run.last().1 == doc_after
            && returned(flow) == result
}

/// `frame` is `outer` entering a method of `defining_class` on object `object_id`: one
/// more scope, binding the parameters to the values (see `parameters_bound`) and then
/// `self` to the object, as a constant; and one more method context.
pub open spec fn method_frame_entered(
    outer: Runtime,
    parameters: Seq<String>,
    values: Seq<Value>,
    object_id: usize,
    defining_class: Seq<char>,
    frame: Runtime,
) -> bool {
    &&& frame.scopes@.len() == outer.scopes@.len() + 1
    &&& forall|s: int| 0 <= s < outer.scopes@.len() ==> #[trigger] frame.scopes@[s] == outer.scopes@[s]
    &&& frame.scopes@.last()@.len() == parameters.len() + 1
    &&& parameters_bound(frame.scopes@.last()@.drop_last(), parameters, values)
    &&& frame.scopes@.last()@.last().0@ == "self"@
    &&& frame.scopes@.last()@.last().1 == (Binding { value: Value::Object(object_id), kind: DeclarationKind::Const })
    &&& frame.method_context@.len() == outer.method_context@.len() + 1
    &&& forall|k: int| 0 <= k < outer.method_context@.len() ==> #[trigger] frame.method_context@[k] == outer.method_context@[k]
    &&& frame.method_context@.last()@ == defining_class
    &&& frame.objects == outer.objects
    &&& frame.events == outer.events
}

/// The body of `method`, of `defining_class`, ran on object `object_id` with `values` from
/// `before` and gave `result`: in a method frame (see `method_frame_entered`), its
/// statements ran in order, and what it returned is the result (see `returned`).
pub open spec fn method_body_ran(
    method: FunctionDefinition,
    defining_class: Seq<char>,
    object_id: usize,
    values: Seq<Value>,
    before: Runtime,
    doc_before: CsvDocument,
    doc_after: CsvDocument,
    result: Result<Option<Value>, ExecutionError>,
) -> bool {
    exists|run: Seq<(Runtime, CsvDocument)>, flow: Result<Flow, ExecutionError>|
        #[trigger] ran_in_order(method.body@, run, flow) && method_frame_entered(
            before,
            method.parameters@,
            values,
            object_id,
            defining_class,
            run[0].0,
        ) && run[0].1 == doc_before && run.last().1 == doc_after && returned(flow) == result
}

/// Method `m` of class `c` is the one a call of `method_name` on an object of `class_name`
/// runs: the nearest class in the lineage of `class_name` that defines it.
pub open spec fn method_dispatch(classes: Seq<ClassDefinition>, class_name: Seq<char>, method_name: Seq<char>, c: int, m: int) -> bool {
    exists|lineage: Seq<usize>|
        #[trigger] is_lineage(classes, class_name, lineage) && (forall|j: int| 0 <= j < lineage.len() ==> lineage[j] < classes.len())
            && exists|k: int|
            0 <= k < lineage.len() && lineage[k] == c && function_named(classes[c].methods@, method_name, m) && forall|j: int|
                k < j < lineage.len() ==> lacks_method(classes[#[trigger] lineage[j] as int], method_name)
}

/// A call of method `method_name` of an object of `class_name` (object `object_id`) with
/// `arguments`, from `before`, gave `result`: the method is the one dispatched to (see
/// `method_dispatch`), the arguments were evaluated in order (see `arguments_evaluated`)
/// and its body ran on them (see `method_body_ran`).
pub open spec fn method_call_ran(
    classes: Seq<ClassDefinition>,
    class_name: Seq<char>,
    method_name: Seq<char>,
    object_id: usize,
    arguments: Seq<Expression>,
    before: Runtime,
    doc_before: CsvDocument,
    doc_after: CsvDocument,
    result: Result<Option<Value>, ExecutionError>,
) -> bool {
    exists|c: int, m: int, trace: Seq<(Runtime, CsvDocument)>, values: Seq<Value>|
        #![trigger method_dispatch(classes, class_name, method_name, c, m), arguments_evaluated(arguments, trace, values)]
        method_dispatch(classes, class_name, method_name, c, m) && arguments_evaluated(arguments, trace, values)
            && trace[0] == (before, doc_before) && method_body_ran(
            classes[c].methods@[m],
            classes[c].name@,
            object_id,
            values,
            trace.last().0,
            trace.last().1,
            doc_after,
            result,
        )
}

/// What a builtin call gave, as a value or an error.
pub open spec fn builtin_call_outcome(called: Result<Option<Value>, ExecutionError>) -> Result<Value, ExecutionError> {
    match called {
        Ok(Some(value)) => Ok(value),
        Ok(None) => Err(ExecutionError::ReturnOutsideFunction),
        Err(error) => Err(error),
    }
}

/// What a statement that calls a builtin function gives, from what the call gave.
pub open spec fn statement_result(outcome: Result<Value, ExecutionError>) -> Result<Flow, ExecutionError> {
    match outcome {
        Ok(_) => Ok(Flow::Continue),
        Err(error) => Err(error),
    }
}

/// What the transaction statement `which` (see `transaction_builtin`) given `count`
/// arguments does to a document that held `doc_before`.
pub open spec fn transaction_statement(
    which: int,
    count: int,
    doc_before: CsvDocument,
    doc_after: CsvDocument,
    result: Result<Flow, ExecutionError>,
) -> bool {
    if count != 0 {
        &&& result matches Err(ExecutionError::ArgumentCount { name: n, expected, actual })
        &&& n@ == transaction_builtin_name(which)
        &&& expected == 0
        &&& actual == count
        &&& doc_after == doc_before
    } else {
        &&& result is Ok ==> result == Ok::<Flow, ExecutionError>(Flow::Continue)
        &&& result is Err ==> (result matches Err(ExecutionError::Document(DocumentError::Transaction(_))))
        &&& which == 1 ==> {
            &&& result is Ok <==> !doc_before.spec_transaction_active()
            &&& doc_after@ == doc_before@
            &&& doc_after.spec_transaction_active()
            &&& result is Ok ==> doc_after.spec_transaction_base() == doc_before@
        }
        &&& which == 2 ==> {
            &&& result is Ok <==> doc_before.spec_transaction_active()
            &&& doc_after@ == doc_before@
            &&& !doc_after.spec_transaction_active()
        }
        &&& which == 3 ==> {
            &&& result is Ok <==> doc_before.spec_transaction_active()
            &&& result is Ok ==> !doc_after.spec_transaction_active() && doc_after@
                == doc_before.spec_transaction_base()
            &&& result is Err ==> doc_after@ == doc_before@
        }
    }
}

/// What running one statement is known to do (see `Runtime::execute_statement`): its
/// effect (see `statement_effect`) and, for `If` and `For`, which blocks it ran (see
/// `block_step`).
pub open spec fn statement_step(
    before: Runtime,
    doc_before: CsvDocument,
    statement: Statement,
    after: Runtime,
    doc_after: CsvDocument,
    result: Result<Flow, ExecutionError>,
) -> bool {
    &&& statement_effect(before, doc_before, statement, after, doc_after, result)
    &&& block_step(before, doc_before, statement, after, doc_after, result)
}

/// Which blocks an `If` whose condition is plain (see `plain_condition`) or a `For` whose
/// bounds are plain (see `for_bounds`) ran, and in what order: the branch that the
/// condition chose, after the condition was recorded; the loop body once per value of the
/// loop variable. The statements of those blocks are described by their effects (see
/// `block_effects`).
pub open spec fn block_step(
    before: Runtime,
    doc_before: CsvDocument,
    statement: Statement,
    after: Runtime,
    doc_after: CsvDocument,
    result: Result<Flow, ExecutionError>,
) -> bool {
    &&& (statement matches Statement::If { condition, body, else_body } ==> (plain_condition(
                before,
                doc_before@,
                condition,
            ) matches Some(b) ==> exists|mid: Runtime|
                #[trigger] condition_recorded(before, condition, b, mid) && block_effects(
                    mid,
                    doc_before,
                    if b {
                        body@
                    } else {
                        else_body@
                    },
                    after,
                    doc_after,
                    result,
                )))
    &&& (statement matches Statement::For { variable, start, end, step, body } ==> (for_bounds(
                before,
                doc_before@,
                start,
                end,
                step,
            ) matches Some((a, z, s)) ==> if s == 0 {
                &&& result == Err::<Flow, ExecutionError>(ExecutionError::ZeroLoopStep)
                &&& after == before
                &&& doc_after == doc_before
            } else {
                exists|trace: Seq<(Runtime, CsvDocument)>|
                    #[trigger] for_ran(lower_seq(variable@), a, z, s, body@, trace, result) && trace[0] == (
                        before,
                        doc_before,
                    ) && trace.last() == (after, doc_after)
            }))
}

/// What running one statement does, as far as it can be told without looking into the
/// blocks it holds.
pub open spec fn statement_effect(
    before: Runtime,
    doc_before: CsvDocument,
    statement: Statement,
    after: Runtime,
    doc_after: CsvDocument,
    result: Result<Flow, ExecutionError>,
) -> bool {
    &&& (after.wf())
    &&& (doc_after.wf())
    &&& (keeps_frame(before, after))
    &&& (!declares_in_block(seq![statement]) ==> same_names(before.scopes@, after.scopes@))
    &&& (statement matches Statement::Declare { kind, name, value } ==> (!refused_statement(before, statement)
        && result is Ok ==> exists|mid: Runtime, doc_mid: CsvDocument, v: Value|
        #[trigger] expression_evaluated(before, doc_before, value, mid, doc_mid, Ok(v)) && doc_after == doc_mid
            && binding_declared(mid.scopes@, after.scopes@, lower_seq(name@), Binding { value: v, kind })
            && after.objects == mid.objects && one_event_added(mid.events@, after.events@)))
    &&& (statement matches Statement::SetRangeValue { range, value } ==> (result is Ok ==> exists|
        mid: Runtime,
        doc_mid: CsvDocument,
        v: Value,
    |
        #[trigger] expression_evaluated(before, doc_before, value, mid, doc_mid, Ok(v)) && (scalar_text_spec(v)
            matches Some(t) && range_exists(doc_mid@, range) && doc_after@ == fill_range(doc_mid@, range, t))
            && after.scopes == mid.scopes && one_event_added(mid.events@, after.events@)))
    &&& (statement matches Statement::Return { value: Some(expression) } ==> (result matches Ok(flow) ==> exists|
        v: Value,
    |
        #[trigger] expression_evaluated(before, doc_before, expression, after, doc_after, Ok(v)) && flow
            == Flow::Return(Some(v))))
    &&& (statement matches Statement::Return { value } ==> match value {
                None => result == Ok::<Flow, ExecutionError>(Flow::Return(None)) && after == before && doc_after
                    == doc_before,
                Some(expression) => (plain_value(before, doc_before@, expression) matches Some(v) ==> {
                    &&& result == Ok::<Flow, ExecutionError>(Flow::Return(Some(v)))
                    &&& after == before
                    &&& doc_after == doc_before
                }),
            })
    &&& (statement matches Statement::Call { name, arguments } ==> {
                &&& transaction_builtin(name@) != 0 ==> after == before && transaction_statement(
                    transaction_builtin(name@),
                    arguments@.len() as int,
                    doc_before,
                    doc_after,
                    result,
                )
                &&& transaction_builtin(name@) == 0 && builtin_number(name@) != 0 && arguments@.len()
                    != builtin_arity(builtin_number(name@)) ==> {
                    &&& result matches Err(ExecutionError::ArgumentCount { expected, actual, .. })
                    &&& expected == builtin_arity(builtin_number(name@))
                    &&& actual == arguments@.len()
                    &&& after == before
                    &&& doc_after == doc_before
                }
                &&& transaction_builtin(name@) == 0 && builtin_number(name@) != 0 && arguments@.len()
                    == builtin_arity(builtin_number(name@)) && (forall|i: int|
                    0 <= i < arguments@.len() ==> (#[trigger] plain_value(before, doc_before@, arguments@[i])) is Some)
                    ==> exists|outcome: Result<Value, ExecutionError>|
                    #[trigger] builtin_outcome(
                        builtin_number(name@),
                        plain_values(before, doc_before@, arguments@),
                        doc_before,
                        doc_after,
                        outcome,
                    ) && statement_result(outcome) == result
                &&& transaction_builtin(name@) == 0 && builtin_number(name@) != 0 && result is Ok ==> exists|
                    trace: Seq<(Runtime, CsvDocument)>,
                    values: Seq<Value>,
                |
                    #[trigger] arguments_evaluated(arguments@, trace, values) && trace[0] == (before, doc_before)
                        && exists|value: Value|
                        #[trigger] builtin_outcome(
                            builtin_number(name@),
                            values,
                            trace.last().1,
                            doc_after,
                            Ok(value),
                        )
            })
    &&& (refused_statement(before, statement) ==> {
                &&& result matches Err(error)
                &&& refusal_error(before, statement, error)
                &&& after == before
                &&& doc_after == doc_before
            })
    &&& (statement matches Statement::Declare { kind, name, value } ==> (plain_value(before, doc_before@, value) matches Some(
                v,
            ) ==> (!refused_statement(before, statement) ==> {
                &&& result matches Ok(Flow::Continue)
                &&& doc_after == doc_before
                &&& binding_declared(
                    before.scopes@,
                    after.scopes@,
                    lower_seq(name@),
                    Binding { value: v, kind },
                )
                &&& after.objects == before.objects
                &&& after.method_context == before.method_context
                &&& one_event_added(before.events@, after.events@)
                &&& after.events@.last() matches ExecutionEvent::VariableSet { name: n, value: text }
                &&& n@ == name@
                &&& scalar_text_spec(v) matches Some(t) ==> text@ == t
            })))
    &&& (statement matches Statement::Assign { name, value } ==> (plain_value(before, doc_before@, value) matches Some(
                v,
            ) ==> (!refused_statement(before, statement) ==> {
                &&& result matches Ok(Flow::Continue)
                &&& doc_after == doc_before
                &&& binding_assigned(before.scopes@, after.scopes@, lower_seq(name@), v)
                &&& after.objects == before.objects
                &&& after.method_context == before.method_context
                &&& one_event_added(before.events@, after.events@)
                &&& after.events@.last() matches ExecutionEvent::VariableSet { name: n, value: text }
                &&& n@ == name@
                &&& scalar_text_spec(v) matches Some(t) ==> text@ == t
            })))
    &&& (statement matches Statement::SetRangeValue { range, value } ==> (plain_value(
                before,
                doc_before@,
                value,
            ) matches Some(v) ==> (scalar_text_spec(v) matches Some(t) ==> {
                &&& result is Ok <==> range_exists(doc_before@, range)
                &&& result is Ok ==> {
                    &&& doc_after@ == fill_range(doc_before@, range, t)
                    &&& after.scopes == before.scopes
                    &&& one_event_added(before.events@, after.events@)
                    &&& after.events@.last() matches ExecutionEvent::RangeValueSet {
                        range: r,
                        value: text,
                    }
                    &&& r == range
                    &&& text@ == t
                }
                &&& result matches Err(error) ==> {
                    &&& error matches ExecutionError::Document(_)
                    &&& doc_after@ == doc_before@
                    &&& after == before
                }
            })))
}

/// `statements` ran one after the other from the first state of `trace`, each step
/// leading to the next state: every step but the last continued, and the run stopped at the
/// first step that returned or failed, with that step's result, or else ran them all.
pub open spec fn ran_in_order(
    statements: Seq<Statement>,
    trace: Seq<(Runtime, CsvDocument)>,
    result: Result<Flow, ExecutionError>,
) -> bool {
    let k = trace.len() - 1;
    &&& 1 <= trace.len() <= statements.len() + 1
    &&& forall|i: int|
        0 <= i < k && i < statements.len() ==> statement_step(
            #[trigger] trace[i].0,
            trace[i].1,
            statements[i],
            trace[i + 1].0,
            trace[i + 1].1,
            if i == k - 1 && !(result matches Ok(Flow::Continue)) {
                result
            } else {
                Ok(Flow::Continue)
            },
        )
    &&& result matches Ok(Flow::Continue) ==> k == statements.len()
    &&& !(result matches Ok(Flow::Continue)) ==> k >= 1
}

/// `statements` ran from `before` to `after` (see `ran_in_order`).
pub open spec fn statements_ran(
    before: Runtime,
    doc_before: CsvDocument,
    statements: Seq<Statement>,
    after: Runtime,
    doc_after: CsvDocument,
    result: Result<Flow, ExecutionError>,
) -> bool {
    exists|trace: Seq<(Runtime, CsvDocument)>|
        #[trigger] ran_in_order(statements, trace, result) && trace[0] == (before, doc_before) && trace.last() == (
            after,
            doc_after,
        )
}

/// As `ran_in_order`, with each statement described by its effect (see
/// `statement_effect`): `statements` ran one after the other from the first state of `trace`, each step
/// leading to the next state: every step but the last continued, and the run stopped at the
/// first step that returned or failed, with that step's result, or else ran them all.
pub open spec fn effects_in_order(
    statements: Seq<Statement>,
    trace: Seq<(Runtime, CsvDocument)>,
    result: Result<Flow, ExecutionError>,
) -> bool {
    let k = trace.len() - 1;
    &&& 1 <= trace.len() <= statements.len() + 1
    &&& forall|i: int|
        0 <= i < k && i < statements.len() ==> statement_effect(
            #[trigger] trace[i].0,
            trace[i].1,
            statements[i],
            trace[i + 1].0,
            trace[i + 1].1,
            if i == k - 1 && !(result matches Ok(Flow::Continue)) {
                result
            } else {
                Ok(Flow::Continue)
            },
        )
    &&& result matches Ok(Flow::Continue) ==> k == statements.len()
    &&& !(result matches Ok(Flow::Continue)) ==> k >= 1
}

/// `statements` ran from `before` to `after` (see `effects_in_order`).
pub open spec fn block_effects(
    before: Runtime,
    doc_before: CsvDocument,
    statements: Seq<Statement>,
    after: Runtime,
    doc_after: CsvDocument,
    result: Result<Flow, ExecutionError>,
) -> bool {
    exists|trace: Seq<(Runtime, CsvDocument)>|
        #[trigger] effects_in_order(statements, trace, result) && trace[0] == (before, doc_before) && trace.last() == (
            after,
            doc_after,
        )
}

/// A run described step by step is described by the steps' effects too.
pub proof fn lemma_effects_in_order(
    statements: Seq<Statement>,
    trace: Seq<(Runtime, CsvDocument)>,
    result: Result<Flow, ExecutionError>,
)
    requires
        ran_in_order(statements, trace, result),
    ensures
        effects_in_order(statements, trace, result),
{
    let k = trace.len() - 1;
    assert forall|i: int| 0 <= i < k implies statement_effect(
        #[trigger] trace[i].0,
        trace[i].1,
        statements[i],
        trace[i + 1].0,
        trace[i + 1].1,
        if i == k - 1 && !(result matches Ok(Flow::Continue)) {
            result
        } else {
            Ok(Flow::Continue)
        },
    ) by {}
}

/// `inner` is `outer` with one more scope, holding only the loop variable `key` set to
/// `value`.
pub open spec fn loop_scope_pushed(outer: Runtime, key: Seq<char>, value: i64, inner: Runtime) -> bool {
    &&& inner.scopes@.len() == outer.scopes@.len() + 1
    &&& forall|s: int| 0 <= s < outer.scopes@.len() ==> #[trigger] inner.scopes@[s] == outer.scopes@[s]
    &&& inner.scopes@.last()@.len() == 1
    &&& inner.scopes@.last()@[0].0@ == key
    &&& inner.scopes@.last()@[0].1 == Binding { value: Value::Integer(value), kind: DeclarationKind::Var }
    &&& inner.objects == outer.objects
    &&& inner.events == outer.events
    &&& inner.method_context == outer.method_context
}

/// `after` is `inner` with its innermost scope dropped.
pub open spec fn loop_scope_popped(inner: Runtime, after: Runtime) -> bool {
    &&& after.scopes@ == inner.scopes@.drop_last()
    &&& after.objects == inner.objects
    &&& after.events == inner.events
    &&& after.method_context == inner.method_context
}

/// One pass of a `For` body with the loop variable `key` at `value`.
pub open spec fn loop_pass(
    before: Runtime,
    doc_before: CsvDocument,
    key: Seq<char>,
    value: i64,
    body: Seq<Statement>,
    after: Runtime,
    doc_after: CsvDocument,
    result: Result<Flow, ExecutionError>,
) -> bool {
    exists|inner: Runtime, finished: Runtime|
        #![trigger loop_scope_pushed(before, key, value, inner), loop_scope_popped(finished, after)]
        loop_scope_pushed(before, key, value, inner) && block_effects(inner, doc_before, body, finished, doc_after, result)
            && loop_scope_popped(finished, after)
}

/// Whether the loop variable at `value` is still within a loop running to `end` by `step`.
pub open spec fn within_loop(value: int, end: int, step: int) -> bool {
    if step > 0 {
        value <= end
    } else {
        value >= end
    }
}

/// The loop variable's value on pass `i` (counted from 0) of a loop from `start` by `step`.
pub open spec fn pass_value(start: int, step: int, i: int) -> int {
    start + i * step
}

/// Pass `i` of a `For` loop over `key` from `start` by `step` ran `body` with the loop
/// variable at its value, within `end`, from state `trace[i]` to `trace[i + 1]`, and
/// continued.
pub open spec fn pass_continued(
    key: Seq<char>,
    start: int,
    end: int,
    step: int,
    body: Seq<Statement>,
    trace: Seq<(Runtime, CsvDocument)>,
    i: int,
) -> bool {
    &&& within_loop(pass_value(start, step, i), end, step)
    &&& i64::MIN <= pass_value(start, step, i) <= i64::MAX
    &&& loop_pass(
        trace[i].0,
        trace[i].1,
        key,
        pass_value(start, step, i) as i64,
        body,
        trace[i + 1].0,
        trace[i + 1].1,
        Ok(Flow::Continue),
    )
}

/// The first `n` passes of the loop continued (see `pass_continued`).
pub open spec fn passes_continued(
    key: Seq<char>,
    start: int,
    end: int,
    step: int,
    body: Seq<Statement>,
    trace: Seq<(Runtime, CsvDocument)>,
    n: int,
) -> bool {
    forall|i: int| 0 <= i < n ==> #[trigger] pass_continued(key, start, end, step, body, trace, i)
}

/// Passes recorded in a trace stay recorded when the trace grows.
proof fn lemma_passes_extend(
    key: Seq<char>,
    start: int,
    end: int,
    step: int,
    body: Seq<Statement>,
    previous: Seq<(Runtime, CsvDocument)>,
    trace: Seq<(Runtime, CsvDocument)>,
    n: int,
)
    requires
        passes_continued(key, start, end, step, body, previous, n),
        0 <= n < previous.len() <= trace.len(),
        forall|i: int| 0 <= i < previous.len() ==> #[trigger] trace[i] == previous[i],
    ensures
        passes_continued(key, start, end, step, body, trace, n),
{
    assert forall|i: int| 0 <= i < n implies #[trigger] pass_continued(key, start, end, step, body, trace, i) by {
        assert(pass_continued(key, start, end, step, body, previous, i));
        assert(trace[i] == previous[i]);
        assert(trace[i + 1] == previous[i + 1]);
    }
}

/// One more continuing pass adds to those recorded.
proof fn lemma_passes_push(
    key: Seq<char>,
    start: int,
    end: int,
    step: int,
    body: Seq<Statement>,
    trace: Seq<(Runtime, CsvDocument)>,
    n: int,
)
    requires
        passes_continued(key, start, end, step, body, trace, n),
        0 <= n,
        pass_continued(key, start, end, step, body, trace, n),
    ensures
        passes_continued(key, start, end, step, body, trace, n + 1),
{
}

/// A `For` loop over `key` from `start` to `end` by `step` ran its `body` once for each of
/// `start`, `start + step`, ... in turn, as long as the value stays within `end` (the
/// states in between are those of `trace`), and stopped at the first pass that returned or
/// failed, when the value left the range, or when the next value overflowed `i64`.
pub open spec fn for_ran(
    key: Seq<char>,
    start: int,
    end: int,
    step: int,
    body: Seq<Statement>,
    trace: Seq<(Runtime, CsvDocument)>,
    result: Result<Flow, ExecutionError>,
) -> bool {
    let k = trace.len() - 1;
    &&& trace.len() >= 1
    &&& match result {
        Ok(Flow::Continue) => passes_continued(key, start, end, step, body, trace, k) && !within_loop(
            pass_value(start, step, k),
            end,
            step,
        ),
        _ => {
            ||| {
                &&& k >= 1
                &&& passes_continued(key, start, end, step, body, trace, k - 1)
                &&& within_loop(pass_value(start, step, (k - 1)), end, step)
                &&& i64::MIN <= pass_value(start, step, (k - 1)) <= i64::MAX
                &&& loop_pass(
                    trace[k - 1].0,
                    trace[k - 1].1,
                    key,
                    (pass_value(start, step, (k - 1))) as i64,
                    body,
                    trace[k].0,
                    trace[k].1,
                    result,
                )
            }
            ||| {
                &&& result == Err::<Flow, ExecutionError>(ExecutionError::LoopCounterOverflow)
                &&& passes_continued(key, start, end, step, body, trace, k)
                &&& !(i64::MIN <= pass_value(start, step, k) <= i64::MAX)
            }
        },
    }
}

/// The number of a builtin function named `name` (any ASCII case): 1 `Integer`,
/// 2 `Decimal`, 3 `Boolean`, 4 `String`, 5 `CellValue`, 6 `RowCount`, 7 `ColumnCount`,
/// 8 `CellValueAt`, 9 `SetCellValueAt`, 10 `ColumnIndex`, 11 `CellValueByHeader`,
/// 12 `SetCellValueByHeader`; 0 for any other name.
pub open spec fn builtin_number(name: Seq<char>) -> int {
    if eq_ci(name, "integer"@) {
        1
    } else if eq_ci(name, "decimal"@) {
        2
    } else if eq_ci(name, "boolean"@) {
        3
    } else if eq_ci(name, "string"@) {
        4
    } else if eq_ci(name, "cellvalue"@) {
        5
    } else if eq_ci(name, "rowcount"@) {
        6
    } else if eq_ci(name, "columncount"@) {
        7
    } else if eq_ci(name, "cellvalueat"@) {
        8
    } else if eq_ci(name, "setcellvalueat"@) {
        9
    } else if eq_ci(name, "columnindex"@) {
        10
    } else if eq_ci(name, "cellvaluebyheader"@) {
        11
    } else if eq_ci(name, "setcellvaluebyheader"@) {
        12
    } else {
        0
    }
}

/// How many arguments builtin number `code` takes.
pub open spec fn builtin_arity(code: int) -> int {
    if code == 6 || code == 7 {
        0
    } else if code == 8 || code == 11 {
        2
    } else if code == 9 || code == 12 {
        3
    } else {
        1
    }
}

/// `value` as a one-based index that fits in `usize`, if it is one.
pub open spec fn one_based(value: Value) -> Option<int> {
    match value {
        Value::Integer(n) => if 1 <= n <= usize::MAX {
            Some(n as int)
        } else {
            None
        },
        _ => None,
    }
}

/// The cell at zero-based `row` and `column` of `rows`, if it exists.
pub open spec fn cell_at(rows: Seq<Seq<Seq<char>>>, row: int, column: int) -> Option<Seq<char>> {
    if 0 <= row < rows.len() && 0 <= column < rows[row].len() {
        Some(rows[row][column])
    } else {
        None
    }
}

/// What builtin number `code` gives on the evaluated arguments `values`, run against a
/// document that holds `before` and then `after`.
pub open spec fn builtin_outcome(
    code: int,
    values: Seq<Value>,
    before: CsvDocument,
    after: CsvDocument,
    result: Result<Value, ExecutionError>,
) -> bool {
    let rows = before@;
    if code == 1 {
        after == before && (integer_conversion(values[0]) matches Some(n) ==> result == Ok::<
            Value,
            ExecutionError,
        >(Value::Integer(n)))
    } else if code == 2 {
        after == before && (decimal_conversion(values[0]) matches Some(d) ==> result == Ok::<
            Value,
            ExecutionError,
        >(Value::Decimal(d)))
    } else if code == 3 {
        after == before && (boolean_conversion(values[0]) matches Some(b) ==> result == Ok::<
            Value,
            ExecutionError,
        >(Value::Boolean(b)))
    } else if code == 4 {
        after == before && (match scalar_text_spec(values[0]) {
            Some(t) => result matches Ok(Value::Text(s)) && s@ == t,
            None => result matches Err(ExecutionError::ExpectedText { context: c }) && c@ == "String conversion"@,
        })
    } else if code == 5 {
        after == before && (match values[0] {
            Value::Text(reference) => if a1_failure(reference@) is None {
                match cell_at(rows, a1_row(reference@), a1_column(reference@)) {
                    Some(text) => result matches Ok(Value::Text(s)) && s@ == text,
                    None => result matches Err(ExecutionError::MissingCell(m)) && m@ == reference@,
                }
            } else {
                result matches Err(ExecutionError::Document(DocumentError::Reference(error))) && a1_result(
                    reference@,
                    Err(error),
                )
            },
            _ => result matches Err(ExecutionError::ExpectedText { context: c }) && c@ == "CellValue argument"@,
        })
    } else if code == 6 {
        after == before && (rows.len() <= i64::MAX ==> result == Ok::<Value, ExecutionError>(
            Value::Integer(rows.len() as i64),
        ))
    } else if code == 7 {
        after == before && (max_width(rows) <= i64::MAX ==> result == Ok::<Value, ExecutionError>(
            Value::Integer(max_width(rows) as i64),
        ))
    } else if code == 8 {
        after == before && (one_based(values[0]) matches Some(r) ==> (one_based(values[1]) matches Some(c) ==> match cell_at(
            rows,
            r - 1,
            c - 1,
        ) {
            Some(text) => result matches Ok(Value::Text(s)) && s@ == text,
            None => result matches Err(ExecutionError::MissingCell(m)) && m@ == "row "@ + decimal_digits(r as nat)
                + ", "@ + "column"@ + " "@ + decimal_digits(c as nat),
        }))
    } else if code == 9 {
        one_based(values[0]) matches Some(r) ==> (one_based(values[1]) matches Some(c) ==> (scalar_text_spec(
            values[2],
        ) matches Some(t) ==> match cell_at(rows, r - 1, c - 1) {
            Some(_) => result matches Ok(Value::Text(s)) && s@ == t && after@ == rows.update(
                r - 1,
                rows[r - 1].update(c - 1, t),
            ),
            None => result matches Err(ExecutionError::Document(_)) && after@ == rows,
        }))
    } else if code == 10 {
        after == before && (values[0] matches Value::Text(header) ==> {
            let found = header_columns(rows, header@, max_width(rows) as int);
            if found.len() == 1 {
                found[0] < i64::MAX ==> result == Ok::<Value, ExecutionError>(Value::Integer((found[0] + 1) as i64))
            } else {
                result matches Err(ExecutionError::Column(error)) && header_lookup_error(rows, header@, error)
            }
        })
    } else if code == 11 || code == 12 {
        one_based(values[0]) matches Some(r) ==> (values[1] matches Value::Text(header) ==> {
            let found = header_columns(rows, header@, max_width(rows) as int);
            if found.len() == 1 {
                if code == 11 {
                    after == before && (match cell_at(rows, r - 1, found[0] as int) {
                        Some(text) => result matches Ok(Value::Text(s)) && s@ == text,
                        None => result matches Err(ExecutionError::MissingCell(m)) && m@ == "row "@ + decimal_digits(
                            r as nat,
                        ) + ", "@ + "header"@ + " "@ + header@,
                    })
                } else {
                    scalar_text_spec(values[2]) matches Some(t) ==> match cell_at(rows, r - 1, found[0] as int) {
                        Some(_) => result matches Ok(Value::Text(s)) && s@ == t && after@ == rows.update(
                            r - 1,
                            rows[r - 1].update(found[0] as int, t),
                        ),
                        None => result matches Err(ExecutionError::Document(_)) && after@ == rows,
                    }
                }
            } else {
                after == before && (result matches Err(ExecutionError::Column(error)) && header_lookup_error(
                    rows,
                    header@,
                    error,
                ))
            }
        })
    } else {
        false
    }
}

/// What running `program` against a document is known to do: its statements run in order
/// from a fresh runtime (see `ran_in_order`), and the report holds the events recorded and
/// the text of each global variable left at the end; a `Return` outside any function fails.
/// The document stays consistent; a program without statements changes nothing and reports
/// nothing; one that declares nothing reports no variables; a first statement that assigns
/// an undeclared name fails with `UnknownVariable` before anything changes.
pub open spec fn execute_outcome(
    program: Program,
    before: CsvDocument,
    after: CsvDocument,
    result: Result<ExecutionReport, ExecutionError>,
) -> bool {
    &&& after.wf()
    &&& program.statements@.len() == 0 ==> after == before
    &&& program.statements@.len() == 0 ==> (result matches Ok(report) && report.events@.len() == 0
        && report.variables@.len() == 0 && report.object_fields@.len() == 0)
    &&& !declares_in_block(program.statements@) ==> (result matches Ok(report) ==> report.variables@.len()
        == 0 && report.object_fields@.len() == 0)
    &&& program.statements@.len() > 0 ==> (program.statements@[0] matches Statement::Assign {
        name,
        ..
    } ==> {
        &&& result matches Err(ExecutionError::UnknownVariable(n))
        &&& n@ == name@
        &&& after == before
    })
    &&& result matches Ok(report) ==> exists|trace: Seq<(Runtime, CsvDocument)>|
        #[trigger] ran_in_order(program.statements@, trace, Ok(Flow::Continue)) && fresh_runtime(trace[0].0)
            && trace[0].1 == before && trace.last().1 == after && report.events@ == trace.last().0.events@
            && text_pairs(report.variables@) == global_variables(trace.last().0.scopes@[0]@)
    &&& result matches Err(error) ==> exists|trace: Seq<(Runtime, CsvDocument)>|
        #[trigger] fresh_runtime(trace[0].0) && trace[0].1 == before && trace.last().1 == after && (ran_in_order(
            program.statements@,
            trace,
            Err(error),
        ) || (error == ExecutionError::ReturnOutsideFunction && exists|value: Option<Value>|
            ran_in_order(program.statements@, trace, Ok(Flow::Return(value)))))
}

/// A runtime as a program starts: one empty global scope, no objects, no events, outside
/// any method.
pub open spec fn fresh_runtime(runtime: Runtime) -> bool {
    &&& runtime.scopes@.len() == 1
    &&& runtime.scopes@[0]@.len() == 0
    &&& runtime.objects@.len() == 0
    &&& runtime.events@.len() == 0
    &&& runtime.method_context@.len() == 0
}

/// The global variables holding a text, number or Boolean, with their text, in the order
/// they were declared.
pub open spec fn global_variables(scope: Seq<(String, Binding)>) -> Seq<(Seq<char>, Seq<char>)>
    decreases scope.len(),
{
    if scope.len() == 0 {
        Seq::empty()
    } else {
        let before = global_variables(scope.drop_last());
        match scalar_text_spec(scope.last().1.value) {
            Some(text) => before.push((scope.last().0@, text)),
            None => before,
        }
    }
}

/// Runs a parsed program against `document`. The report lists the events in the order
/// they happened and what the global scope held at the end. A program without statements
/// records nothing and leaves the document as it was.
pub fn execute(program: &Program, document: &mut CsvDocument) -> (result: Result<ExecutionReport, ExecutionError>)
    requires
        old(document).wf(),
    ensures
        execute_outcome(*program, *old(document), *final(document), result),
{
    let mut runtime = Runtime {
        scopes: vec![Vec::new()],
        objects: Vec::new(),
        events: Vec::new(),
        method_context: Vec::new(),
    };
    proof {
        if program.statements@.len() > 0 {
            if let Statement::Assign { name, .. } = program.statements@[0] {
                assert forall|s: int| 0 <= s < runtime.scopes@.len() implies !scope_binds(
                    #[trigger] runtime.scopes@[s]@,
                    lower_seq(name@),
                ) by {
                    assert(runtime.scopes@[s]@.len() == 0);
                }
                lemma_visible_none(runtime, lower_seq(name@));
            }
        }
    }
    let ghost start = runtime.scopes@;
    let ghost initial = (runtime, *document);
    assert(fresh_runtime(runtime));
    let flow = match runtime.execute_statements(program, document, &program.statements, 0) {
        Ok(flow) => flow,
        Err(error) => {
            proof {
                let trace = choose|trace: Seq<(Runtime, CsvDocument)>|
                    #[trigger] ran_in_order(program.statements@, trace, Err::<Flow, ExecutionError>(error))
                        && trace[0] == initial && trace.last() == (runtime, *document);
                assert(ran_in_order(program.statements@, trace, Err::<Flow, ExecutionError>(error)));
                assert(fresh_runtime(trace[0].0));
            }
            return Err(error);
        },
    };
    let ghost trace = choose|trace: Seq<(Runtime, CsvDocument)>|
        #[trigger] ran_in_order(program.statements@, trace, Ok::<Flow, ExecutionError>(flow)) && trace[0]
            == initial && trace.last() == (runtime, *document);
    proof {
        if !declares_in_block(program.statements@) {
            assert(scope_names(runtime.scopes@[0]) == scope_names(start[0]));
            assert(scope_names(runtime.scopes@[0]).len() == runtime.scopes@[0]@.len());
        }
    }
    match flow {
        Flow::Continue => {},
        Flow::Return(value) => {
            proof {
                assert(ran_in_order(program.statements@, trace, Ok::<Flow, ExecutionError>(Flow::Return(value))));
                assert(ran_in_order(
                    program.statements@,
                    trace,
                    Err::<Flow, ExecutionError>(ExecutionError::ReturnOutsideFunction),
                ) || (ExecutionError::ReturnOutsideFunction == ExecutionError::ReturnOutsideFunction
                    && exists|v: Option<Value>| ran_in_order(program.statements@, trace, Ok(Flow::Return(v)))));
                assert(fresh_runtime(trace[0].0));
            }
            return Err(ExecutionError::ReturnOutsideFunction);
        },
    }
    let mut variables: Vec<(String, String)> = Vec::new();
    let mut object_fields: Vec<(String, Vec<(String, String)>)> = Vec::new();
    let global = &runtime.scopes[0];
    let mut j: usize = 0;
    proof {
        assert(global@.take(0) =~= Seq::<(String, Binding)>::empty());
        assert(text_pairs(variables@) =~= Seq::<(Seq<char>, Seq<char>)>::empty());
    }
    while j < global.len()
        invariant
            j <= global@.len(),
            global@.len() == 0 ==> variables@.len() == 0 && object_fields@.len() == 0,
            text_pairs(variables@) == global_variables(global@.take(j as int)),
        decreases global@.len() - j,
    {
        proof {
            assert(global@.take(j + 1).drop_last() =~= global@.take(j as int));
        }
        let (name, binding) = &global[j];
        let ghost before = variables@;
        match &binding.value {
            Value::Object(id) => {
                object_fields.push((name.clone(), object_field_texts(&runtime, *id)));
            },
            value => match scalar_text(value) {
                Some(text) => {
                    let entry = (name.clone(), text);
                    variables.push(entry);
                    proof {
                        assert(text_pairs(variables@) =~= text_pairs(before).push((entry.0@, entry.1@)));
                    }
                },
                None => {},
            },
        }
        j += 1;
    }
    proof {
        assert(global@.take(global@.len() as int) =~= global@);
    }
    Ok(ExecutionReport { events: runtime.events, variables, object_fields })
}

} // verus!

