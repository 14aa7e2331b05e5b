//! The syntax tree of a Rowly DSL program and the report of one run.

use vstd::prelude::*;

use crate::process::document::str_equal;
use crate::process::{CellRange, ColumnType, ColumnTypeReport, JapaneseCheckReport};
use crate::text::{ascii_lower, ascii_upper, lower_seq, to_ascii_lower, string_of};

verus! {

/// A parsed program: class and function definitions and the top-level statements.
#[derive(Debug, PartialEq, Eq)]
pub struct Program {
    pub classes: Vec<ClassDefinition>,
    pub functions: Vec<FunctionDefinition>,
    pub statements: Vec<Statement>,
}

impl Program {
    pub fn classes(&self) -> (classes: &[ClassDefinition])
        ensures
            classes@ == self.classes@,
    {
        self.classes.as_slice()
    }

    pub fn functions(&self) -> (functions: &[FunctionDefinition])
        ensures
            functions@ == self.functions@,
    {
        self.functions.as_slice()
    }

    pub fn statements(&self) -> (statements: &[Statement])
        ensures
            statements@ == self.statements@,
    {
        self.statements.as_slice()
    }
}

/// `Class Name [Extends Parent]` with its fields and methods.
#[derive(Debug, PartialEq, Eq)]
pub struct ClassDefinition {
    pub name: String,
    pub parent: Option<String>,
    pub fields: Vec<FieldDefinition>,
    pub methods: Vec<FunctionDefinition>,
}

impl ClassDefinition {
    pub fn name(&self) -> (name: &str)
        ensures
            name@ == self.name@,
    {
        self.name.as_str()
    }

    pub fn parent(&self) -> (parent: Option<&str>)
        ensures
            match self.parent {
                Some(p) => parent matches Some(q) && q@ == p@,
                None => parent is None,
            },
    {
        match &self.parent {
            Some(p) => Some(p.as_str()),
            None => None,
        }
    }

    pub fn fields(&self) -> (fields: &[FieldDefinition])
        ensures
            fields@ == self.fields@,
    {
        self.fields.as_slice()
    }

    pub fn methods(&self) -> (methods: &[FunctionDefinition])
        ensures
            methods@ == self.methods@,
    {
        self.methods.as_slice()
    }
}

/// `Field name = default`.
#[derive(Debug, PartialEq, Eq)]
pub struct FieldDefinition {
    pub name: String,
    pub default: Expression,
}

impl FieldDefinition {
    pub fn name(&self) -> (name: &str)
        ensures
            name@ == self.name@,
    {
        self.name.as_str()
    }

    pub fn default(&self) -> (default: &Expression)
        ensures
            *default == self.default,
    {
        &self.default
    }
}

/// `Def name(parameters)` with its body.
#[derive(Debug, PartialEq, Eq)]
pub struct FunctionDefinition {
    pub name: String,
    pub parameters: Vec<String>,
    pub body: Vec<Statement>,
}

impl FunctionDefinition {
    pub fn name(&self) -> (name: &str)
        ensures
            name@ == self.name@,
    {
        self.name.as_str()
    }

    pub fn parameters(&self) -> (parameters: &[String])
        ensures
            parameters@ == self.parameters@,
    {
        self.parameters.as_slice()
    }

    pub fn body(&self) -> (body: &[Statement])
        ensures
            body@ == self.body@,
    {
        self.body.as_slice()
    }
}

/// `VAR` (reassignable) or `CONST` (fixed) bindings.
#[derive(Debug, Clone, Copy, PartialEq, Eq, Structural)]
pub enum DeclarationKind {
    Var,
    Const,
}

#[derive(Debug, PartialEq, Eq)]
pub enum Statement {
    If { condition: Condition, body: Vec<Statement>, else_body: Vec<Statement> },
    For {
        variable: String,
        start: Expression,
        end: Expression,
        step: Option<Expression>,
        body: Vec<Statement>,
    },
    Declare { kind: DeclarationKind, name: String, value: Expression },
    Assign { name: String, value: Expression },
    Return { value: Option<Expression> },
    Call { name: String, arguments: Vec<Expression> },
    MethodCall { target: String, name: String, arguments: Vec<Expression> },
    SetField { target: String, field: String, value: Expression },
    SetRangeValue { range: CellRange, value: Expression },
    ValidateColumnType { selector: ColumnSelector, column_type: ColumnType },
    CheckJapanese { selector: ColumnSelector },
}

#[derive(Debug, Clone, Copy, PartialEq, Eq, Structural)]
pub enum UnaryOperator {
    Negate,
}

#[derive(Debug, Clone, Copy, PartialEq, Eq, Structural)]
pub enum ArithmeticOperator {
    Add,
    Subtract,
    Multiply,
    Divide,
}

/// The namespaces of the standard functions `Text.*`, `Number.*` and `Boolean.*`.
#[derive(Debug, Clone, Copy, PartialEq, Eq, Structural)]
pub enum StandardNamespace {
    Text,
    Number,
    Boolean,
}

#[derive(Debug, PartialEq, Eq)]
pub enum Expression {
    Literal(String),
    Unary { operator: UnaryOperator, operand: Box<Expression> },
    Arithmetic { left: Box<Expression>, operator: ArithmeticOperator, right: Box<Expression> },
    Variable(String),
    Call { name: String, arguments: Vec<Expression> },
    StandardCall { namespace: StandardNamespace, name: String, arguments: Vec<Expression> },
    New { class_name: String, arguments: Vec<Expression> },
    Field { target: String, field: String },
    MethodCall { target: String, name: String, arguments: Vec<Expression> },
}

#[derive(Debug, Clone, Copy, PartialEq, Eq, Structural)]
pub enum ComparisonOperator {
    Equal,
    NotEqual,
    Less,
    LessOrEqual,
    Greater,
    GreaterOrEqual,
}

#[derive(Debug, PartialEq, Eq)]
pub enum Condition {
    ColumnExists { selector: ColumnSelector },
    ColumnTitleEquals { selector: ColumnSelector, expected: Expression },
    Compare { left: Expression, operator: ComparisonOperator, right: Expression },
    Expression(Expression),
    Not(Box<Condition>),
    And(Box<Condition>, Box<Condition>),
    Or(Box<Condition>, Box<Condition>),
}

/// A column picked by zero-based position or by header text.
#[derive(Debug, Clone, PartialEq, Eq)]
pub enum ColumnSelector {
    Index(usize),
    Header(String),
}

/// What one run did: its events in order, and the global variables and object fields
/// (keyed by lower-cased name) that it left behind.
#[derive(Debug, PartialEq, Eq)]
pub struct ExecutionReport {
    pub events: Vec<ExecutionEvent>,
    pub variables: Vec<(String, String)>,
    pub object_fields: Vec<(String, Vec<(String, String)>)>,
}

/// Whether `key` is a lower-cased name equal to `name` up to ASCII case.
pub open spec fn key_matches(key: Seq<char>, name: Seq<char>) -> bool {
    key == lower_seq(name)
}

/// Position of the first entry whose key is `key`, if any.
fn find_key<V>(entries: &Vec<(String, V)>, key: &Vec<char>) -> (found: Option<usize>)
    ensures
        match found {
            Some(i) => i < entries@.len() && entries@[i as int].0@ == key@ && forall|j: int|
                0 <= j < i ==> entries@[j].0@ != key@,
            None => forall|j: int| 0 <= j < entries@.len() ==> entries@[j].0@ != key@,
        },
{
    let mut i: usize = 0;
    while i < entries.len()
        invariant
            i <= entries@.len(),
            forall|j: int| 0 <= j < i ==> entries@[j].0@ != key@,
        decreases entries@.len() - i,
    {
        if chars_equal_str(key, entries[i].0.as_str()) {
            return Some(i);
        }
        i += 1;
    }
    None
}

/// Whether the characters of `chars` are exactly those of `text`.
pub fn chars_equal_str(chars: &Vec<char>, text: &str) -> (equal: bool)
    ensures
        equal == (chars@ == text@),
{
    let other = string_of(chars.as_slice());
    str_equal(other.as_str(), text)
}

/// The characters of `name`, lower-cased in ASCII.
pub fn lower_chars(name: &str) -> (lowered: Vec<char>)
    ensures
        lowered@ == lower_seq(name@),
{
    let mut lowered: Vec<char> = Vec::new();
    for c in it: name.chars()
        invariant
            it.seq() == name@,
            lowered@ == lower_seq(name@.take(it.index() as int)),
    {
        let ghost before = name@.take(it.index() as int);
        lowered.push(to_ascii_lower(c));
        proof {
            assert(name@.take(it.index() as int + 1) =~= before.push(c));
            assert(lowered@ =~= lower_seq(before.push(c)));
        }
    }
    assert(name@.take(name@.len() as int) =~= name@);
    lowered
}

/// The canonical (ASCII lower-cased) form of an identifier.
pub fn normalize_identifier(identifier: &str) -> (normalized: String)
    ensures
        normalized@ == lower_seq(identifier@),
{
    let lowered = lower_chars(identifier);
    string_of(lowered.as_slice())
}

/// A report finds a variable by name without regard to ASCII case: a name, its ASCII
/// upper-cased form and its ASCII lower-cased form match the same keys (see
/// `ExecutionReport::variable`).
pub proof fn lemma_variable_names_ignore_case(name: Seq<char>, key: Seq<char>)
    ensures
        key_matches(key, name.map_values(|c: char| ascii_upper(c))) == key_matches(key, name),
        key_matches(key, lower_seq(name)) == key_matches(key, name),
{
    let upper = name.map_values(|c: char| ascii_upper(c));
    assert forall|i: int| 0 <= i < name.len() implies #[trigger] lower_seq(upper)[i] == lower_seq(name)[i] by {
        let c = name[i];
        assert(upper[i] == ascii_upper(c));
        if 'a' <= c && c <= 'z' {
            assert(ascii_upper(c) as u32 == c as u32 - 32);
        }
    }
    assert(lower_seq(upper) =~= lower_seq(name));
    assert(lower_seq(lower_seq(name)) =~= lower_seq(name));
}

impl ExecutionReport {
    pub fn events(&self) -> (events: &[ExecutionEvent])
        ensures
            events@ == self.events@,
    {
        self.events.as_slice()
    }

    /// The final text of the global variable `name` (matched up to ASCII case), if the run
    /// left a scalar there: that of the first entry whose key matches. The report's variables
    /// are those of the global scope when the program ended (see `execute_outcome`), so loop
    /// variables and the locals of functions and methods are never among them.
    pub fn variable(&self, name: &str) -> (value: Option<&str>)
        ensures
            match value {
                Some(v) => exists|i: int|
                    0 <= i < self.variables@.len() && key_matches(#[trigger] self.variables@[i].0@, name@)
                        && self.variables@[i].1@ == v@ && forall|j: int|
                        0 <= j < i ==> !key_matches(self.variables@[j].0@, name@),
                None => forall|i: int|
                    0 <= i < self.variables@.len() ==> !key_matches(#[trigger] self.variables@[i].0@, name@),
            },
    {
        let key = lower_chars(name);
        match find_key(&self.variables, &key) {
            Some(i) => Some(self.variables[i].1.as_str()),
            None => None,
        }
    }

    /// The final text of `field` on the object held by the global variable `variable`.
    pub fn object_field(&self, variable: &str, field: &str) -> (value: Option<&str>)
        ensures
            match value {
                Some(v) => exists|i: int, j: int|
                    0 <= i < self.object_fields@.len() && key_matches(#[trigger] self.object_fields@[i].0@, variable@)
                        && 0 <= j < self.object_fields@[i].1@.len() && key_matches(
                        #[trigger] self.object_fields@[i].1@[j].0@,
                        field@,
                    ) && self.object_fields@[i].1@[j].1@ == v@,
                None => forall|i: int|
                    0 <= i < self.object_fields@.len() && key_matches(#[trigger] self.object_fields@[i].0@, variable@)
                        ==> forall|j: int|
                        0 <= j < self.object_fields@[i].1@.len() ==> !key_matches(
                        #[trigger] self.object_fields@[i].1@[j].0@,
                        field@,
                    ),
            },
    {
        let variable_key = lower_chars(variable);
        let field_key = lower_chars(field);
        let mut i: usize = 0;
        while i < self.object_fields.len()
            invariant
                i <= self.object_fields@.len(),
                variable_key@ == lower_seq(variable@),
                field_key@ == lower_seq(field@),
                forall|k: int|
                    0 <= k < i && key_matches(#[trigger] self.object_fields@[k].0@, variable@)
                        ==> forall|j: int|
                        0 <= j < self.object_fields@[k].1@.len() ==> !key_matches(
                        #[trigger] self.object_fields@[k].1@[j].0@,
                        field@,
                    ),
            decreases self.object_fields@.len() - i,
        {
            if chars_equal_str(&variable_key, self.object_fields[i].0.as_str()) {
                match find_key(&self.object_fields[i].1, &field_key) {
                    Some(j) => {
                        return Some(self.object_fields[i].1[j].1.as_str());
                    },
                    None => {},
                }
            }
            i += 1;
        }
        None
    }
}

#[derive(Debug, PartialEq, Eq)]
pub enum ExecutionEvent {
    ConditionEvaluated { condition: Condition, result: bool },
    VariableSet { name: String, value: String },
    ObjectCreated { class_name: String },
    FieldSet { target: String, field: String, value: String },
    FunctionCalled { name: String, arguments: Vec<String>, return_value: Option<String> },
    MethodCalled {
        class_name: String,
        name: String,
        arguments: Vec<String>,
        return_value: Option<String>,
    },
    RangeValueSet { range: CellRange, value: String },
    ColumnTypeChecked { selector: ColumnSelector, report: ColumnTypeReport },
    JapaneseChecked { selector: ColumnSelector, report: JapaneseCheckReport },
}

/// The size of an expression: one per node.
pub open spec fn expr_size(expression: Expression) -> nat
    decreases expression,
{
    match expression {
        Expression::Unary { operand, .. } => 1 + expr_size(*operand),
        Expression::Arithmetic { left, right, .. } => 1 + expr_size(*left) + expr_size(*right),
        Expression::Call { arguments, .. } => 1 + exprs_size(arguments@),
        Expression::StandardCall { arguments, .. } => 1 + exprs_size(arguments@),
        Expression::New { arguments, .. } => 1 + exprs_size(arguments@),
        Expression::MethodCall { arguments, .. } => 1 + exprs_size(arguments@),
        _ => 1,
    }
}

/// The size of a list of expressions: their sizes, plus one per entry.
pub open spec fn exprs_size(expressions: Seq<Expression>) -> nat
    decreases expressions,
{
    if expressions.len() == 0 {
        0
    } else {
        exprs_size(expressions.drop_last()) + expr_size(expressions.last()) + 1
    }
}

/// The size of a condition: one per node, plus the sizes of its expressions.
pub open spec fn cond_size(condition: Condition) -> nat
    decreases condition,
{
    match condition {
        Condition::ColumnExists { .. } => 1,
        Condition::ColumnTitleEquals { expected, .. } => 1 + expr_size(expected),
        Condition::Compare { left, right, .. } => 1 + expr_size(left) + expr_size(right),
        Condition::Expression(expression) => 1 + expr_size(expression),
        Condition::Not(inner) => 1 + cond_size(*inner),
        Condition::And(left, right) => 1 + cond_size(*left) + cond_size(*right),
        Condition::Or(left, right) => 1 + cond_size(*left) + cond_size(*right),
    }
}

pub open spec fn optional_expr_size(expression: Option<Expression>) -> nat {
    match expression {
        Some(e) => expr_size(e),
        None => 0,
    }
}

/// The size of a statement: one, plus the sizes of its parts.
pub open spec fn stmt_size(statement: Statement) -> nat
    decreases statement,
{
    match statement {
        Statement::If { condition, body, else_body } => 1 + cond_size(condition) + stmts_size(body@)
            + stmts_size(else_body@),
        Statement::For { start, end, step, body, .. } => 1 + expr_size(start) + expr_size(end)
            + optional_expr_size(step) + stmts_size(body@),
        Statement::Declare { value, .. } => 1 + expr_size(value),
        Statement::Assign { value, .. } => 1 + expr_size(value),
        Statement::Return { value } => 1 + optional_expr_size(value),
        Statement::Call { arguments, .. } => 1 + exprs_size(arguments@),
        Statement::MethodCall { arguments, .. } => 1 + exprs_size(arguments@),
        Statement::SetField { value, .. } => 1 + expr_size(value),
        Statement::SetRangeValue { value, .. } => 1 + expr_size(value),
        _ => 1,
    }
}

/// The size of a block: the sizes of its statements, plus one per statement.
pub open spec fn stmts_size(statements: Seq<Statement>) -> nat
    decreases statements,
{
    if statements.len() == 0 {
        0
    } else {
        stmts_size(statements.drop_last()) + stmt_size(statements.last()) + 1
    }
}

/// An entry of a list is smaller than the list.
pub proof fn lemma_exprs_size_element(expressions: Seq<Expression>, i: int)
    requires
        0 <= i < expressions.len(),
    ensures
        expr_size(expressions[i]) < exprs_size(expressions),
    decreases expressions.len(),
{
    if i < expressions.len() - 1 {
        lemma_exprs_size_element(expressions.drop_last(), i);
    }
}

/// A statement of a block is smaller than the block.
pub proof fn lemma_stmts_size_element(statements: Seq<Statement>, i: int)
    requires
        0 <= i < statements.len(),
    ensures
        stmt_size(statements[i]) < stmts_size(statements),
    decreases statements.len(),
{
    if i < statements.len() - 1 {
        lemma_stmts_size_element(statements.drop_last(), i);
    }
}

} // verus!
