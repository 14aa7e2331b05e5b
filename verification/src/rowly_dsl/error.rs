//! Errors of the Rowly DSL and their messages.

use vstd::prelude::*;

use crate::process::column::{column_message, ColumnError};
use crate::process::document::{document_message, DocumentError};
use crate::text::{count_to_string, decimal_digits};

verus! {

/// A line of the program that could not be parsed, with the reason.
#[derive(Debug, Clone, PartialEq, Eq)]
pub struct ParseError {
    pub line: usize,
    pub message: String,
}

/// The message of a parse error.
pub open spec fn parse_message(error: ParseError) -> Seq<char> {
    "Rowly DSL parse error on line "@ + decimal_digits(error.line as nat) + ": "@ + error.message@
}

impl ParseError {
    /// The one-based line number of the offending line.
    pub fn line(&self) -> (line: usize)
        ensures
            line == self.line,
    {
        self.line
    }

    /// The reason the line was refused.
    pub fn message(&self) -> (message: &str)
        ensures
            message@ == self.message@,
    {
        self.message.as_str()
    }

    /// The error's message (see `parse_message`).
    pub fn to_string(&self) -> (text: String)
        ensures
            text@ == parse_message(*self),
    {
        let mut text = String::from_str("Rowly DSL parse error on line ");
        let digits = count_to_string(self.line);
        text.append(digits.as_str());
        text.append(": ");
        text.append(self.message.as_str());
        text
    }
}

#[derive(Debug)]
pub enum ExecutionError {
    Column(ColumnError),
    Document(DocumentError),
    UnknownVariable(String),
    ConstantAssignment(String),
    DuplicateVariable(String),
    UnknownFunction(String),
    UnknownStandardFunction { namespace: String, name: String },
    UnknownClass(String),
    UnknownParentClass { class_name: String, parent: String },
    InheritanceCycle(String),
    MissingCell(String),
    UnknownField { class_name: String, field: String },
    UnknownMethod { class_name: String, method: String },
    SuperOutsideMethod,
    NoSuperClass { class_name: String },
    UnknownSuperMethod { class_name: String, method: String },
    ExpectedObject(String),
    ExpectedText { context: String },
    ExpectedBoolean { context: String },
    Conversion { value_type: String, value: String, target: String },
    IncomparableValues { left_type: String, right_type: String, operator: String },
    IncomparableArithmetic { left_type: String, right_type: String, operator: String },
    InvalidUnaryArithmetic { value_type: String, operator: String },
    DivisionByZero,
    ArithmeticOverflow { operator: String },
    ArgumentCount { name: String, expected: usize, actual: usize },
    MethodArgumentCount { class_name: String, name: String, expected: usize, actual: usize },
    ConstructorArgumentCount { class_name: String, expected: usize, actual: usize },
    MissingReturnValue(String),
    ExpectedInteger { context: String },
    InvalidOneBasedIndex { context: String },
    ZeroLoopStep,
    LoopCounterOverflow,
    ReturnOutsideFunction,
    CallDepthExceeded { limit: usize },
}

/// The message of an execution error.
pub open spec fn execution_message(error: ExecutionError) -> Seq<char> {
    match error {
        ExecutionError::Column(inner) => column_message(inner),
        ExecutionError::Document(inner) => document_message(inner),
        ExecutionError::UnknownVariable(name) => "unknown Rowly DSL variable `"@ + name@ + "`"@,
        ExecutionError::ConstantAssignment(name) => "cannot assign to Rowly DSL constant `"@ + name@ + "`"@,
        ExecutionError::DuplicateVariable(name) => "Rowly DSL variable `"@ + name@ + "` is already declared in this scope"@,
        ExecutionError::UnknownFunction(name) => "unknown Rowly DSL function `"@ + name@ + "`"@,
        ExecutionError::UnknownStandardFunction { namespace, name } => "unknown Rowly DSL standard function `"@ + namespace@ + "."@ + name@ + "`"@,
        ExecutionError::UnknownClass(name) => "unknown Rowly DSL class `"@ + name@ + "`"@,
        ExecutionError::UnknownParentClass { class_name, parent } => "class `"@ + class_name@ + "` extends unknown class `"@ + parent@ + "`"@,
        ExecutionError::InheritanceCycle(name) => "inheritance cycle detected at class `"@ + name@ + "`"@,
        ExecutionError::MissingCell(name) => "cell `"@ + name@ + "` is outside the existing CSV table"@,
        ExecutionError::UnknownField { class_name, field } => "unknown field `"@ + field@ + "` on class `"@ + class_name@ + "`"@,
        ExecutionError::UnknownMethod { class_name, method } => "unknown method `"@ + method@ + "` on class `"@ + class_name@ + "`"@,
        ExecutionError::SuperOutsideMethod => "`Super` can only be used inside a method or constructor"@,
        ExecutionError::NoSuperClass { class_name } => "class `"@ + class_name@ + "` has no parent class for `Super`"@,
        ExecutionError::UnknownSuperMethod { class_name, method } => "unknown super method `"@ + method@ + "` above class `"@ + class_name@ + "`"@,
        ExecutionError::ExpectedObject(name) => "`"@ + name@ + "` is not an object"@,
        ExecutionError::ExpectedText { context } => context@ + " requires a text value"@,
        ExecutionError::ExpectedBoolean { context } => context@ + " requires a Boolean value"@,
        ExecutionError::Conversion { value_type, value, target } => "cannot convert "@ + value_type@ + " value `"@ + value@ + "` to "@ + target@,
        ExecutionError::IncomparableValues { left_type, right_type, operator } => "cannot compare "@ + left_type@ + " and "@ + right_type@ + " with `"@ + operator@ + "`"@,
        ExecutionError::IncomparableArithmetic { left_type, right_type, operator } => "cannot apply arithmetic operator `"@ + operator@ + "` to "@ + left_type@ + " and "@ + right_type@,
        ExecutionError::InvalidUnaryArithmetic { value_type, operator } => "cannot apply unary operator `"@ + operator@ + "` to "@ + value_type@,
        ExecutionError::DivisionByZero => "division by zero"@,
        ExecutionError::ArithmeticOverflow { operator } => "arithmetic overflow while applying `"@ + operator@ + "`"@,
        ExecutionError::ArgumentCount { name, expected, actual } => "function `"@ + name@ + "` expects "@ + decimal_digits(expected as nat) + " arguments but received "@ + decimal_digits(actual as nat),
        ExecutionError::MethodArgumentCount { class_name, name, expected, actual } => "method `"@ + class_name@ + "."@ + name@ + "` expects "@ + decimal_digits(expected as nat) + " arguments but received "@ + decimal_digits(actual as nat),
        ExecutionError::ConstructorArgumentCount { class_name, expected, actual } => "constructor for class `"@ + class_name@ + "` expects "@ + decimal_digits(expected as nat) + " arguments but received "@ + decimal_digits(actual as nat),
        ExecutionError::MissingReturnValue(name) => "call `"@ + name@ + "` was used as a value but did not return one"@,
        ExecutionError::ExpectedInteger { context } => context@ + " requires an Integer value"@,
        ExecutionError::InvalidOneBasedIndex { context } => context@ + " must be at least 1"@,
        ExecutionError::ZeroLoopStep => "For loop Step cannot be zero"@,
        ExecutionError::LoopCounterOverflow => "For loop counter overflowed"@,
        ExecutionError::ReturnOutsideFunction => "`Return` can only be used inside a function or method"@,
        ExecutionError::CallDepthExceeded { limit } => "Rowly DSL call depth exceeded the limit of "@ + decimal_digits(limit as nat),
    }
}

impl ExecutionError {
    /// The error's message (see `execution_message`).
    pub fn to_string(&self) -> (text: String)
        ensures
            text@ == execution_message(*self),
    {
        match self {
            ExecutionError::Column(inner) => {
                inner.to_string()
            },
            ExecutionError::Document(inner) => {
                inner.to_string()
            },
            ExecutionError::UnknownVariable(name) => {
                let mut text = String::new();
                text.append("unknown Rowly DSL variable `");
                text.append(name.as_str());
                text.append("`");
                proof {
                    assert(text@ =~= execution_message(*self));
                }
                text
            },
            ExecutionError::ConstantAssignment(name) => {
                let mut text = String::new();
                text.append("cannot assign to Rowly DSL constant `");
                text.append(name.as_str());
                text.append("`");
                proof {
                    assert(text@ =~= execution_message(*self));
                }
                text
            },
            ExecutionError::DuplicateVariable(name) => {
                let mut text = String::new();
                text.append("Rowly DSL variable `");
                text.append(name.as_str());
                text.append("` is already declared in this scope");
                proof {
                    assert(text@ =~= execution_message(*self));
                }
                text
            },
            ExecutionError::UnknownFunction(name) => {
                let mut text = String::new();
                text.append("unknown Rowly DSL function `");
                text.append(name.as_str());
                text.append("`");
                proof {
                    assert(text@ =~= execution_message(*self));
                }
                text
            },
            ExecutionError::UnknownStandardFunction { namespace, name } => {
                let mut text = String::new();
                text.append("unknown Rowly DSL standard function `");
                text.append(namespace.as_str());
                text.append(".");
                text.append(name.as_str());
                text.append("`");
                proof {
                    assert(text@ =~= execution_message(*self));
                }
                text
            },
            ExecutionError::UnknownClass(name) => {
                let mut text = String::new();
                text.append("unknown Rowly DSL class `");
                text.append(name.as_str());
                text.append("`");
                proof {
                    assert(text@ =~= execution_message(*self));
                }
                text
            },
            ExecutionError::UnknownParentClass { class_name, parent } => {
                let mut text = String::new();
                text.append("class `");
                text.append(class_name.as_str());
                text.append("` extends unknown class `");
                text.append(parent.as_str());
                text.append("`");
                proof {
                    assert(text@ =~= execution_message(*self));
                }
                text
            },
            ExecutionError::InheritanceCycle(name) => {
                let mut text = String::new();
                text.append("inheritance cycle detected at class `");
                text.append(name.as_str());
                text.append("`");
                proof {
                    assert(text@ =~= execution_message(*self));
                }
                text
            },
            ExecutionError::MissingCell(name) => {
                let mut text = String::new();
                text.append("cell `");
                text.append(name.as_str());
                text.append("` is outside the existing CSV table");
                proof {
                    assert(text@ =~= execution_message(*self));
                }
                text
            },
            ExecutionError::UnknownField { class_name, field } => {
                let mut text = String::new();
                text.append("unknown field `");
                text.append(field.as_str());
                text.append("` on class `");
                text.append(class_name.as_str());
                text.append("`");
                proof {
                    assert(text@ =~= execution_message(*self));
                }
                text
            },
            ExecutionError::UnknownMethod { class_name, method } => {
                let mut text = String::new();
                text.append("unknown method `");
                text.append(method.as_str());
                text.append("` on class `");
                text.append(class_name.as_str());
                text.append("`");
                proof {
                    assert(text@ =~= execution_message(*self));
                }
                text
            },
            ExecutionError::SuperOutsideMethod => {
                let mut text = String::new();
                text.append("`Super` can only be used inside a method or constructor");
                proof {
                    assert(text@ =~= execution_message(*self));
                }
                text
            },
            ExecutionError::NoSuperClass { class_name } => {
                let mut text = String::new();
                text.append("class `");
                text.append(class_name.as_str());
                text.append("` has no parent class for `Super`");
                proof {
                    assert(text@ =~= execution_message(*self));
                }
                text
            },
            ExecutionError::UnknownSuperMethod { class_name, method } => {
                let mut text = String::new();
                text.append("unknown super method `");
                text.append(method.as_str());
                text.append("` above class `");
                text.append(class_name.as_str());
                text.append("`");
                proof {
                    assert(text@ =~= execution_message(*self));
                }
                text
            },
            ExecutionError::ExpectedObject(name) => {
                let mut text = String::new();
                text.append("`");
                text.append(name.as_str());
                text.append("` is not an object");
                proof {
                    assert(text@ =~= execution_message(*self));
                }
                text
            },
            ExecutionError::ExpectedText { context } => {
                let mut text = String::new();
                text.append(context.as_str());
                text.append(" requires a text value");
                proof {
                    assert(text@ =~= execution_message(*self));
                }
                text
            },
            ExecutionError::ExpectedBoolean { context } => {
                let mut text = String::new();
                text.append(context.as_str());
                text.append(" requires a Boolean value");
                proof {
                    assert(text@ =~= execution_message(*self));
                }
                text
            },
            ExecutionError::Conversion { value_type, value, target } => {
                let mut text = String::new();
                text.append("cannot convert ");
                text.append(value_type.as_str());
                text.append(" value `");
                text.append(value.as_str());
                text.append("` to ");
                text.append(target.as_str());
                proof {
                    assert(text@ =~= execution_message(*self));
                }
                text
            },
            ExecutionError::IncomparableValues { left_type, right_type, operator } => {
                let mut text = String::new();
                text.append("cannot compare ");
                text.append(left_type.as_str());
                text.append(" and ");
                text.append(right_type.as_str());
                text.append(" with `");
                text.append(operator.as_str());
                text.append("`");
                proof {
                    assert(text@ =~= execution_message(*self));
                }
                text
            },
            ExecutionError::IncomparableArithmetic { left_type, right_type, operator } => {
                let mut text = String::new();
                text.append("cannot apply arithmetic operator `");
                text.append(operator.as_str());
                text.append("` to ");
                text.append(left_type.as_str());
                text.append(" and ");
                text.append(right_type.as_str());
                proof {
                    assert(text@ =~= execution_message(*self));
                }
                text
            },
            ExecutionError::InvalidUnaryArithmetic { value_type, operator } => {
                let mut text = String::new();
                text.append("cannot apply unary operator `");
                text.append(operator.as_str());
                text.append("` to ");
                text.append(value_type.as_str());
                proof {
                    assert(text@ =~= execution_message(*self));
                }
                text
            },
            ExecutionError::DivisionByZero => {
                let mut text = String::new();
                text.append("division by zero");
                proof {
                    assert(text@ =~= execution_message(*self));
                }
                text
            },
            ExecutionError::ArithmeticOverflow { operator } => {
                let mut text = String::new();
                text.append("arithmetic overflow while applying `");
                text.append(operator.as_str());
                text.append("`");
                proof {
                    assert(text@ =~= execution_message(*self));
                }
                text
            },
            ExecutionError::ArgumentCount { name, expected, actual } => {
                let mut text = String::new();
                text.append("function `");
                text.append(name.as_str());
                text.append("` expects ");
                let digits_expected = count_to_string(*expected);
                text.append(digits_expected.as_str());
                text.append(" arguments but received ");
                let digits_actual = count_to_string(*actual);
                text.append(digits_actual.as_str());
                proof {
                    assert(text@ =~= execution_message(*self));
                }
                text
            },
            ExecutionError::MethodArgumentCount { class_name, name, expected, actual } => {
                let mut text = String::new();
                text.append("method `");
                text.append(class_name.as_str());
                text.append(".");
                text.append(name.as_str());
                text.append("` expects ");
                let digits_expected = count_to_string(*expected);
                text.append(digits_expected.as_str());
                text.append(" arguments but received ");
                let digits_actual = count_to_string(*actual);
                text.append(digits_actual.as_str());
                proof {
                    assert(text@ =~= execution_message(*self));
                }
                text
            },
            ExecutionError::ConstructorArgumentCount { class_name, expected, actual } => {
                let mut text = String::new();
                text.append("constructor for class `");
                text.append(class_name.as_str());
                text.append("` expects ");
                let digits_expected = count_to_string(*expected);
                text.append(digits_expected.as_str());
                text.append(" arguments but received ");
                let digits_actual = count_to_string(*actual);
                text.append(digits_actual.as_str());
                proof {
                    assert(text@ =~= execution_message(*self));
                }
                text
            },
            ExecutionError::MissingReturnValue(name) => {
                let mut text = String::new();
                text.append("call `");
                text.append(name.as_str());
                text.append("` was used as a value but did not return one");
                proof {
                    assert(text@ =~= execution_message(*self));
                }
                text
            },
            ExecutionError::ExpectedInteger { context } => {
                let mut text = String::new();
                text.append(context.as_str());
                text.append(" requires an Integer value");
                proof {
                    assert(text@ =~= execution_message(*self));
                }
                text
            },
            ExecutionError::InvalidOneBasedIndex { context } => {
                let mut text = String::new();
                text.append(context.as_str());
                text.append(" must be at least 1");
                proof {
                    assert(text@ =~= execution_message(*self));
                }
                text
            },
            ExecutionError::ZeroLoopStep => {
                let mut text = String::new();
                text.append("For loop Step cannot be zero");
                proof {
                    assert(text@ =~= execution_message(*self));
                }
                text
            },
            ExecutionError::LoopCounterOverflow => {
                let mut text = String::new();
                text.append("For loop counter overflowed");
                proof {
                    assert(text@ =~= execution_message(*self));
                }
                text
            },
            ExecutionError::ReturnOutsideFunction => {
                let mut text = String::new();
                text.append("`Return` can only be used inside a function or method");
                proof {
                    assert(text@ =~= execution_message(*self));
                }
                text
            },
            ExecutionError::CallDepthExceeded { limit } => {
                let mut text = String::new();
                text.append("Rowly DSL call depth exceeded the limit of ");
                let digits_limit = count_to_string(*limit);
                text.append(digits_limit.as_str());
                proof {
                    assert(text@ =~= execution_message(*self));
                }
                text
            },
        }
    }
}

/// Why `run` failed: the program did not parse, or its execution stopped.
#[derive(Debug)]
pub enum DslError {
    Parse(ParseError),
    Execute(ExecutionError),
}

/// The message of a DSL error: that of the error it carries.
pub open spec fn dsl_message(error: DslError) -> Seq<char> {
    match error {
        DslError::Parse(inner) => parse_message(inner),
        DslError::Execute(inner) => execution_message(inner),
    }
}

impl DslError {
    /// The error's message (see `dsl_message`).
    pub fn to_string(&self) -> (text: String)
        ensures
            text@ == dsl_message(*self),
    {
        match self {
            DslError::Parse(inner) => inner.to_string(),
            DslError::Execute(inner) => inner.to_string(),
        }
    }
}

} // verus!
