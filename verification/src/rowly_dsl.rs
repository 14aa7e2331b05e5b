//! The Rowly DSL: a small BASIC-flavoured language that edits a CSV document.

pub mod ast;
pub mod decimal;
pub mod error;
pub mod parser;
pub mod runtime;
pub mod scan;
pub mod value;

use vstd::prelude::*;

use crate::process::CsvDocument;
use crate::rowly_dsl::parser::{parse_outcome, split_lines, statement_lines};
use crate::rowly_dsl::runtime::execute_outcome;

pub use ast::{
    ArithmeticOperator, ClassDefinition, ColumnSelector, ComparisonOperator, Condition,
    DeclarationKind, ExecutionEvent, ExecutionReport, Expression, FieldDefinition,
    FunctionDefinition, Program, StandardNamespace, Statement, UnaryOperator,
};
pub use error::{DslError, ExecutionError, ParseError};
pub use parser::parse;
pub use runtime::execute;

verus! {

/// Parses `source` and runs it against `document`: a parse error is returned as it came,
/// before anything runs, so the document is left as it was; otherwise the parsed program
/// runs, and its error, if any, is returned as an execution error. A source of blank lines
/// and comments runs, records nothing and changes nothing.
pub fn run(source: &str, document: &mut CsvDocument) -> (result: Result<ExecutionReport, DslError>)
    requires
        old(document).wf(),
    ensures
        final(document).wf(),
        result matches Err(DslError::Parse(_)) ==> *final(document) == *old(document),
        statement_lines(split_lines(source@)).len() == 0 ==> {
            &&& result matches Ok(report)
            &&& report.events@.len() == 0
            &&& *final(document) == *old(document)
        },
        match result {
            Err(DslError::Parse(error)) => parse_outcome(source@, Err(error)),
            Err(DslError::Execute(error)) => exists|program: Program|
                #[trigger] parse_outcome(source@, Ok(program)) && execute_outcome(
                    program,
                    *old(document),
                    *final(document),
                    Err(error),
                ),
            Ok(report) => exists|program: Program|
                #[trigger] parse_outcome(source@, Ok(program)) && execute_outcome(
                    program,
                    *old(document),
                    *final(document),
                    Ok(report),
                ),
        },
{
    let program = match parse(source) {
        Ok(program) => program,
        Err(error) => {
            return Err(DslError::Parse(error));
        },
    };
    let outcome = execute(&program, document);
    assert(parse_outcome(source@, Ok(program)));
    match outcome {
        Ok(report) => Ok(report),
        Err(error) => Err(DslError::Execute(error)),
    }
}

} // verus!
