//! The command line: which command the arguments ask for.

use vstd::prelude::*;

use crate::process::document::str_equal;

verus! {

/// The sheet an export writes when no sheet name is given.
pub const DEFAULT_EXPORT_SHEET: &'static str = "Sheet1";

/// A command of the `rowly` program.
#[derive(Debug, Clone, PartialEq, Eq)]
pub enum CliCommand {
    /// Print what a CSV file holds.
    Inspect { csv_path: String },
    /// Read a workbook sheet (the active one when no name is given) into a new CSV file.
    ExcelImport { xlsx_path: String, csv_path: String, sheet_name: Option<String> },
    /// Write a CSV file into a workbook sheet.
    ExcelExport { csv_path: String, xlsx_path: String, sheet_name: String },
}

/// The command that `arguments` (the program name left out) ask for, or why they ask
/// for none. A first argument `excel` always starts an Excel subcommand.
pub open spec fn command_for(arguments: Seq<Seq<char>>) -> Result<
    (int, Seq<char>, Seq<char>, Option<Seq<char>>),
    Seq<char>,
> {
    if arguments.len() > 0 && arguments[0] == "excel"@ {
        let rest = arguments.drop_first();
        if rest.len() == 0 {
            Err("expected `excel import` or `excel export`"@)
        } else if rest[0] == "import"@ {
            if rest.len() < 3 || rest.len() > 4 {
                Err("excel import expects <xlsx-path> <csv-path> [sheet-name]"@)
            } else {
                Ok((1, rest[1], rest[2], if rest.len() == 4 { Some(rest[3]) } else { None }))
            }
        } else if rest[0] == "export"@ {
            if rest.len() < 3 || rest.len() > 4 {
                Err("excel export expects <csv-path> <xlsx-path> [sheet-name]"@)
            } else {
                Ok((2, rest[1], rest[2], Some(if rest.len() == 4 { rest[3] } else { "Sheet1"@ })))
            }
        } else {
            Err("expected `excel import` or `excel export`"@)
        }
    } else if arguments.len() == 1 {
        Ok((0, arguments[0], seq![], None))
    } else {
        Err("expected one CSV path or an Excel subcommand"@)
    }
}

/// `command` is the one described by `(kind, first, second, sheet)` of `command_for`.
pub open spec fn command_matches(
    command: CliCommand,
    described: (int, Seq<char>, Seq<char>, Option<Seq<char>>),
) -> bool {
    match command {
        CliCommand::Inspect { csv_path } => described.0 == 0 && csv_path@ == described.1,
        CliCommand::ExcelImport { xlsx_path, csv_path, sheet_name } => {
            &&& described.0 == 1
            &&& xlsx_path@ == described.1
            &&& csv_path@ == described.2
            &&& match sheet_name {
                Some(name) => described.3 == Some(name@),
                None => described.3 is None,
            }
        },
        CliCommand::ExcelExport { csv_path, xlsx_path, sheet_name } => {
            &&& described.0 == 2
            &&& csv_path@ == described.1
            &&& xlsx_path@ == described.2
            &&& described.3 == Some(sheet_name@)
        },
    }
}

/// The command the arguments ask for (see `command_for`).
pub fn parse_command(arguments: &Vec<String>) -> (result: Result<CliCommand, String>)
    ensures
        match result {
            Ok(command) => command_for(arguments@.map_values(|a: String| a@)) matches Ok(described)
                && command_matches(command, described),
            Err(message) => command_for(arguments@.map_values(|a: String| a@)) == Err::<
                (int, Seq<char>, Seq<char>, Option<Seq<char>>),
                Seq<char>,
            >(message@),
        },
{
    let ghost texts = arguments@.map_values(|a: String| a@);
    assert(forall|i: int| 0 <= i < arguments@.len() ==> #[trigger] texts[i] == arguments@[i]@);
    if arguments.len() > 0 && str_equal(arguments[0].as_str(), "excel") {
        let ghost rest = texts.drop_first();
        assert(forall|i: int| 0 <= i < rest.len() ==> #[trigger] rest[i] == arguments@[i + 1]@);
        let count = arguments.len() - 1;
        if count == 0 {
            return Err(String::from_str("expected `excel import` or `excel export`"));
        }
        if str_equal(arguments[1].as_str(), "import") {
            if count < 3 || count > 4 {
                return Err(
                    String::from_str("excel import expects <xlsx-path> <csv-path> [sheet-name]"),
                );
            }
            let sheet_name = if count == 4 {
                Some(arguments[4].clone())
            } else {
                None
            };
            return Ok(
                CliCommand::ExcelImport {
                    xlsx_path: arguments[2].clone(),
                    csv_path: arguments[3].clone(),
                    sheet_name,
                },
            );
        }
        if str_equal(arguments[1].as_str(), "export") {
            if count < 3 || count > 4 {
                return Err(
                    String::from_str("excel export expects <csv-path> <xlsx-path> [sheet-name]"),
                );
            }
            let sheet_name = if count == 4 {
                arguments[4].clone()
            } else {
                String::from_str(DEFAULT_EXPORT_SHEET)
            };
            return Ok(
                CliCommand::ExcelExport {
                    csv_path: arguments[2].clone(),
                    xlsx_path: arguments[3].clone(),
                    sheet_name,
                },
            );
        }
        return Err(String::from_str("expected `excel import` or `excel export`"));
    }
    if arguments.len() == 1 {
        return Ok(CliCommand::Inspect { csv_path: arguments[0].clone() });
    }
    Err(String::from_str("expected one CSV path or an Excel subcommand"))
}

} // verus!
