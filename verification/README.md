# Rowly

Rowly is a CSV-first table editor: the CSV file is always the record, and everything
Rowly adds (column type declarations, project manifests, scripts) stays beside it.

This crate is the Rowly library written in Verus. Its behaviour is stated in `requires`
/ `ensures` contracts and proved.

## Layout

- `src/data` — the table of string cells, CSV reading and writing (through `csv`), and
  encoding detection with Shift_JIS conversion (through `chardetng` and `encoding_rs`).
- `src/process` — A1 cell and range references, the editable `CsvDocument` with its undo,
  redo and transaction history, header lookup and column checks, and the column type
  declarations kept in a document's `<csv>.rowly.json` sidecar.
- `src/rowly_dsl` — the Rowly DSL: its syntax tree, parser, values, decimals and
  interpreter.
- `src/project.rs` — `.rwprj` project manifests, project-relative paths and the script
  layout, and the generated init script that persists column types.
- `src/logical_table.rs` — grouping a project's CSV files into logical tables by header.
- `src/rowlyx.rs` — which references of a project are packed into a `.rowlyx` archive, the
  checks on its entries and where they are extracted.
- `src/excel_python.rs` — the requests to and answers from the Excel Python bridge.
- `src/cli.rs`, `src/gui.rs` — command line parsing and the table grid's selection logic.
- `src/json.rs` — the JSON values the sidecars and manifests hold.
- `app/` — the `rowly` program: files, processes, the ZIP container and the conversion
  between JSON text and the library's JSON values (through `serde_json`) around the
  library.

## What this crate does not carry

- The desktop window (drawing the grid and toolbar with `eframe`/`egui`) is not part of
  it; `src/gui.rs` keeps the editor's decisions (selection, editing, status) that the
  window would call.
- Luau scripting (through `mlua`) is not part of it: no Luau scripts run, so the Luau
  sandbox, its memory and instruction limits and its cancellation token are absent. The
  Rowly DSL in `src/rowly_dsl` is the scripting language here.
- The DSL's `Decimal` values are exact fractions within fixed bounds rather than `f64`
  numbers, so `0.1 + 0.2` is exactly `0.3` and values beyond the bounds are refused.
