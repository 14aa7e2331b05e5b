pub mod address;
pub mod column;
pub mod document;
pub mod history;
pub mod metadata;
pub mod undo;

pub use address::{CellRange, CellRef, ReferenceError};
pub use column::{
    contains_japanese, ColumnCell, ColumnError, ColumnType, ColumnTypeReport, JapaneseCheckReport,
};
pub use document::{CsvDocument, DocumentError};
pub use metadata::{sidecar_path, ColumnMetadata, MetadataError};
