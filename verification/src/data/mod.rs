pub mod csv_io;
pub mod encoding;
pub mod table;

pub use encoding::SourceEncoding;
pub use table::{Table, TableError};
