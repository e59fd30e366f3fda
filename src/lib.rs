pub mod classify;
pub mod error;
pub mod reader;
pub mod text;
pub mod value;

pub use classify::ValueType;
pub use error::Error;
pub use reader::{KeyValuePairRaw, PvlReader, ScanEvent, Symbol, CONTINUATION_INDENT};
pub use value::{Value, ValueUnits};
