//! Decimal text to fixed-point integer conversion, and the classification of ODBC call
//! outcomes into a result with typed errors.
pub mod conversion;
pub mod error;

pub use conversion::decimal_text_to_i128;
pub use error::{DiagnosticRecord, Error};
