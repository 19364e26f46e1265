//! Reader and writer for MATLAB level-5 MAT-files: a 128-byte header followed by tagged,
//! eight-byte-aligned data elements, each numeric array optionally zlib-compressed.
pub mod codec;
pub mod convert;
pub mod error;
pub mod float;
pub mod header;
pub mod laws;
pub mod matrix;
pub mod model;
pub mod numeric;
pub mod primitive;
pub mod reader;
pub mod types;
pub mod writer;
pub mod zlib;

pub use error::MatError;
pub use matrix::DataElement;
pub use model::{Array, Header, MatFile};
pub use numeric::NumericData;
pub use primitive::Endianness;
pub use reader::ParseResult;
pub use types::{ArrayFlags, DataType, MatlabType, ParseErrorKind};
