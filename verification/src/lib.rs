//! Contract ABI codec: typed values to and from the 32-byte-word wire layout,
//! with every function verified against a mathematical model of the format.

pub mod decoder;
pub mod encoder;
pub mod error;
pub mod function;
pub mod param;
pub mod param_type;
pub mod reader;
pub mod signature;
pub mod theorems;
pub mod token;
pub mod word;
pub mod writer;

pub use decoder::decode;
pub use encoder::encode;
pub use error::Error;
pub use function::{Bytes, Function};
pub use param::{Param, ParamIr};
pub use param_type::{Kind, ParamType};
pub use reader::Reader;
pub use signature::short_signature;
pub use token::{Token, Value};
pub use writer::Writer;
