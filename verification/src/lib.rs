pub mod boundary;
pub mod conf_str;
pub mod error;
pub mod grammar;
pub mod laws;
pub mod params;
pub mod parser;
pub mod peekable2;
pub mod text;

pub use crate::conf_str::ConfStr;
pub use crate::error::{ErrorKind, ParsingError, Position};
pub use crate::params::{Key, Params, Value};
pub use crate::parser::parse_conf_str;
