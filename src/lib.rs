//! kJSON: an extended JSON dialect with exact big integers, exact decimals,
//! UUIDs and timestamps as native literals, with a parser and a canonical
//! serializer.
pub mod error;
pub mod text;
pub mod decimal;
pub mod time;
pub mod number;
pub mod bigint;
pub mod guid;
pub mod value;
pub mod serializer;
pub mod parser;
pub mod laws;

pub use crate::bigint::BigInt;
pub use crate::decimal::Decimal128;
pub use crate::error::Error;
pub use crate::guid::{uuid_v4, uuid_v7, Uuid};
pub use crate::number::Number;
pub use crate::parser::{parse, Parser};
pub use crate::serializer::{to_string, to_string_pretty, to_string_pretty as serializer_to_string_pretty};
pub use crate::time::{Date, Duration, Instant};
pub use crate::value::{Entry, Object, Value};
