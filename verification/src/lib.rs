//! A memcomparable serialization format.
//!
//! The format encodes values into byte strings whose plain `memcmp` order
//! agrees with the natural order of the values, so that ordered stores can
//! compare keys without decoding them.

mod de;
pub mod decimal;
pub mod enc;
mod error;
pub mod laws;
pub mod order;
mod ser;
mod sink;

pub use de::Deserializer;
pub use decimal::decimal_e_m;
pub use decimal::Decimal;
pub use error::Error;
pub use ser::Serializer;
