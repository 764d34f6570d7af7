//! Fixed-point ledger quantities: a signed 64-bit amount paired with a
//! currency-like symbol that fixes the decimal precision.
//!
//! The crate provides the value type [`Asset`], its canonical text codec
//! (`to_string` / `from_str`), and a checked arithmetic and comparison set
//! that refuses to combine values carrying different symbols.

pub mod asset;
pub mod codec;
pub mod errors;
pub mod symbol;

pub use asset::Asset;
pub use asset::MAX_AMOUNT;
pub use errors::AssetError;
pub use errors::ParseError;
pub use symbol::Symbol;
pub use symbol::SymbolCode;
