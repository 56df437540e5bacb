//! Codec for the external term format: a tag-length-value binary
//! representation of structured values, decoded into `Eterm` trees and
//! encoded back into bytes.

pub mod tag;
pub mod term;
pub mod bytes;
pub mod bignum;
pub mod wire;
pub mod decoder;
pub mod encoder;
pub mod laws;

pub use tag::ErlTermTag;
pub use term::{Atom, BigNum, Eterm, List, Pid, Tuple};
pub use wire::{DecodeError, EncodeOptions};
pub use decoder::Decoder;
pub use encoder::Encoder;
