//! Low-level CBOR encoding and decoding.
pub mod dec;
pub mod enc;
pub mod header;
pub mod io;
pub mod seg;
pub mod slice;

pub use dec::{Decoder, Error};
pub use enc::Encoder;
pub use header::{FloatBits, Header};
pub use io::{Read, Write};
pub use slice::{EndOfSliceError, SliceReader};
