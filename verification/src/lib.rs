//! Base-58 conversion of byte buffers, parameterised by a validated
//! 58-symbol alphabet, with a checked variant that frames the payload with a
//! double-SHA-256 trailer and an optional version byte.

pub mod alphabet;
pub mod checked;
pub mod codec;
pub mod digits;

pub use alphabet::Alphabet;
pub use alphabet::AlphabetError;
pub use checked::b58decode_check;
pub use checked::b58encode_check;
pub use codec::b58decode;
pub use codec::b58encode;
pub use codec::DecodeError;
