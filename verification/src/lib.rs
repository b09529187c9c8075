//! A codec for the wire format of PHP's `serialize()` and `unserialize()`,
//! and for the session format built on it.
//!
//! `unserialize` and `session_decode` turn bytes into a tree of `Value`s that
//! borrows from the input; `serialize` and `session_encode` append the bytes
//! of such a tree to a buffer. The decoders accept every byte sequence: what
//! is not a value is answered with a `ParseError` that says what went wrong
//! and where.
//!
//! ```
//! use muesli::{session_decode, session_encode, SessionEntry, Value};
//!
//! let data = vec![
//!     SessionEntry { key: b"foo", value: Value::Integer(42) },
//!     SessionEntry { key: b"bar", value: Value::String(b"baz|qux") },
//! ];
//!
//! let mut session = Vec::new();
//! session_encode(&mut session, &data);
//! assert_eq!(session, b"foo|i:42;bar|s:7:\"baz|qux\";");
//! assert_eq!(session_decode(&session), Ok(data));
//! ```
//!
//! What the functions do is stated in their contracts and proved:
//!
//! - `de::grammar` defines, for every input, what each reader returns; `ser`
//!   defines the bytes that the encoders write.
//! - `roundtrip` proves that decoding undoes encoding.
//! - `canonical` proves that encoding undoes decoding on the inputs that the
//!   encoders can write, and says which inputs these are.

pub mod ascii;
pub mod canonical;
pub mod de;
pub mod error;
pub mod roundtrip;
pub mod ser;
pub mod text;
pub mod value;

pub use de::{session_decode, session_decode_with_depth, unserialize, unserialize_with_depth, DEFAULT_MAX_DEPTH};
pub use error::{ErrorLabel, ParseError, ParseErrorKind};
pub use ser::{serialize, session_encode};
pub use value::{
    ArrayEntry, ArrayKey, Decimal, ObjectProperty, ObjectPropertyVisibility, Session, SessionEntry, Value,
};
