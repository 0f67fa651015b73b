//! A codec for the frames of a text-based messaging protocol of the STOMP
//! family: a command line, header lines, an empty line, a body, and a null
//! byte.
//!
//! The readers take their bytes from one [`source::ByteSource`], one after
//! the other, and never read past what they deliver. What every function
//! does is stated over byte and character sequences and proved; the
//! modules `roundtrip`, `header`, `body` and `escape` hold what is proved
//! of several functions together.

pub mod scan;
pub mod text;
pub mod utf8;
pub mod escape;
pub mod error;
pub mod command;
pub mod source;
pub mod io;
pub mod line;
pub mod latch;
pub mod order;
pub mod fields;
pub mod header;
pub mod body;
pub mod frame;
pub mod reader;
pub mod roundtrip;
