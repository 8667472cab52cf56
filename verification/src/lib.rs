//! Hiding a text message in the lowest bits of the pixel bytes of PPM
//! images, spread over several images, and reading it back.
//!
//! - `bits`: one byte in eight carrier bytes, and back.
//! - `message`: a run of message characters in the pixel bytes of one image,
//!   and reading a message back out of pixel bytes.
//! - `plan`: which run of characters goes into which image.
//! - `output`: the bytes and the name of an encoded image file.
//! - `ordering`: putting messages read from several images back in order.
//! - `error`: the errors of encoding and decoding.
pub mod bits;
pub mod error;
pub mod message;
pub mod ordering;
pub mod output;
pub mod plan;

pub use bits::{bit_at, bit_set_at, decode_character, encode_character, lsb};
pub use error::StegError;
pub use message::{decode_message, decode_terminates, encode_message};
pub use ordering::{arrange_messages, ordering_decode_message};
pub use output::{output_file_name, ppm_file_bytes, PpmHeader};
pub use plan::{available_bytes, plan_encode, EncodeTask};
