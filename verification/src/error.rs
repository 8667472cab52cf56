//! The errors of encoding and decoding.
use vstd::prelude::*;

verus! {

/// Why encoding or decoding failed, with a description.
#[derive(Debug)]
pub enum StegError {
    BadDecode(String),
    BadEncode(String),
}

} // verus!
