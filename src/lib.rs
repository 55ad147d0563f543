//! A one-directional optical data link: a message is compressed with a
//! Huffman code built from its own symbol frequencies, framed with a byte-sum
//! checksum, and sent as timed light pulses; the receiver classifies pulse
//! durations back into bits, validates the frame and decodes it.
//!
//! - [`huffman_code`]: frequency tables, tree building, code tables,
//!   encoding and decoding.
//! - [`frame`]: the checksum field and the approximate validation of frames.
//! - [`link`]: pulse classification, the receiving state machine and the
//!   transmitter's pulse plan.
use vstd::prelude::*;

pub mod frame;
pub mod huffman_code;
pub mod link;

verus! {

} // verus!
