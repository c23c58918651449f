//! An MPEG Audio Layer I bitstream decoder core: a bit-level reader over an
//! in-memory byte stream, a frame header parser driven by the standard's
//! lookup tables, a byte-granular frame scanner, and the integer part of the
//! Layer I subband decoder (allocation codes, scale-factor codes and raw
//! quantized sample codes).  Floating-point dequantization and all I/O live
//! outside this library.
use vstd::prelude::*;

pub mod bits;
pub mod bitreader;
pub mod frame;
pub mod header;
pub mod layer1;
pub mod peeker;

verus! {

/// The underlying byte source ran out of bytes in the middle of a read.
#[derive(Clone, Copy, Debug, PartialEq, Eq, Structural)]
pub struct EndOfStream;

} // verus!
