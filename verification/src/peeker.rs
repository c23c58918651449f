//! Non-consuming access to the next bytes of a stream: header scanning
//! probes a 32-bit window without moving the read position, so a failed
//! sync match can resume from the very next byte.
use vstd::prelude::*;

use crate::EndOfStream;

verus! {

/// The next four bytes of `s` from `p`, as one big-endian value.
pub open spec fn be_u32_at(s: Seq<u8>, p: int) -> u32
    recommends
        0 <= p,
        p + 4 <= s.len(),
{
    ((s[p] as int) * 0x1000000 + (s[p + 1] as int) * 0x10000 + (s[p + 2] as int) * 0x100 + (s[p
        + 3] as int)) as u32
}

/// A byte source whose next four bytes can be read without being consumed.
pub trait Peeker: Sized {
    /// The source is in a state its operations keep it in.
    spec fn inv(&self) -> bool;

    /// The bytes still ahead of the read position.
    spec fn peek_window(&self) -> Seq<u8>;

    /// Reads the next four bytes as one big-endian value and repositions
    /// the source so the same four bytes are returned to the next read.
    /// Calling it again without an intervening read yields the identical
    /// value, the position unchanged both times.
    fn peek_be_u32(&mut self) -> (r: Result<u32, EndOfStream>)
        requires
            old(self).inv(),
        ensures
            *final(self) == *old(self),
            r is Ok <==> old(self).peek_window().len() >= 4,
            r matches Ok(v) ==> v == be_u32_at(old(self).peek_window(), 0),
    ;
}

} // verus!
