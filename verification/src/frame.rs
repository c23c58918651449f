//! Locating frames: a non-consuming probe for a header at the current
//! position, and a byte-by-byte scan that resynchronizes on the first
//! position where a valid header starts.
use vstd::prelude::*;

use crate::EndOfStream;
use crate::bitreader::BitReader;
use crate::header::Header;
use crate::header::SYNC_MASK;
use crate::header::spec_parse_header;
use crate::peeker::be_u32_at;

verus! {

/// One frame located in the stream: its parsed header.  The payload stays
/// behind in the stream, to be consumed bit by bit by the subband decoder.
#[derive(Clone, Copy, Debug)]
pub struct MpegFrame {
    pub header: Header,
}

/// A frame header starts at `p` in `s`: four bytes are there and they
/// open with the sync pattern, which is exactly when they parse.
pub open spec fn header_at(s: Seq<u8>, p: int) -> bool {
    &&& 0 <= p
    &&& p + 4 <= s.len()
    &&& be_u32_at(s, p) & SYNC_MASK == SYNC_MASK
}

impl MpegFrame {
    /// Probes the next four bytes for a frame header without moving the
    /// stream unless one is found; a found header is consumed together
    /// with its CRC when one is present.
    pub fn read_from(reader: &mut BitReader) -> (r: Result<Option<MpegFrame>, EndOfStream>)
        requires
            old(reader).wf(),
            old(reader).aligned(),
        ensures
            final(reader).wf(),
            final(reader).aligned(),
            final(reader).stream() == old(reader).stream(),
            r is Err <==> old(reader).byte_pos() + 4 > old(reader).stream().len(),
            r is Err ==> *final(reader) == *old(reader),
            r matches Ok(f) ==> {
                &&& (match f {
                    Some(frame) => Some(frame.header),
                    None => None,
                }) == spec_parse_header(
                    be_u32_at(old(reader).stream(), old(reader).byte_pos() as int),
                )
                &&& (f is None ==> *final(reader) == *old(reader))
                &&& (f matches Some(frame) ==> {
                    &&& frame.header.wf()
                    &&& final(reader).byte_pos() == if old(reader).byte_pos() + (
                    if frame.header.crc {
                        6int
                    } else {
                        4int
                    }) <= old(reader).stream().len() {
                        old(reader).byte_pos() + (if frame.header.crc {
                            6int
                        } else {
                            4int
                        })
                    } else {
                        old(reader).stream().len() as int
                    }
                })
            },
    {
        match Header::read_from(reader) {
            Ok(Some(h)) => Ok(Some(MpegFrame { header: h })),
            Ok(None) => Ok(None),
            Err(e) => Err(e),
        }
    }

    /// Scans for the next frame.  From the current position, each byte
    /// offset is probed in turn; the first position carrying the sync
    /// pattern yields its frame, with the scan position moved past the
    /// header (and CRC, when present).  A stream holding no such position
    /// ends the scan with nothing: end of stream is not an error here.
    pub fn scan(reader: &mut BitReader) -> (r: Option<(MpegFrame, usize)>)
        requires
            old(reader).wf(),
            old(reader).aligned(),
        ensures
            final(reader).wf(),
            final(reader).aligned(),
            final(reader).stream() == old(reader).stream(),
            r matches Some((frame, p)) ==> {
                &&& old(reader).byte_pos() <= p
                &&& header_at(old(reader).stream(), p as int)
                &&& forall|q: int|
                    old(reader).byte_pos() <= q < p ==> !header_at(old(reader).stream(), q)
                &&& Some(frame.header) == spec_parse_header(
                    be_u32_at(old(reader).stream(), p as int),
                )
                &&& frame.header.wf()
                &&& final(reader).byte_pos() == if p + (if frame.header.crc {
                    6int
                } else {
                    4int
                }) <= old(reader).stream().len() {
                    p + (if frame.header.crc {
                        6int
                    } else {
                        4int
                    })
                } else {
                    old(reader).stream().len() as int
                }
            },
            r is None ==> {
                &&& forall|q: int|
                    old(reader).byte_pos() <= q ==> !header_at(old(reader).stream(), q)
                &&& final(reader).byte_pos() == if old(reader).byte_pos() + 4 > old(
                    reader,
                ).stream().len() {
                    old(reader).byte_pos() as int
                } else {
                    old(reader).stream().len() - 3
                }
            },
    {
        proof {
            old(reader).lemma_bits_len();
        }
        loop
            invariant
                reader.wf(),
                reader.aligned(),
                reader.stream() == old(reader).stream(),
                reader.byte_pos() <= reader.stream().len(),
                old(reader).byte_pos() <= reader.byte_pos(),
                old(reader).byte_pos() < reader.byte_pos() ==> reader.byte_pos() + 3
                    <= reader.stream().len(),
                forall|q: int|
                    old(reader).byte_pos() <= q < reader.byte_pos() ==> !header_at(
                        old(reader).stream(),
                        q,
                    ),
            decreases reader.stream().len() - reader.byte_pos(),
        {
            let p: usize = reader.position();
            match Self::read_from(reader) {
                Ok(Some(frame)) => {
                    return Some((frame, p));
                },
                Ok(None) => {
                    reader.skip_bytes(1);
                },
                Err(_) => {
                    return None;
                },
            }
            proof {
                reader.lemma_bits_len();
            }
        }
    }
}

} // verus!
