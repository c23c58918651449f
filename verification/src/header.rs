//! The 32-bit MPEG audio frame header: its bit layout, the
//! version/layer-dependent lookup tables for bitrate, sample rate and
//! samples per frame, and the frame byte size derived from them.
use vstd::prelude::*;

use crate::EndOfStream;
use crate::bitreader::BitReader;
use crate::peeker::Peeker;
use crate::peeker::be_u32_at;

verus! {

/// The top 11 bits of a frame header: the sync pattern, all ones.
pub const SYNC_MASK: u32 = 0xffe00000;

#[derive(Clone, Copy, Debug, PartialEq, Eq, Structural)]
#[allow(non_camel_case_types)]
pub enum MpegVersion {
    MPEG1_0,
    MPEG2_0,
    MPEG2_5,
    MPEGReserved,
}

#[derive(Clone, Copy, Debug, PartialEq, Eq, Structural)]
pub enum MpegLayer {
    LayerI,
    LayerII,
    LayerIII,
    LayerReserved,
}

/// The version encoded by the 2-bit field at bits 19-20 of the header.
pub open spec fn spec_mpeg_version(code: u32) -> MpegVersion {
    if code == 0 {
        MpegVersion::MPEG2_5
    } else if code == 2 {
        MpegVersion::MPEG2_0
    } else if code == 3 {
        MpegVersion::MPEG1_0
    } else {
        MpegVersion::MPEGReserved
    }
}

/// The layer encoded by the 2-bit field at bits 17-18 of the header.
pub open spec fn spec_mpeg_layer(code: u32) -> MpegLayer {
    if code == 3 {
        MpegLayer::LayerI
    } else if code == 2 {
        MpegLayer::LayerII
    } else if code == 1 {
        MpegLayer::LayerIII
    } else {
        MpegLayer::LayerReserved
    }
}

/// The bitrate in kbit/s named by a 4-bit code for the given version and
/// layer, per the standard's tables.  Code 0 is the free-format code and
/// code 15 is reserved: both resolve to no bitrate, as does any code under
/// a reserved version or layer.
pub open spec fn spec_mpeg_bitrate(v: MpegVersion, l: MpegLayer, code: u32) -> Option<u32> {
    if code == 0 || code >= 15 {
        None
    } else {
        match (v, l) {
            (MpegVersion::MPEG1_0, MpegLayer::LayerI) => Some((32 * code) as u32),
            (MpegVersion::MPEG1_0, MpegLayer::LayerII) => Some(
                seq![32u32, 48, 56, 64, 80, 96, 112, 128, 160, 192, 224, 256, 320, 384][code - 1],
            ),
            (MpegVersion::MPEG1_0, MpegLayer::LayerIII) => Some(
                seq![32u32, 40, 48, 56, 64, 80, 96, 112, 128, 160, 192, 224, 256, 320][code - 1],
            ),
            (MpegVersion::MPEG2_0, MpegLayer::LayerI)
                | (MpegVersion::MPEG2_5, MpegLayer::LayerI) => Some(
                seq![32u32, 48, 56, 64, 80, 96, 112, 128, 144, 160, 176, 192, 224, 256][code - 1],
            ),
            (MpegVersion::MPEG2_0, MpegLayer::LayerII)
                | (MpegVersion::MPEG2_0, MpegLayer::LayerIII)
                | (MpegVersion::MPEG2_5, MpegLayer::LayerII)
                | (MpegVersion::MPEG2_5, MpegLayer::LayerIII) => Some(
                seq![8u32, 16, 24, 32, 40, 48, 56, 64, 80, 96, 112, 128, 144, 160][code - 1],
            ),
            _ => None,
        }
    }
}

/// The sample rate in Hz named by a 2-bit code for the given version;
/// code 3 is reserved.
pub open spec fn spec_mpeg_samplerate(v: MpegVersion, code: u32) -> Option<u32> {
    match v {
        MpegVersion::MPEG1_0 => {
            if code == 0 {
                Some(44100)
            } else if code == 1 {
                Some(48000)
            } else if code == 2 {
                Some(32000)
            } else {
                None
            }
        },
        MpegVersion::MPEG2_0 => {
            if code == 0 {
                Some(22050)
            } else if code == 1 {
                Some(24000)
            } else if code == 2 {
                Some(16000)
            } else {
                None
            }
        },
        MpegVersion::MPEG2_5 => {
            if code == 0 {
                Some(11025)
            } else if code == 1 {
                Some(12000)
            } else if code == 2 {
                Some(8000)
            } else {
                None
            }
        },
        MpegVersion::MPEGReserved => None,
    }
}

/// How many samples one frame carries for the given version and layer.
pub open spec fn spec_mpeg_frame_samples(v: MpegVersion, l: MpegLayer) -> Option<u32> {
    match (v, l) {
        (MpegVersion::MPEGReserved, _) => None,
        (_, MpegLayer::LayerReserved) => None,
        (_, MpegLayer::LayerI) => Some(384),
        (_, MpegLayer::LayerII) => Some(1152),
        (MpegVersion::MPEG1_0, MpegLayer::LayerIII) => Some(1152),
        (_, MpegLayer::LayerIII) => Some(576),
    }
}

pub fn new_mpeg_version(i: u32) -> (v: MpegVersion)
    ensures
        v == spec_mpeg_version(i),
{
    match i {
        0x0 => MpegVersion::MPEG2_5,
        0x2 => MpegVersion::MPEG2_0,
        0x3 => MpegVersion::MPEG1_0,
        _ => MpegVersion::MPEGReserved,
    }
}

pub fn new_mpeg_layer(i: u32) -> (l: MpegLayer)
    ensures
        l == spec_mpeg_layer(i),
{
    match i {
        0x3 => MpegLayer::LayerI,
        0x2 => MpegLayer::LayerII,
        0x1 => MpegLayer::LayerIII,
        _ => MpegLayer::LayerReserved,
    }
}

pub fn new_mpeg_bitrate(v: MpegVersion, l: MpegLayer, bits: u32) -> (r: Option<u32>)
    ensures
        r == spec_mpeg_bitrate(v, l, bits),
        r matches Some(b) ==> 8 <= b <= 448,
{
    if bits == 0 {
        return None;  // free-format bitrate
    }
    if bits >= 15 {
        return None;  // reserved code
    }
    match v {
        MpegVersion::MPEG1_0 => match l {
            MpegLayer::LayerI => Some(32 * bits),
            MpegLayer::LayerII => match bits {
                1 => Some(32),
                2 => Some(48),
                3 => Some(56),
                4 => Some(64),
                5 => Some(80),
                6 => Some(96),
                7 => Some(112),
                8 => Some(128),
                9 => Some(160),
                10 => Some(192),
                11 => Some(224),
                12 => Some(256),
                13 => Some(320),
                _ => Some(384),
            },
            MpegLayer::LayerIII => match bits {
                1 => Some(32),
                2 => Some(40),
                3 => Some(48),
                4 => Some(56),
                5 => Some(64),
                6 => Some(80),
                7 => Some(96),
                8 => Some(112),
                9 => Some(128),
                10 => Some(160),
                11 => Some(192),
                12 => Some(224),
                13 => Some(256),
                _ => Some(320),
            },
            MpegLayer::LayerReserved => None,
        },
        MpegVersion::MPEG2_0 | MpegVersion::MPEG2_5 => match l {
            MpegLayer::LayerI => match bits {
                1 => Some(32),
                2 => Some(48),
                3 => Some(56),
                4 => Some(64),
                5 => Some(80),
                6 => Some(96),
                7 => Some(112),
                8 => Some(128),
                9 => Some(144),
                10 => Some(160),
                11 => Some(176),
                12 => Some(192),
                13 => Some(224),
                _ => Some(256),
            },
            MpegLayer::LayerII | MpegLayer::LayerIII => match bits {
                1 => Some(8),
                2 => Some(16),
                3 => Some(24),
                4 => Some(32),
                5 => Some(40),
                6 => Some(48),
                7 => Some(56),
                8 => Some(64),
                9 => Some(80),
                10 => Some(96),
                11 => Some(112),
                12 => Some(128),
                13 => Some(144),
                _ => Some(160),
            },
            MpegLayer::LayerReserved => None,
        },
        MpegVersion::MPEGReserved => None,
    }
}

pub fn new_mpeg_samplerate(v: MpegVersion, bits: u32) -> (r: Option<u32>)
    ensures
        r == spec_mpeg_samplerate(v, bits),
        r matches Some(s) ==> 8000 <= s <= 48000,
{
    match v {
        MpegVersion::MPEG1_0 => match bits {
            0 => Some(44100),
            1 => Some(48000),
            2 => Some(32000),
            _ => None,
        },
        MpegVersion::MPEG2_0 => match bits {
            0 => Some(22050),
            1 => Some(24000),
            2 => Some(16000),
            _ => None,
        },
        MpegVersion::MPEG2_5 => match bits {
            0 => Some(11025),
            1 => Some(12000),
            2 => Some(8000),
            _ => None,
        },
        MpegVersion::MPEGReserved => None,
    }
}

pub fn new_mpeg_frame_samples(v: MpegVersion, l: MpegLayer) -> (r: Option<u32>)
    ensures
        r == spec_mpeg_frame_samples(v, l),
        r matches Some(f) ==> (f == 384 || f == 576 || f == 1152),
{
    match v {
        MpegVersion::MPEG1_0 => match l {
            MpegLayer::LayerI => Some(384),
            MpegLayer::LayerII => Some(1152),
            MpegLayer::LayerIII => Some(1152),
            MpegLayer::LayerReserved => None,
        },
        MpegVersion::MPEG2_0 | MpegVersion::MPEG2_5 => match l {
            MpegLayer::LayerI => Some(384),
            MpegLayer::LayerII => Some(1152),
            MpegLayer::LayerIII => Some(576),
            MpegLayer::LayerReserved => None,
        },
        MpegVersion::MPEGReserved => None,
    }
}

/// The fields of one 32-bit frame header word.
#[derive(Clone, Copy, Debug)]
pub struct Header {
    pub version: MpegVersion,
    pub layer: MpegLayer,
    /// Whether a 16-bit CRC follows the header: true when the header's
    /// protection bit is 0, since a set bit means the CRC is absent.
    pub crc: bool,
    /// `None` for the free-format code and for the reserved code.
    pub bitrate: Option<u32>,
    /// `None` when the 2-bit code is reserved for the resolved version.
    pub samplerate: Option<u32>,
    pub padding: bool,
    pub private: bool,
    pub channel_mode: u32,
    pub channel_mode_extension: u32,
    pub copyright: bool,
    pub original: bool,
    pub emphasis: u32,
}

/// The header named by a 32-bit word, or nothing when the word does not
/// begin with the sync pattern.
pub open spec fn spec_parse_header(w: u32) -> Option<Header> {
    if w & SYNC_MASK != SYNC_MASK {
        None
    } else {
        Some(
            Header {
                version: spec_mpeg_version((w >> 19) & 0x3),
                layer: spec_mpeg_layer((w >> 17) & 0x3),
                crc: (w >> 16) & 0x1 == 0,
                bitrate: spec_mpeg_bitrate(
                    spec_mpeg_version((w >> 19) & 0x3),
                    spec_mpeg_layer((w >> 17) & 0x3),
                    (w >> 12) & 0xf,
                ),
                samplerate: spec_mpeg_samplerate(spec_mpeg_version((w >> 19) & 0x3), (w >> 10) & 0x3),
                padding: (w >> 9) & 0x1 == 1,
                private: (w >> 8) & 0x1 == 1,
                channel_mode: (w >> 6) & 0x3,
                channel_mode_extension: (w >> 4) & 0x3,
                copyright: (w >> 3) & 0x1 == 1,
                original: (w >> 2) & 0x1 == 1,
                emphasis: w & 0x3,
            },
        )
    }
}

impl Header {
    /// The stored optional fields lie in the ranges the standard's tables
    /// allow, so sizes derived from them fit comfortably in 32 bits.
    pub open spec fn wf(self) -> bool {
        &&& (self.bitrate matches Some(b) ==> 8 <= b <= 448)
        &&& (self.samplerate matches Some(s) ==> 8000 <= s <= 48000)
    }

    /// Decodes a 32-bit word into its header fields; a word without the
    /// sync pattern in its top 11 bits yields no header, and a word with
    /// it always yields one.
    pub fn from_binary(w: u32) -> (r: Option<Header>)
        ensures
            r == spec_parse_header(w),
            r is Some <==> w & SYNC_MASK == SYNC_MASK,
            r matches Some(h) ==> h.wf(),
    {
        if w & SYNC_MASK != SYNC_MASK {
            return None;
        }
        let version = new_mpeg_version((w >> 19) & 0x3);
        let layer = new_mpeg_layer((w >> 17) & 0x3);
        let bitrate = new_mpeg_bitrate(version, layer, (w >> 12) & 0xf);
        let samplerate = new_mpeg_samplerate(version, (w >> 10) & 0x3);
        Some(
            Header {
                version,
                layer,
                crc: (w >> 16) & 0x1 == 0,
                bitrate,
                samplerate,
                padding: (w >> 9) & 0x1 == 1,
                private: (w >> 8) & 0x1 == 1,
                channel_mode: (w >> 6) & 0x3,
                channel_mode_extension: (w >> 4) & 0x3,
                copyright: (w >> 3) & 0x1 == 1,
                original: (w >> 2) & 0x1 == 1,
                emphasis: w & 0x3,
            },
        )
    }

    /// The size of the padding slot: Layer I pads in 32-bit slots, the
    /// other layers in single bytes.
    pub open spec fn spec_slot_size(self) -> u32 {
        if self.layer == MpegLayer::LayerI {
            4
        } else {
            1
        }
    }

    pub fn slot_size(&self) -> (r: u32)
        ensures
            r == self.spec_slot_size(),
    {
        if self.layer == MpegLayer::LayerI {
            4
        } else {
            1
        }
    }

    pub fn frame_samples(&self) -> (r: Option<u32>)
        ensures
            r == spec_mpeg_frame_samples(self.version, self.layer),
            r matches Some(f) ==> (f == 384 || f == 576 || f == 1152),
    {
        new_mpeg_frame_samples(self.version, self.layer)
    }

    /// The frame's byte size: `None` when the bitrate, sample rate or
    /// samples-per-frame field is unresolved, else the bits of one frame
    /// at the given bitrate, in bytes, rounded down, plus one padding
    /// slot when the padding flag is set.
    pub open spec fn spec_frame_size(self) -> Option<u32> {
        match (self.bitrate, self.samplerate, spec_mpeg_frame_samples(self.version, self.layer)) {
            (Some(b), Some(s), Some(f)) => Some(
                (((f as int / 8) * 1000 * b) / (s as int) + if self.padding {
                    self.spec_slot_size() as int
                } else {
                    0int
                }) as u32,
            ),
            _ => None,
        }
    }

    pub fn frame_size(&self) -> (r: Option<u32>)
        requires
            self.wf(),
        ensures
            r == self.spec_frame_size(),
    {
        let b: u32 = match self.bitrate {
            Some(v) => v,
            None => {
                return None;
            },
        };
        let s: u32 = match self.samplerate {
            Some(v) => v,
            None => {
                return None;
            },
        };
        let f: u32 = match self.frame_samples() {
            Some(v) => v,
            None => {
                return None;
            },
        };
        proof {
            vstd::arithmetic::mul::lemma_mul_upper_bound((f as int / 8) * 1000, 144000, b as int, 448);
            vstd::arithmetic::div_mod::lemma_div_nonincreasing(
                ((f as int / 8) * 1000 * b) as int,
                s as int,
            );
        }
        let size: u32 = ((f / 8) * 1000 * b) / s;
        Some(size + if self.padding {
            self.slot_size()
        } else {
            0
        })
    }

    /// How many channels the frame carries: one for the single-channel
    /// mode, two for every other channel mode.
    pub fn channels(&self) -> (r: usize)
        ensures
            r == if self.channel_mode == 3 {
                1usize
            } else {
                2usize
            },
    {
        if self.channel_mode == 3 {
            1
        } else {
            2
        }
    }

    /// Probes the next four bytes for a frame header.  A peek past the end
    /// of the stream is the end of the scan; a word without sync moves
    /// nothing, so the caller can advance one byte and retry; a word with
    /// sync yields its header and consumes it, together with the 16-bit
    /// CRC when one is present.
    pub fn read_from(reader: &mut BitReader) -> (r: Result<Option<Header>, EndOfStream>)
        requires
            old(reader).wf(),
            old(reader).aligned(),
        ensures
            final(reader).wf(),
            final(reader).aligned(),
            final(reader).stream() == old(reader).stream(),
            r is Err <==> old(reader).byte_pos() + 4 > old(reader).stream().len(),
            r is Err ==> *final(reader) == *old(reader),
            r matches Ok(h) ==> {
                &&& h == spec_parse_header(
                    be_u32_at(old(reader).stream(), old(reader).byte_pos() as int),
                )
                &&& (h is None ==> *final(reader) == *old(reader))
                &&& (h matches Some(hdr) ==> {
                    &&& hdr.wf()
                    &&& final(reader).byte_pos() == if old(reader).byte_pos() + (if hdr.crc {
                        6int
                    } else {
                        4int
                    }) <= old(reader).stream().len() {
                        old(reader).byte_pos() + (if hdr.crc {
                            6int
                        } else {
                            4int
                        })
                    } else {
                        old(reader).stream().len() as int
                    }
                })
            },
    {
        proof {
            old(reader).lemma_bits_len();
        }
        let word: u32 = match reader.peek_be_u32() {
            Ok(v) => v,
            Err(e) => {
                return Err(e);
            },
        };
        match Header::from_binary(word) {
            Some(h) => {
                reader.skip_bytes(if h.crc {
                    6
                } else {
                    4
                });
                Ok(Some(h))
            },
            None => Ok(None),
        }
    }
}

} // verus!
