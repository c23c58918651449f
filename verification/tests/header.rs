use mpeg1dec::header::Header;
use mpeg1dec::header::MpegLayer;
use mpeg1dec::header::MpegVersion;
use mpeg1dec::header::new_mpeg_bitrate;
use mpeg1dec::header::new_mpeg_frame_samples;
use mpeg1dec::header::new_mpeg_layer;
use mpeg1dec::header::new_mpeg_samplerate;
use mpeg1dec::header::new_mpeg_version;

// MPEG1, Layer I, no CRC, bitrate code 1 (32 kbit/s), sample rate code 2
// (32000 Hz), no padding, everything else zero.
const WORD_MPEG1_L1_32K: u32 = 0xFFFF1800;

// A word is a header exactly when its top 11 bits are all ones.
#[test]
fn test_parse_iff_sync() {
    assert!(Header::from_binary(0xFFE00000).is_some());
    assert!(Header::from_binary(0xFFFFFFFF).is_some());
    assert!(Header::from_binary(WORD_MPEG1_L1_32K).is_some());
    assert!(Header::from_binary(0xFFDFFFFF).is_none());
    assert!(Header::from_binary(0x7FFFFFFF).is_none());
    assert!(Header::from_binary(0xFFC00000).is_none());
    assert!(Header::from_binary(0x00000000).is_none());
}

#[test]
fn test_header_fields() {
    let h = Header::from_binary(WORD_MPEG1_L1_32K).unwrap();
    assert!(matches!(h.version, MpegVersion::MPEG1_0));
    assert!(matches!(h.layer, MpegLayer::LayerI));
    assert!(!h.crc);
    assert_eq!(h.bitrate, Some(32));
    assert_eq!(h.samplerate, Some(32000));
    assert!(!h.padding);
    assert!(!h.private);
    assert_eq!(h.channel_mode, 0);
    assert_eq!(h.channel_mode_extension, 0);
    assert!(!h.copyright);
    assert!(!h.original);
    assert_eq!(h.emphasis, 0);
}

// The protection bit set means no CRC follows; the bit clear means one
// does.  The inversion must be preserved.
#[test]
fn test_crc_flag_inverted() {
    let without_crc = Header::from_binary(WORD_MPEG1_L1_32K).unwrap();
    assert!(!without_crc.crc);
    let with_crc = Header::from_binary(WORD_MPEG1_L1_32K & !0x10000).unwrap();
    assert!(with_crc.crc);
}

#[test]
fn test_flag_fields() {
    let w = WORD_MPEG1_L1_32K | 0x200 | 0x100 | 0xC0 | 0x30 | 0x8 | 0x4 | 0x2;
    let h = Header::from_binary(w).unwrap();
    assert!(h.padding);
    assert!(h.private);
    assert_eq!(h.channel_mode, 3);
    assert_eq!(h.channel_mode_extension, 3);
    assert!(h.copyright);
    assert!(h.original);
    assert_eq!(h.emphasis, 2);
    assert_eq!(h.channels(), 1);
    assert_eq!(Header::from_binary(WORD_MPEG1_L1_32K).unwrap().channels(), 2);
}

#[test]
fn test_version_and_layer_codes() {
    assert!(matches!(new_mpeg_version(0), MpegVersion::MPEG2_5));
    assert!(matches!(new_mpeg_version(1), MpegVersion::MPEGReserved));
    assert!(matches!(new_mpeg_version(2), MpegVersion::MPEG2_0));
    assert!(matches!(new_mpeg_version(3), MpegVersion::MPEG1_0));
    assert!(matches!(new_mpeg_layer(0), MpegLayer::LayerReserved));
    assert!(matches!(new_mpeg_layer(1), MpegLayer::LayerIII));
    assert!(matches!(new_mpeg_layer(2), MpegLayer::LayerII));
    assert!(matches!(new_mpeg_layer(3), MpegLayer::LayerI));
}

#[test]
fn test_bitrate_table() {
    // free-format and reserved codes resolve to nothing
    assert_eq!(new_mpeg_bitrate(MpegVersion::MPEG1_0, MpegLayer::LayerI, 0), None);
    assert_eq!(new_mpeg_bitrate(MpegVersion::MPEG1_0, MpegLayer::LayerI, 15), None);
    assert_eq!(new_mpeg_bitrate(MpegVersion::MPEGReserved, MpegLayer::LayerI, 5), None);
    assert_eq!(new_mpeg_bitrate(MpegVersion::MPEG1_0, MpegLayer::LayerReserved, 5), None);

    assert_eq!(new_mpeg_bitrate(MpegVersion::MPEG1_0, MpegLayer::LayerI, 1), Some(32));
    assert_eq!(new_mpeg_bitrate(MpegVersion::MPEG1_0, MpegLayer::LayerI, 14), Some(448));
    assert_eq!(new_mpeg_bitrate(MpegVersion::MPEG1_0, MpegLayer::LayerII, 3), Some(56));
    assert_eq!(new_mpeg_bitrate(MpegVersion::MPEG1_0, MpegLayer::LayerII, 14), Some(384));
    assert_eq!(new_mpeg_bitrate(MpegVersion::MPEG1_0, MpegLayer::LayerIII, 2), Some(40));
    assert_eq!(new_mpeg_bitrate(MpegVersion::MPEG1_0, MpegLayer::LayerIII, 14), Some(320));
    assert_eq!(new_mpeg_bitrate(MpegVersion::MPEG2_0, MpegLayer::LayerI, 9), Some(144));
    assert_eq!(new_mpeg_bitrate(MpegVersion::MPEG2_5, MpegLayer::LayerI, 14), Some(256));
    assert_eq!(new_mpeg_bitrate(MpegVersion::MPEG2_0, MpegLayer::LayerII, 1), Some(8));
    assert_eq!(new_mpeg_bitrate(MpegVersion::MPEG2_5, MpegLayer::LayerIII, 14), Some(160));
}

#[test]
fn test_samplerate_table() {
    assert_eq!(new_mpeg_samplerate(MpegVersion::MPEG1_0, 0), Some(44100));
    assert_eq!(new_mpeg_samplerate(MpegVersion::MPEG1_0, 1), Some(48000));
    assert_eq!(new_mpeg_samplerate(MpegVersion::MPEG1_0, 2), Some(32000));
    assert_eq!(new_mpeg_samplerate(MpegVersion::MPEG1_0, 3), None);
    assert_eq!(new_mpeg_samplerate(MpegVersion::MPEG2_0, 0), Some(22050));
    assert_eq!(new_mpeg_samplerate(MpegVersion::MPEG2_0, 1), Some(24000));
    assert_eq!(new_mpeg_samplerate(MpegVersion::MPEG2_0, 2), Some(16000));
    assert_eq!(new_mpeg_samplerate(MpegVersion::MPEG2_5, 0), Some(11025));
    assert_eq!(new_mpeg_samplerate(MpegVersion::MPEG2_5, 1), Some(12000));
    assert_eq!(new_mpeg_samplerate(MpegVersion::MPEG2_5, 2), Some(8000));
    assert_eq!(new_mpeg_samplerate(MpegVersion::MPEGReserved, 0), None);
}

#[test]
fn test_frame_samples_table() {
    assert_eq!(new_mpeg_frame_samples(MpegVersion::MPEG1_0, MpegLayer::LayerI), Some(384));
    assert_eq!(new_mpeg_frame_samples(MpegVersion::MPEG1_0, MpegLayer::LayerII), Some(1152));
    assert_eq!(new_mpeg_frame_samples(MpegVersion::MPEG1_0, MpegLayer::LayerIII), Some(1152));
    assert_eq!(new_mpeg_frame_samples(MpegVersion::MPEG2_0, MpegLayer::LayerIII), Some(576));
    assert_eq!(new_mpeg_frame_samples(MpegVersion::MPEG2_5, MpegLayer::LayerI), Some(384));
    assert_eq!(new_mpeg_frame_samples(MpegVersion::MPEG2_5, MpegLayer::LayerIII), Some(576));
    assert_eq!(new_mpeg_frame_samples(MpegVersion::MPEGReserved, MpegLayer::LayerI), None);
    assert_eq!(new_mpeg_frame_samples(MpegVersion::MPEG1_0, MpegLayer::LayerReserved), None);
}

// MPEG1 Layer I at 32 kbit/s and 32000 Hz without padding comes to 48
// bytes a frame.
#[test]
fn test_frame_size_mpeg1_layer1_32k() {
    let h = Header::from_binary(WORD_MPEG1_L1_32K).unwrap();
    assert_eq!(h.slot_size(), 4);
    assert_eq!(h.frame_samples(), Some(384));
    assert_eq!(h.frame_size(), Some(48));
}

#[test]
fn test_frame_size_with_padding() {
    let h = Header::from_binary(WORD_MPEG1_L1_32K | 0x200).unwrap();
    assert_eq!(h.frame_size(), Some(52));
}

// An unresolved bitrate or sample rate leaves the frame size unavailable.
#[test]
fn test_frame_size_unresolved() {
    // bitrate code 0: free format
    let free = Header::from_binary(0xFFFF0800).unwrap();
    assert_eq!(free.bitrate, None);
    assert_eq!(free.frame_size(), None);
    // sample rate code 3: reserved
    let badrate = Header::from_binary(0xFFFF1C00).unwrap();
    assert_eq!(badrate.samplerate, None);
    assert_eq!(badrate.frame_size(), None);
}

#[test]
fn test_slot_size_by_layer() {
    let layer3 = Header::from_binary(0xFFFB1800).unwrap();
    assert!(matches!(layer3.layer, MpegLayer::LayerIII));
    assert_eq!(layer3.slot_size(), 1);
}
