use mpeg1dec::EndOfStream;
use mpeg1dec::bitreader::BitReader;

#[test]
fn test_short_reads() {
    let mut r = BitReader::new(vec![0xFF, 0xAA, 0x44]);

    assert_eq!(r.read_bits(8).unwrap(), 0xFF);
    assert_eq!(r.read_bits(4).unwrap(), 0x0A);
    assert_eq!(r.read_bits(2).unwrap(), 0x02);
    assert_eq!(r.read_bits(1).unwrap(), 0x01);
    assert_eq!(r.read_bits(1).unwrap(), 0x00);
    assert_eq!(r.read_bits(3).unwrap(), 0x02);
    assert_eq!(r.read_bits(3).unwrap(), 0x01);
    assert_eq!(r.read_bits(2).unwrap(), 0x00);
}

#[test]
fn test_medium_reads() {
    let mut r = BitReader::new(vec![0xFF, 0xAA, 0x44, 0xA3]);

    assert_eq!(r.read_bits(16).unwrap(), 0xFFAA);
    assert_eq!(r.read_bits(12).unwrap(), 0x44A);
    assert_eq!(r.read_bits(4).unwrap(), 0x3);
}

#[test]
fn test_large_reads() {
    let mut r = BitReader::new(vec![0xFF, 0xAA, 0x44, 0xA3, 0x34, 0x99, 0x44]);

    assert_eq!(r.read_bits(24).unwrap(), 0xFFAA44);
    assert_eq!(r.read_bits(32).unwrap(), 0xA3349944);
}

#[test]
fn test_stream() {
    let mut r = BitReader::new(vec![0xEA, 0xBD, 0x21]);

    assert_eq!(r.read_bits(4).unwrap(), 0xE);
    assert_eq!(r.read_bits(4).unwrap(), 0xA);
    assert_eq!(r.read_bits(4).unwrap(), 0xB);
    assert_eq!(r.read_bits(4).unwrap(), 0xD);
    assert_eq!(r.read_bits(4).unwrap(), 0x2);
    assert_eq!(r.read_bits(4).unwrap(), 0x1);
}

#[test]
fn test_stream2() {
    let mut r = BitReader::new(vec![0x30, 0xC8, 0x61]);

    assert_eq!(r.read_bits(6).unwrap(), 12);
    assert_eq!(r.read_bits(6).unwrap(), 12);
    assert_eq!(r.read_bits(6).unwrap(), 33);
    assert_eq!(r.read_bits(6).unwrap(), 33);
}

// Reads of arbitrary widths totalling whole bytes reassemble, most
// significant bit first, into exactly the bytes of the buffer.
#[test]
fn test_reads_reassemble_buffer() {
    let mut r = BitReader::new(vec![0xDE, 0xAD, 0xBE]);

    let a = r.read_bits(3).unwrap();
    let b = r.read_bits(7).unwrap();
    let c = r.read_bits(6).unwrap();
    let d = r.read_bits(8).unwrap();
    let whole: u32 = (a << 21) | (b << 14) | (c << 8) | d;
    assert_eq!(whole, 0xDEADBE);
    assert_eq!([(whole >> 16) as u8, (whole >> 8) as u8, whole as u8], [0xDE, 0xAD, 0xBE]);
}

#[test]
fn test_read_past_end_fails() {
    let mut r = BitReader::new(vec![0xAB]);

    assert_eq!(r.read_bits(6).unwrap(), 0x2A);
    // two bits remain: a 3-bit request exhausts the stream
    assert_eq!(r.read_bits(3), Err(EndOfStream));
    assert_eq!(r.read_bits(1), Err(EndOfStream));
}

#[test]
fn test_read_empty_stream_fails() {
    let mut r = BitReader::new(Vec::new());

    assert_eq!(r.read_bits(1), Err(EndOfStream));
}

#[test]
fn test_exact_final_read() {
    let mut r = BitReader::new(vec![0x5A, 0x5A]);

    assert_eq!(r.read_bits(5).unwrap(), 0x0B);
    assert_eq!(r.read_bits(11).unwrap(), 0x25A);
    assert_eq!(r.read_bits(1), Err(EndOfStream));
}
