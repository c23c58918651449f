use mpeg1dec::EndOfStream;
use mpeg1dec::bitreader::BitReader;
use mpeg1dec::layer1::decode_bit_allocations;
use mpeg1dec::layer1::decode_sample_codes;
use mpeg1dec::layer1::decode_scale_factors;

fn generate_test_allocations() -> Vec<Vec<u32>> {
    let buf = vec![
        0xED, 0x99, 0x88, 0x88, 0x88, 0x88, 0x77, 0x77, 0x66, 0x77, 0x55, 0x66, 0x55, 0x55, 0x55,
        0x55, 0x44, 0x44, 0x44, 0x33, 0x44, 0x22, 0x33, 0x22, 0x22, 0x01, 0x00, 0x00, 0x00, 0x00,
        0x00, 0x00,
    ];
    let mut r = BitReader::new(buf);

    decode_bit_allocations(&mut r, 32, 2).unwrap()
}

#[test]
fn test_bit_allocations() {
    let samples = generate_test_allocations();

    assert_eq!(samples[0][0], 0xE);
    assert_eq!(samples[0][1], 0x9);
    assert_eq!(samples[0][2], 0x8);
    assert_eq!(samples[0][3], 0x8);
    assert_eq!(samples[0][4], 0x8);
    assert_eq!(samples[0][5], 0x8);
    assert_eq!(samples[0][6], 0x7);
    assert_eq!(samples[0][7], 0x7);
    assert_eq!(samples[0][8], 0x6);
    assert_eq!(samples[0][9], 0x7);
    assert_eq!(samples[0][10], 0x5);
    assert_eq!(samples[0][11], 0x6);
    assert_eq!(samples[0][12], 0x5);
    assert_eq!(samples[0][13], 0x5);
    assert_eq!(samples[0][14], 0x5);
    assert_eq!(samples[0][15], 0x5);
    assert_eq!(samples[0][16], 0x4);
    assert_eq!(samples[0][17], 0x4);
    assert_eq!(samples[0][18], 0x4);
    assert_eq!(samples[0][19], 0x3);
    assert_eq!(samples[0][20], 0x4);
    assert_eq!(samples[0][21], 0x2);
    assert_eq!(samples[0][22], 0x3);
    assert_eq!(samples[0][23], 0x2);
    assert_eq!(samples[0][24], 0x2);
    assert_eq!(samples[0][25], 0x0);
    assert_eq!(samples[0][26], 0x0);
    assert_eq!(samples[0][27], 0x0);
    assert_eq!(samples[0][28], 0x0);
    assert_eq!(samples[0][29], 0x0);
    assert_eq!(samples[0][30], 0x0);
    assert_eq!(samples[0][31], 0x0);

    assert_eq!(samples[1][0], 0xD);
    assert_eq!(samples[1][1], 0x9);
    assert_eq!(samples[1][2], 0x8);
    assert_eq!(samples[1][3], 0x8);
    assert_eq!(samples[1][4], 0x8);
    assert_eq!(samples[1][5], 0x8);
    assert_eq!(samples[1][6], 0x7);
    assert_eq!(samples[1][7], 0x7);
    assert_eq!(samples[1][8], 0x6);
    assert_eq!(samples[1][9], 0x7);
    assert_eq!(samples[1][10], 0x5);
    assert_eq!(samples[1][11], 0x6);
    assert_eq!(samples[1][12], 0x5);
    assert_eq!(samples[1][13], 0x5);
    assert_eq!(samples[1][14], 0x5);
    assert_eq!(samples[1][15], 0x5);
    assert_eq!(samples[1][16], 0x4);
    assert_eq!(samples[1][17], 0x4);
    assert_eq!(samples[1][18], 0x4);
    assert_eq!(samples[1][19], 0x3);
    assert_eq!(samples[1][20], 0x4);
    assert_eq!(samples[1][21], 0x2);
    assert_eq!(samples[1][22], 0x3);
    assert_eq!(samples[1][23], 0x2);
    assert_eq!(samples[1][24], 0x2);
    assert_eq!(samples[1][25], 0x1);
    assert_eq!(samples[1][26], 0x0);
    assert_eq!(samples[1][27], 0x0);
    assert_eq!(samples[1][28], 0x0);
    assert_eq!(samples[1][29], 0x0);
    assert_eq!(samples[1][30], 0x0);
    assert_eq!(samples[1][31], 0x0);
}

#[test]
fn test_scale_factors() {
    let allocations = generate_test_allocations();

    let buf = vec![
        0x30, 0xC8, 0x61, 0xA6, 0x9A, 0xAA, 0xBA, 0xEB, 0x6D, 0xCB, 0x2C, 0x30, 0xD3, 0x4C, 0xB2,
        0xDB, 0x6D, 0x34, 0xE3, 0x8D, 0x75, 0xDF, 0x7D, 0xF7, 0xDF, 0x7E, 0x79, 0xDF, 0x7E, 0xBA,
        0xDF, 0x7E, 0xBA, 0xE3, 0x8E, 0xBA, 0xE3, 0x8E, 0xDF, 0xFF, 0xBF, 0xFE, 0xFF, 0xBF, 0xEF,
        0xF7, 0xFB, 0xFD,
    ];
    let mut r = BitReader::new(buf);

    let samples = decode_scale_factors(&mut r, 32, 2, &allocations).unwrap();

    assert_eq!(samples[0][0], 12);
    assert_eq!(samples[1][0], 12);
    assert_eq!(samples[0][1], 33);
    assert_eq!(samples[1][1], 33);
    assert_eq!(samples[0][2], 41);
    assert_eq!(samples[1][2], 41);
    assert_eq!(samples[0][3], 42);
    assert_eq!(samples[1][3], 42);
    assert_eq!(samples[0][4], 46);
    assert_eq!(samples[1][4], 46);
    assert_eq!(samples[0][5], 45);
    assert_eq!(samples[1][5], 45);
    assert_eq!(samples[0][6], 50);
    assert_eq!(samples[1][6], 50);
    assert_eq!(samples[0][7], 48);
    assert_eq!(samples[1][7], 48);
    assert_eq!(samples[0][8], 52);
    assert_eq!(samples[1][8], 52);
    assert_eq!(samples[0][9], 50);
    assert_eq!(samples[1][9], 50);
    assert_eq!(samples[0][10], 54);
    assert_eq!(samples[1][10], 54);
    assert_eq!(samples[0][11], 52);
    assert_eq!(samples[1][11], 52);
    assert_eq!(samples[0][12], 56);
    assert_eq!(samples[1][12], 56);
    assert_eq!(samples[0][13], 53);
    assert_eq!(samples[1][13], 53);
    assert_eq!(samples[0][14], 55);
    assert_eq!(samples[1][14], 55);
    assert_eq!(samples[0][15], 55);
    assert_eq!(samples[1][15], 55);
    assert_eq!(samples[0][16], 55);
    assert_eq!(samples[1][16], 55);
    assert_eq!(samples[0][17], 57);
    assert_eq!(samples[1][17], 57);
    assert_eq!(samples[0][18], 55);
    assert_eq!(samples[1][18], 55);
    assert_eq!(samples[0][19], 58);
    assert_eq!(samples[1][19], 58);
    assert_eq!(samples[0][20], 55);
    assert_eq!(samples[1][20], 55);
    assert_eq!(samples[0][21], 58);
    assert_eq!(samples[1][21], 58);
    assert_eq!(samples[0][22], 56);
    assert_eq!(samples[1][22], 56);
    assert_eq!(samples[0][23], 58);
    assert_eq!(samples[1][23], 58);
    assert_eq!(samples[0][24], 56);
    assert_eq!(samples[1][24], 56);
    assert_eq!(samples[0][25], 0);
    assert_eq!(samples[1][25], 59);
    assert_eq!(samples[0][26], 0);
    assert_eq!(samples[1][26], 0);
    assert_eq!(samples[0][27], 0);
    assert_eq!(samples[1][27], 0);
    assert_eq!(samples[0][28], 0);
    assert_eq!(samples[1][28], 0);
    assert_eq!(samples[0][29], 0);
    assert_eq!(samples[1][29], 0);
    assert_eq!(samples[0][30], 0);
    assert_eq!(samples[1][30], 0);
    assert_eq!(samples[0][31], 0);
    assert_eq!(samples[1][31], 0);
}

// A table of all-zero allocation codes consumes no bits at all: neither
// the scale-factor pass nor any of the twelve granules of the sample pass
// moves the reader.
#[test]
fn test_muted_subbands_consume_nothing() {
    let allocations: Vec<Vec<u32>> = vec![vec![0; 32], vec![0; 32]];
    let mut r = BitReader::new(vec![0xFF; 4]);

    let sf = decode_scale_factors(&mut r, 32, 2, &allocations).unwrap();
    assert_eq!(r.position(), 0);
    let samples = decode_sample_codes(&mut r, 32, 2, &allocations).unwrap();
    assert_eq!(r.position(), 0);
    for ch in 0..2 {
        for sb in 0..32 {
            assert_eq!(sf[ch][sb], 0);
            for g in 0..12 {
                assert_eq!(samples[ch][g][sb], 0);
            }
        }
    }
}

// One single-channel subband with allocation code `nb` consumes six
// scale-factor bits and exactly `nb` bits in each of the twelve granules.
#[test]
fn test_allocated_subband_bit_budget() {
    let mut allocations: Vec<Vec<u32>> = vec![vec![0; 32], vec![0; 32]];
    allocations[0][5] = 8;
    let mut r = BitReader::new(vec![0xA5; 14]);

    let sf = decode_scale_factors(&mut r, 32, 1, &allocations).unwrap();
    // six bits: 0b101001 of the repeating 0xA5 pattern
    assert_eq!(sf[0][5], 0x29);
    assert_eq!(r.position(), 1);
    let samples = decode_sample_codes(&mut r, 32, 1, &allocations).unwrap();
    // 6 + 12 * 8 = 102 bits consumed in all: the reader stands 6 bits into
    // the thirteenth byte
    assert_eq!(r.position(), 13);
    for g in 0..12 {
        assert!(samples[0][g][5] < 256);
    }
    // the first sample code starts 6 bits in: 0b01101001 of 0xA5 0xA5
    assert_eq!(samples[0][0][5], 0x69);
}

#[test]
fn test_truncated_sample_data_fails() {
    let mut allocations: Vec<Vec<u32>> = vec![vec![0; 32], vec![0; 32]];
    allocations[0][0] = 12;
    // twelve granules of twelve bits need eighteen bytes; offer four
    let mut r = BitReader::new(vec![0x11, 0x22, 0x33, 0x44]);

    assert_eq!(decode_sample_codes(&mut r, 32, 1, &allocations), Err(EndOfStream));
}

#[test]
fn test_truncated_allocations_fail() {
    let mut r = BitReader::new(vec![0xAB, 0xCD]);

    assert_eq!(decode_bit_allocations(&mut r, 32, 2), Err(EndOfStream));
}
