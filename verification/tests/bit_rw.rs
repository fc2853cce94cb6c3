use bitio::{BitError, BitReader, BitWriter, VecSink, VecSource};

fn writer() -> BitWriter<VecSink> {
    BitWriter::new(VecSink::new())
}

fn reader_over(bytes: Vec<u8>) -> BitReader<VecSource> {
    BitReader::new(VecSource::new(bytes))
}

fn bits_of(bytes: &[u8]) -> Vec<bool> {
    let mut out = Vec::new();
    for &b in bytes {
        for i in 0..8 {
            out.push((b >> (7 - i)) & 1 == 1);
        }
    }
    out
}

fn mask(nbits: u8) -> u64 {
    if nbits >= 64 {
        u64::MAX
    } else {
        (1u64 << nbits) - 1
    }
}

fn bits_to_u64(bits: &[bool]) -> u64 {
    let mut v = 0u64;
    for &b in bits {
        v = (v << 1) | (b as u64);
    }
    v
}

#[test]
fn read_64_bits_unaligned() {
    let data: Vec<u8> = vec![0x0F, 0xA3, 0x5C, 0x77, 0x01, 0xFE, 0x80, 0x42, 0x99, 0xAB];
    let bits = bits_of(&data);
    let mut r = reader_over(data);
    assert_eq!(r.read_bits(3), Ok(bits_to_u64(&bits[0..3])));
    assert_eq!(r.read_bits(64), Ok(bits_to_u64(&bits[3..67])));
    assert_eq!(r.read_bits(13), Ok(bits_to_u64(&bits[67..80])));
    assert_eq!(r.read_bit(), Err(BitError::EndOfStream));
}

#[test]
fn scenario_two_nibbles() {
    let mut w = writer();
    assert_eq!(w.write_bits(4, 0b1010), Ok(4));
    assert_eq!(w.write_bits(4, 0b0101), Ok(4));
    assert_eq!(w.flush(), Ok(0));
    let bytes = w.into_inner().into_vec();
    assert_eq!(bytes, vec![0xA5]);

    let mut r = reader_over(bytes);
    assert_eq!(r.read_bits(4), Ok(0b1010));
    assert_eq!(r.read_bits(4), Ok(0b0101));
}

#[test]
fn scenario_twelve_bits() {
    let mut w = writer();
    assert_eq!(w.write_bits(12, 0xABC), Ok(12));
    assert_eq!(w.flush(), Ok(4));
    let bytes = w.into_inner().into_vec();
    assert_eq!(bytes, vec![0xAB, 0xC0]);
}

#[test]
fn scenario_twelve_bits_flush_bits_only() {
    let mut w = writer();
    assert_eq!(w.write_bits(12, 0xABC), Ok(12));
    assert_eq!(w.flush_bits(), Ok(4));
    assert_eq!(w.into_inner().into_vec(), vec![0xAB, 0xC0]);
}

#[test]
fn round_trip_every_width() {
    let samples: [u64; 5] = [0, 1, 0xA5A5_5A5A_1234_FFFF, u64::MAX, 0x8000_0000_0000_0001];
    for nbits in 0u8..=64 {
        for &value in samples.iter() {
            let expect = value & mask(nbits);
            let mut w = writer();
            assert_eq!(w.write_bits(nbits, value), Ok(nbits as usize));
            let pad = w.flush().unwrap();
            assert!(pad < 8);
            assert_eq!(((nbits as usize) + pad) % 8, 0);
            let mut r = reader_over(w.into_inner().into_vec());
            assert_eq!(r.read_bits(nbits), Ok(expect), "width {nbits}");
        }
    }
}

#[test]
fn sequence_round_trip() {
    let fields: [(u8, u64); 9] = [
        (3, 0b101),
        (0, 0),
        (11, 0x5ff),
        (1, 1),
        (64, 0xDEAD_BEEF_CAFE_F00D),
        (7, 0x41),
        (8, 0xFF),
        (13, 0x1abc),
        (2, 0b10),
    ];
    let mut w = writer();
    let mut total: usize = 0;
    for &(nbits, value) in fields.iter() {
        assert_eq!(w.write_bits(nbits, value), Ok(nbits as usize));
        total += nbits as usize;
    }
    let pad = w.flush().unwrap();
    assert_eq!((total + pad) % 8, 0);
    let bytes = w.into_inner().into_vec();
    assert_eq!(bytes.len() * 8, total + pad);

    let mut r = reader_over(bytes);
    for &(nbits, value) in fields.iter() {
        assert_eq!(r.read_bits(nbits), Ok(value & mask(nbits)), "width {nbits}");
    }
}

#[test]
fn flush_invariant_across_widths() {
    for nbits in 0u8..=64 {
        let mut w = writer();
        assert_eq!(w.write_bits(nbits, u64::MAX), Ok(nbits as usize));
        let pad = w.flush_bits().unwrap();
        assert!(pad < 8);
        assert_eq!(((nbits as usize) + pad) % 8, 0);
        let expected_pad = (8 - (nbits as usize) % 8) % 8;
        assert_eq!(pad, expected_pad);
    }
}

#[test]
fn flush_on_empty_writer() {
    let mut w = writer();
    assert_eq!(w.flush(), Ok(0));
    assert_eq!(w.flush_bits(), Ok(0));
    assert_eq!(w.into_inner().into_vec(), Vec::<u8>::new());
}

#[test]
fn flush_twice_adds_nothing() {
    let mut w = writer();
    assert_eq!(w.write_bits(3, 0b111), Ok(3));
    assert_eq!(w.flush_bits(), Ok(5));
    assert_eq!(w.flush_bits(), Ok(0));
    assert_eq!(w.into_inner().into_vec(), vec![0b1110_0000]);
}

#[test]
fn write_bit_packs_msb_first() {
    let mut w = writer();
    for bit in [1u8, 0, 1, 0, 0, 1, 0, 1] {
        assert_eq!(w.write_bit(bit), Ok(()));
    }
    assert_eq!(w.flush(), Ok(0));
    assert_eq!(w.into_inner().into_vec(), vec![0b1010_0101]);
}

#[test]
fn read_bit_consumes_msb_first() {
    let mut r = reader_over(vec![0b1010_0101]);
    let expected = [1u8, 0, 1, 0, 0, 1, 0, 1];
    for &e in expected.iter() {
        assert_eq!(r.read_bit(), Ok(e));
    }
    assert_eq!(r.read_bit(), Err(BitError::EndOfStream));
}

#[test]
fn read_spans_byte_boundaries() {
    let mut r = reader_over(vec![0x12, 0x34, 0x56, 0x78]);
    assert_eq!(r.read_bits(3), Ok(0b000));
    assert_eq!(r.read_bits(13), Ok(0b10010_00110100));
    assert_eq!(r.read_bits(16), Ok(0x5678));
}

#[test]
fn read_zero_bits() {
    let mut r = reader_over(vec![]);
    assert_eq!(r.read_bits(0), Ok(0));
}

#[test]
fn write_zero_bits() {
    let mut w = writer();
    assert_eq!(w.write_bits(0, 0xFFFF), Ok(0));
    assert_eq!(w.flush(), Ok(0));
    assert_eq!(w.into_inner().into_vec(), Vec::<u8>::new());
}

#[test]
fn end_of_stream_mid_request() {
    let mut r = reader_over(vec![0xAA]);
    assert_eq!(r.read_bits(9), Err(BitError::EndOfStream));
}

#[test]
fn end_of_stream_empty_source() {
    let mut r = reader_over(vec![]);
    assert_eq!(r.read_bits(1), Err(BitError::EndOfStream));
}

#[test]
fn reset_discards_cached_bits() {
    let mut r = reader_over(vec![0xF0, 0x0F]);
    assert_eq!(r.read_bits(4), Ok(0xF));
    r.reset();
    assert_eq!(r.read_bits(8), Ok(0x0F));
}

#[test]
fn into_inner_returns_source() {
    let r = reader_over(vec![1, 2, 3]);
    assert_eq!(r.into_inner().into_vec(), vec![1, 2, 3]);
}

#[test]
fn into_inner_drops_unflushed_bits() {
    let mut w = writer();
    assert_eq!(w.write_bits(4, 0xF), Ok(4));
    assert_eq!(w.into_inner().into_vec(), Vec::<u8>::new());
}

#[test]
fn get_ref_and_get_mut() {
    let mut r = reader_over(vec![0xAB]);
    let _sr: &VecSource = r.get_ref();
    let _mr: &mut VecSource = r.get_mut();
    assert_eq!(r.read_bits(8), Ok(0xAB));

    let mut w = writer();
    assert_eq!(w.write_bits(8, 0xCD), Ok(8));
    let _sw: &VecSink = w.get_ref();
    let _mw: &mut VecSink = w.get_mut();
    assert_eq!(w.into_inner().into_vec(), vec![0xCD]);
}

#[test]
fn written_bits_match_reference_model() {
    let mut w = writer();
    assert_eq!(w.write_bits(5, 0b10110), Ok(5));
    assert_eq!(w.write_bits(9, 0b1_1100_0011), Ok(9));
    assert_eq!(w.write_bits(2, 0b01), Ok(2));
    let pad = w.flush().unwrap();
    assert_eq!(pad, (8 - (5 + 9 + 2) % 8) % 8);
    let bytes = w.into_inner().into_vec();
    let bits = bits_of(&bytes);
    let mut expect: Vec<bool> = Vec::new();
    for (nbits, value) in [(5u8, 0b10110u64), (9, 0b1_1100_0011), (2, 0b01)] {
        for i in (0..nbits).rev() {
            expect.push((value >> i) & 1 == 1);
        }
    }
    while expect.len() % 8 != 0 {
        expect.push(false);
    }
    assert_eq!(bits, expect);
}
