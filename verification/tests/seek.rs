use bitio::{BitError, BitReader, SeekFrom, VecSource};

fn reader_over(bytes: Vec<u8>) -> BitReader<VecSource> {
    BitReader::new(VecSource::new(bytes))
}

fn bits_of(bytes: &[u8]) -> Vec<u8> {
    let mut out = Vec::new();
    for &b in bytes {
        for i in 0..8 {
            out.push((b >> (7 - i)) & 1);
        }
    }
    out
}

const DATA: [u8; 4] = [0x9C, 0x03, 0xF7, 0x5A];

#[test]
fn seek_start_reads_exact_suffix() {
    let all = bits_of(&DATA);
    let total = 8 * DATA.len() as u64;
    for p in 0..=total {
        let mut r = reader_over(DATA.to_vec());
        assert_eq!(r.seek(SeekFrom::Start(p)), Ok(p), "position {p}");
        for (i, &bit) in all[p as usize..].iter().enumerate() {
            assert_eq!(r.read_bit(), Ok(bit), "position {p}, bit {i}");
        }
        assert_eq!(r.read_bit(), Err(BitError::EndOfStream), "position {p}");
    }
}

#[test]
fn seek_start_mid_read() {
    let mut r = reader_over(DATA.to_vec());
    assert_eq!(r.read_bits(5), Ok(0b10011));
    assert_eq!(r.seek(SeekFrom::Start(12)), Ok(12));
    assert_eq!(r.read_bits(8), Ok(0x3F));
}

#[test]
fn seek_start_past_end() {
    let total = 8 * DATA.len() as u64;
    let mut r = reader_over(DATA.to_vec());
    assert_eq!(r.seek(SeekFrom::Start(total + 8)), Ok(total + 8));
    assert_eq!(r.read_bit(), Err(BitError::EndOfStream));
    let mut r2 = reader_over(DATA.to_vec());
    assert_eq!(r2.seek(SeekFrom::Start(total + 3)), Err(BitError::EndOfStream));
}

#[test]
fn seek_end_leaves_exactly_k_bits() {
    let all = bits_of(&DATA);
    let total = 8 * DATA.len() as u64;
    for k in 1..=total {
        let mut r = reader_over(DATA.to_vec());
        assert_eq!(r.seek(SeekFrom::End(-(k as i64))), Ok(total - k), "k {k}");
        for (i, &bit) in all[(total - k) as usize..].iter().enumerate() {
            assert_eq!(r.read_bit(), Ok(bit), "k {k}, bit {i}");
        }
        assert_eq!(r.read_bit(), Err(BitError::EndOfStream), "k {k}");
    }
}

#[test]
fn seek_end_whole_bytes() {
    let mut r = reader_over(DATA.to_vec());
    assert_eq!(r.seek(SeekFrom::End(-8)), Ok(24));
    assert_eq!(r.read_bits(8), Ok(0x5A));
    assert_eq!(r.read_bit(), Err(BitError::EndOfStream));
}

#[test]
fn seek_end_before_start_fails() {
    let total = 8 * DATA.len() as i64;
    let mut r = reader_over(DATA.to_vec());
    assert_eq!(r.seek(SeekFrom::End(-(total + 1))), Err(BitError::EndOfStream));
}

#[test]
fn seek_end_nonnegative_unsupported() {
    let mut r = reader_over(DATA.to_vec());
    assert_eq!(r.seek(SeekFrom::End(0)), Err(BitError::UnsupportedSeek));
    assert_eq!(r.seek(SeekFrom::End(5)), Err(BitError::UnsupportedSeek));
}

#[test]
fn seek_current_unsupported() {
    let mut r = reader_over(DATA.to_vec());
    assert_eq!(r.seek(SeekFrom::Current(0)), Err(BitError::UnsupportedSeek));
    assert_eq!(r.seek(SeekFrom::Current(-2)), Err(BitError::UnsupportedSeek));
    assert_eq!(r.seek(SeekFrom::Current(7)), Err(BitError::UnsupportedSeek));
    assert_eq!(r.read_bits(8), Ok(0x9C));
}

#[test]
fn seek_empty_stream() {
    let mut r = reader_over(Vec::new());
    assert_eq!(r.seek(SeekFrom::Start(0)), Ok(0));
    assert_eq!(r.read_bit(), Err(BitError::EndOfStream));
    let mut r2 = reader_over(Vec::new());
    assert_eq!(r2.seek(SeekFrom::End(-1)), Err(BitError::EndOfStream));
}
