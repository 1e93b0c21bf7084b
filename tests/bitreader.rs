use nwa::{BitReader, NwaError};

#[test]
fn test_bitreader() -> Result<(), NwaError> {
    let test = vec![0x11, 0x99, 0xff, 0xff];
    let mut br = BitReader::new(&test);

    assert_eq!(br.read_bits(8)?, 0x11);
    assert_eq!(br.read_bits(8)?, 0x99);
    assert_eq!(br.read_bits(6)?, 0x3f);
    assert_eq!(br.read_bits(2)?, 0x03);
    assert_eq!(br.read_bits(8)?, 0xff);

    Ok(())
}

#[test]
fn bitreader_split_reads_agree() {
    let data = vec![0x11, 0x99, 0xff, 0xff];
    let mut whole = BitReader::new(&data);
    let all = whole.read_bits(32).unwrap();
    assert_eq!(all, 0xffff_9911);
    let mut parts = BitReader::new(&data);
    let a = parts.read_bits(3).unwrap();
    let b = parts.read_bits(13).unwrap();
    let c = parts.read_bits(16).unwrap();
    assert_eq!(a | (b << 3) | (c << 16), all);
}

#[test]
fn bitreader_fails_when_exhausted() {
    let data = vec![0xab];
    let mut br = BitReader::new(&data);
    assert_eq!(br.read_bits(4).unwrap(), 0xb);
    assert_eq!(br.read_bits(5), Err(NwaError::UnexpectedEof));
    assert_eq!(br.read_bits(4).unwrap(), 0xa);
    assert_eq!(br.read_bits(1), Err(NwaError::UnexpectedEof));
}

#[test]
fn bitreader_reads_zero_bits() {
    let data: Vec<u8> = vec![];
    let mut br = BitReader::new(&data);
    assert_eq!(br.read_bits(0).unwrap(), 0);
    assert_eq!(br.read_bits(1), Err(NwaError::UnexpectedEof));
}
