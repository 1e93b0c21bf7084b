use nwa::{decode_entry, get_filetype, read_index, FileType, IndexEntry, NWAFile, NWAHeader, NwaError};

struct Fields {
    channels: i16,
    bps: i16,
    freq: i32,
    complevel: i32,
    userunlength: i32,
    blocks: i32,
    datasize: i32,
    compdatasize: i32,
    samplecount: i32,
    blocksize: i32,
    restsize: i32,
}

fn stream(f: &Fields, offsets: &[i32], payload: &[u8]) -> Vec<u8> {
    let mut v = Vec::new();
    v.extend_from_slice(&f.channels.to_le_bytes());
    v.extend_from_slice(&f.bps.to_le_bytes());
    for x in [
        f.freq,
        f.complevel,
        f.userunlength,
        f.blocks,
        f.datasize,
        f.compdatasize,
        f.samplecount,
        f.blocksize,
        f.restsize,
        0,
    ] {
        v.extend_from_slice(&x.to_le_bytes());
    }
    for o in offsets {
        v.extend_from_slice(&o.to_le_bytes());
    }
    v.extend_from_slice(payload);
    v
}

fn stored(channels: i16, bps: i16, freq: i32, payload: &[u8]) -> Vec<u8> {
    let byps = (bps / 8) as i32;
    let n = payload.len() as i32;
    let f = Fields {
        channels,
        bps,
        freq,
        complevel: -1,
        userunlength: 0,
        blocks: 0,
        datasize: n,
        compdatasize: 0,
        samplecount: n / byps,
        blocksize: 0,
        restsize: 0,
    };
    stream(&f, &[], payload)
}

fn compressed(channels: i16, complevel: i32, userunlength: i32, samples: i32, payload: &[u8]) -> Vec<u8> {
    let f = Fields {
        channels,
        bps: 8,
        freq: 8000,
        complevel,
        userunlength,
        blocks: 1,
        datasize: samples,
        compdatasize: payload.len() as i32,
        samplecount: samples,
        blocksize: 4,
        restsize: samples,
    };
    stream(&f, &[0], payload)
}

fn le32(v: i32) -> [u8; 4] {
    v.to_le_bytes()
}

fn check_framing(channels: i16, bps: i16) {
    let payload: Vec<u8> = (0..8u8).collect();
    let input = stored(channels, bps, 22050, &payload);
    let f = NWAFile::new(&input).unwrap();
    let out = f.data();
    let byps = (bps / 8) as i32;
    assert_eq!(out.len(), 44 + 8);
    assert_eq!(&out[0..4], b"RIFF");
    assert_eq!(&out[4..8], &le32(8 + 36));
    assert_eq!(&out[8..16], b"WAVEfmt ");
    assert_eq!(&out[16..22], &[16, 0, 0, 0, 1, 0]);
    assert_eq!(&out[22..24], &channels.to_le_bytes());
    assert_eq!(&out[24..28], &le32(22050));
    assert_eq!(&out[28..32], &le32(byps * 22050 * channels as i32));
    assert_eq!(&out[32..34], &((byps as i16) * channels).to_le_bytes());
    assert_eq!(&out[34..36], &bps.to_le_bytes());
    assert_eq!(&out[36..40], b"data");
    assert_eq!(&out[40..44], &le32(8));
    assert_eq!(&out[44..], &payload[..]);
}

#[test]
fn stored_framing_mono_8() {
    check_framing(1, 8);
}

#[test]
fn stored_framing_mono_16() {
    check_framing(1, 16);
}

#[test]
fn stored_framing_stereo_8() {
    check_framing(2, 8);
}

#[test]
fn stored_framing_stereo_16() {
    check_framing(2, 16);
}

#[test]
fn stored_header_derives_blocks() {
    let payload = vec![0u8; 65536 * 2 + 10];
    let input = stored(1, 16, 44100, &payload);
    let h = NWAHeader::new(&input).unwrap();
    assert_eq!(h.blocksize, 65536);
    assert_eq!(h.restsize, 5);
    assert_eq!(h.blocks, 2);
    assert!(h.offsets.is_empty());
    assert_eq!(h.check(), Ok(()));
}

fn compressed_fields(blocks: i32) -> Fields {
    Fields {
        channels: 1,
        bps: 16,
        freq: 44100,
        complevel: 2,
        userunlength: 0,
        blocks,
        datasize: 20,
        compdatasize: 100,
        samplecount: 10,
        blocksize: 4,
        restsize: 2,
    }
}

#[test]
fn rejects_zero_blocks() {
    let input = stream(&compressed_fields(0), &[], &[]);
    assert_eq!(NWAHeader::new(&input).err(), Some(NwaError::BadBlockCount));
    assert_eq!(NWAFile::new(&input).err(), Some(NwaError::BadBlockCount));
}

#[test]
fn rejects_too_many_blocks() {
    let input = stream(&compressed_fields(1_000_001), &[], &[]);
    assert_eq!(NWAFile::new(&input).err(), Some(NwaError::BadBlockCount));
}

#[test]
fn rejects_datasize_mismatch() {
    let mut f = compressed_fields(3);
    f.datasize = 21;
    let input = stream(&f, &[0, 10, 20], &[]);
    assert_eq!(NWAFile::new(&input).err(), Some(NwaError::BadDataSize));
}

#[test]
fn rejects_sample_count_mismatch() {
    let mut f = compressed_fields(3);
    f.restsize = 3;
    let input = stream(&f, &[0, 10, 20], &[]);
    assert_eq!(NWAFile::new(&input).err(), Some(NwaError::BadSampleCount));
}

#[test]
fn rejects_last_offset_overrun() {
    let input = stream(&compressed_fields(3), &[0, 10, 100], &[]);
    assert_eq!(NWAFile::new(&input).err(), Some(NwaError::OffsetOverrun));
    let ok = stream(&compressed_fields(3), &[0, 10, 99], &[]);
    assert_eq!(NWAHeader::new(&ok).unwrap().check(), Ok(()));
}

#[test]
fn rejects_bad_channels_depth_and_level() {
    let mut f = compressed_fields(3);
    f.channels = 3;
    assert_eq!(NWAFile::new(&stream(&f, &[0, 10, 20], &[])).err(), Some(NwaError::BadChannels));
    let mut f = compressed_fields(3);
    f.bps = 24;
    assert_eq!(NWAFile::new(&stream(&f, &[0, 10, 20], &[])).err(), Some(NwaError::BadBitDepth));
    let mut f = compressed_fields(3);
    f.complevel = 6;
    assert_eq!(
        NWAFile::new(&stream(&f, &[0, 10, 20], &[])).err(),
        Some(NwaError::BadCompressionLevel)
    );
}

#[test]
fn rejects_missing_offsets() {
    let h = NWAHeader {
        channels: 1,
        bps: 8,
        freq: 8000,
        complevel: 1,
        userunlength: 0,
        blocks: 1,
        datasize: 1,
        compdatasize: 10,
        samplecount: 1,
        blocksize: 1,
        restsize: 1,
        offsets: vec![],
    };
    assert_eq!(h.check(), Err(NwaError::MissingOffsets));
}

#[test]
fn truncated_header_is_eof() {
    assert_eq!(NWAFile::new(&[1, 0, 8, 0]).err(), Some(NwaError::UnexpectedEof));
    let input = stream(&compressed_fields(3), &[0, 10], &[]);
    assert_eq!(NWAHeader::new(&input).err(), Some(NwaError::UnexpectedEof));
}

#[test]
fn zero_reset_gives_zero_sample() {
    for level in 0..=5 {
        let input = compressed(1, level, 0, 1, &[0x50, 0x0f]);
        let f = NWAFile::new(&input).unwrap();
        assert_eq!(&f.data()[44..], &[0x00]);
    }
}

#[test]
fn run_length_repeats_without_reading() {
    let input = compressed(1, 5, 1, 4, &[0x10, 0x68, 0x06, 0x00]);
    let f = NWAFile::new(&input).unwrap();
    assert_eq!(&f.data()[44..], &[0x10, 0x10, 0x10, 0x1c]);
}

#[test]
fn exponent_zero_without_runs_keeps_value() {
    let input = compressed(1, 5, 0, 3, &[0x10, 0x00, 0x00]);
    let f = NWAFile::new(&input).unwrap();
    assert_eq!(&f.data()[44..], &[0x10, 0x10, 0x10]);
}

#[test]
fn stereo_alternates_channels() {
    let input = compressed(2, 0, 0, 4, &[0x10, 0x20, 0x48, 0x04, 0x00]);
    let f = NWAFile::new(&input).unwrap();
    assert_eq!(&f.data()[44..], &[0x10, 0x18, 0x10, 0x18]);
}

#[test]
fn wide_delta_adds_shifted_magnitude() {
    // exponent 7, no reset, level 3: 8-bit field 0x02 shifted by 9 gives 1024
    let mut f = compressed_fields(1);
    f.complevel = 3;
    f.datasize = 2;
    f.samplecount = 1;
    f.restsize = 1;
    // bits: 1,1,1 | 0 | 0,1,0,0,0,0,0,0
    let input = stream(&f, &[0], &[0x34, 0x12, 0x27, 0x00]);
    let out = NWAFile::new(&input).unwrap();
    assert_eq!(&out.data()[44..], &(0x1234i16 + 1024).to_le_bytes());
}

#[test]
fn truncated_bitstream_is_eof() {
    let input = compressed(1, 5, 0, 4, &[0x10, 0x00]);
    assert_eq!(NWAFile::new(&input).err(), Some(NwaError::UnexpectedEof));
}

fn archive_with(entries: &[Vec<u8>]) -> (Vec<u8>, Vec<u8>) {
    let head = 4 + 12 * entries.len();
    let mut index = Vec::new();
    index.extend_from_slice(&(entries.len() as i32).to_le_bytes());
    let mut body = Vec::new();
    for (i, e) in entries.iter().enumerate() {
        index.extend_from_slice(&(e.len() as i32).to_le_bytes());
        index.extend_from_slice(&((head + body.len()) as i32).to_le_bytes());
        index.extend_from_slice(&(i as i32).to_le_bytes());
        body.extend_from_slice(e);
    }
    let mut all = index.clone();
    all.extend_from_slice(&body);
    (all, index)
}

#[test]
fn archive_index_is_read() {
    let a = stored(1, 8, 8000, &[1, 2]);
    let (archive, _) = archive_with(&[a.clone(), a]);
    let index = read_index(&archive, 12).unwrap();
    assert_eq!(index.len(), 2);
    assert_eq!(index[0], IndexEntry { size: 46, offset: 28, count: 0 });
    assert_eq!(index[1], IndexEntry { size: 46, offset: 74, count: 1 });
}

#[test]
fn archive_index_rejects_bad_entries() {
    assert_eq!(read_index(&[0, 0, 0, 0], 12).err(), Some(NwaError::BadIndexCount));
    let mut bad = vec![1, 0, 0, 0];
    bad.extend_from_slice(&5i32.to_le_bytes());
    bad.extend_from_slice(&0i32.to_le_bytes());
    bad.extend_from_slice(&0i32.to_le_bytes());
    assert_eq!(read_index(&bad, 12).err(), Some(NwaError::BadIndexEntry));
    assert_eq!(read_index(&bad[..10], 12).err(), Some(NwaError::UnexpectedEof));
}

#[test]
fn archive_corrupt_entry_is_isolated() {
    let good1 = stored(1, 8, 8000, &[1, 2, 3]);
    let corrupt = stream(&compressed_fields(0), &[], &[]);
    let good2 = stored(2, 16, 8000, &[4, 5, 6, 7]);
    let (archive, _) = archive_with(&[good1.clone(), corrupt, good2.clone()]);
    let index = read_index(&archive, 12).unwrap();
    let results: Vec<Result<NWAFile, NwaError>> =
        index.iter().map(|e| decode_entry(&archive, e)).collect();
    assert_eq!(&results[0].as_ref().unwrap().data()[44..], &[1, 2, 3]);
    assert_eq!(results[1].as_ref().err(), Some(&NwaError::BadBlockCount));
    assert_eq!(&results[2].as_ref().unwrap().data()[44..], &[4, 5, 6, 7]);
}

#[test]
fn filetype_from_name() {
    assert_eq!(get_filetype("bgm01.nwa"), Ok(FileType::Nwa));
    assert_eq!(get_filetype("VOICE.NWK"), Ok(FileType::Nwk));
    assert_eq!(get_filetype("se/Sound.Ovk"), Ok(FileType::Ovk));
    assert_eq!(get_filetype("music.wav"), Err(NwaError::UnknownFileType));
}

#[test]
fn blocks_follow_offsets() {
    let f = Fields {
        channels: 1,
        bps: 8,
        freq: 8000,
        complevel: 5,
        userunlength: 0,
        blocks: 2,
        datasize: 3,
        compdatasize: 4,
        samplecount: 3,
        blocksize: 2,
        restsize: 1,
    };
    let input = stream(&f, &[0, 2], &[0x10, 0x00, 0x30, 0x00]);
    let out = NWAFile::new(&input).unwrap();
    assert_eq!(out.header.blocks, 2);
    assert_eq!(out.header.offsets, vec![0, 2]);
    assert_eq!(&out.data()[44..], &[0x10, 0x10, 0x30]);
}

#[test]
fn truncated_stored_stream_is_eof() {
    let mut input = stored(1, 16, 8000, &[1, 2, 3, 4]);
    input.truncate(44 + 3);
    assert_eq!(NWAFile::new(&input).err(), Some(NwaError::UnexpectedEof));
}

#[test]
fn stored_stream_keeps_bytes_past_datasize() {
    let mut input = stored(1, 8, 8000, &[1, 2]);
    input.push(9);
    let f = NWAFile::new(&input).unwrap();
    assert_eq!(&f.data()[44..], &[1, 2, 9]);
    assert_eq!(&f.data()[40..44], &le32(2));
}

#[test]
fn entry_past_archive_end_is_eof() {
    let good = stored(1, 8, 8000, &[1, 2, 3]);
    let (mut archive, _) = archive_with(&[good]);
    archive.truncate(archive.len() - 1);
    let index = read_index(&archive, 12).unwrap();
    assert_eq!(nwa::entry_slice(&archive, &index[0]).err(), Some(NwaError::UnexpectedEof));
    assert_eq!(decode_entry(&archive, &index[0]).err(), Some(NwaError::UnexpectedEof));
}

#[test]
fn stereo_alternation_carries_across_blocks() {
    // two blocks of 3 slots, then a last block of 2: the selector continues
    let f = Fields {
        channels: 2,
        bps: 8,
        freq: 8000,
        complevel: 5,
        userunlength: 0,
        blocks: 2,
        datasize: 5,
        compdatasize: 10,
        samplecount: 5,
        blocksize: 3,
        restsize: 2,
    };
    let input = stream(&f, &[0, 4], &[0x10, 0x20, 0x00, 0x00, 0x30, 0x40, 0x00, 0x00]);
    let out = NWAFile::new(&input).unwrap();
    // first block: ch0, ch1, ch0; second block starts on ch1
    assert_eq!(&out.data()[44..], &[0x10, 0x20, 0x10, 0x40, 0x30]);
}
