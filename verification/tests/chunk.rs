use png_decoder::chunk::{get_chunks, starts_with_magic, ChunkType};
use png_decoder::error::DecodeError;

const SIGNATURE: [u8; 8] = [0x89, 0x50, 0x4e, 0x47, 0x0d, 0x0a, 0x1a, 0x0a];

fn chunk(tag: &[u8; 4], payload: &[u8]) -> Vec<u8> {
    let mut bytes = Vec::new();
    bytes.extend_from_slice(&(payload.len() as u32).to_be_bytes());
    let mut checked = tag.to_vec();
    checked.extend_from_slice(payload);
    bytes.extend_from_slice(&checked);
    bytes.extend_from_slice(&crc32fast::hash(&checked).to_be_bytes());
    bytes
}

fn file(chunks: &[Vec<u8>]) -> Vec<u8> {
    let mut bytes = SIGNATURE.to_vec();
    for chunk in chunks {
        bytes.extend_from_slice(chunk);
    }
    bytes
}

#[test]
fn chunk_tags() {
    assert_eq!(ChunkType::from_u32(0x4948_4452), Some(ChunkType::Ihdr));
    assert_eq!(ChunkType::from_u32(0x504c_5445), Some(ChunkType::Plte));
    assert_eq!(ChunkType::from_u32(0x4944_4154), Some(ChunkType::Idat));
    assert_eq!(ChunkType::from_u32(0x4945_4e44), Some(ChunkType::Iend));
    assert_eq!(ChunkType::from_u32(u32::from_be_bytes(*b"IHDR")), Some(ChunkType::Ihdr));
    assert_eq!(ChunkType::from_u32(u32::from_be_bytes(*b"tEXt")), None);
    assert_eq!(ChunkType::from_u32(u32::from_be_bytes(*b"ihdr")), None);
    assert_eq!(ChunkType::from_u32(0), None);
    for typ in [ChunkType::Ihdr, ChunkType::Plte, ChunkType::Idat, ChunkType::Iend] {
        assert_eq!(ChunkType::from_u32(typ.tag()), Some(typ));
    }
}

#[test]
fn signature_is_recognised() {
    assert!(starts_with_magic(&SIGNATURE));
    assert!(starts_with_magic(&file(&[chunk(b"IEND", &[])])));
    assert!(!starts_with_magic(&SIGNATURE[..7]));
    assert!(!starts_with_magic(&[]));
}

#[test]
fn signature_alone_holds_no_chunks() {
    assert_eq!(get_chunks(&SIGNATURE).unwrap().len(), 0);
}

#[test]
fn any_other_first_eight_bytes_are_refused() {
    let good = file(&[chunk(b"IHDR", &[0; 13]), chunk(b"IEND", &[])]);
    for at in 0..8 {
        for bit in 0..8 {
            let mut bad = good.clone();
            bad[at] ^= 1 << bit;
            assert_eq!(get_chunks(&bad).unwrap_err(), DecodeError::MagicMismatch);
        }
    }
    assert_eq!(get_chunks(&[]).unwrap_err(), DecodeError::MagicMismatch);
    assert_eq!(get_chunks(&SIGNATURE[..7]).unwrap_err(), DecodeError::MagicMismatch);
    assert_eq!(get_chunks(b"GIF89a, and then some").unwrap_err(), DecodeError::MagicMismatch);
}

#[test]
fn chunks_come_in_file_order() {
    let data = file(&[
        chunk(b"IHDR", &[1, 2, 3]),
        chunk(b"PLTE", &[4, 5, 6, 7]),
        chunk(b"IDAT", &[8]),
        chunk(b"IDAT", &[]),
        chunk(b"IDAT", &[9, 10]),
        chunk(b"IEND", &[]),
    ]);
    let chunks = get_chunks(&data).unwrap();
    let types: Vec<ChunkType> = chunks.iter().map(|chunk| chunk.typ).collect();
    assert_eq!(
        types,
        vec![
            ChunkType::Ihdr,
            ChunkType::Plte,
            ChunkType::Idat,
            ChunkType::Idat,
            ChunkType::Idat,
            ChunkType::Iend
        ]
    );
    let payloads: Vec<&[u8]> = chunks.iter().map(|chunk| chunk.data).collect();
    assert_eq!(
        payloads,
        vec![&[1u8, 2, 3][..], &[4, 5, 6, 7][..], &[8][..], &[][..], &[9, 10][..], &[][..]]
    );
    let lengths: Vec<u32> = chunks.iter().map(|chunk| chunk.length).collect();
    assert_eq!(lengths, vec![3, 4, 1, 0, 2, 0]);
    assert_eq!(chunks[5].crc, 0xae42_6082);
    assert_eq!(chunks[2].crc, crc32fast::hash(b"IDAT\x08"));
}

#[test]
fn unknown_chunks_are_passed_over() {
    let data = file(&[
        chunk(b"IHDR", &[1]),
        chunk(b"tEXt", b"Comment\0hello"),
        chunk(b"IDAT", &[2]),
        chunk(b"zzzz", &[]),
        chunk(b"IEND", &[]),
    ]);
    let chunks = get_chunks(&data).unwrap();
    let types: Vec<ChunkType> = chunks.iter().map(|chunk| chunk.typ).collect();
    assert_eq!(types, vec![ChunkType::Ihdr, ChunkType::Idat, ChunkType::Iend]);
}

#[test]
fn unknown_chunks_are_checked_all_the_same() {
    let mut data = file(&[chunk(b"tEXt", b"hello"), chunk(b"IEND", &[])]);
    data[8 + 8] ^= 1;
    assert_eq!(get_chunks(&data).unwrap_err(), DecodeError::CrcMismatch);
}

#[test]
fn the_end_chunk_ends_the_walk() {
    let mut data = file(&[chunk(b"IDAT", &[1]), chunk(b"IEND", &[]), chunk(b"IDAT", &[2])]);
    assert_eq!(get_chunks(&data).unwrap().len(), 2);
    data.extend_from_slice(&[0xff; 40]);
    assert_eq!(get_chunks(&data).unwrap().len(), 2);
}

#[test]
fn fewer_than_eight_trailing_bytes_are_left_alone() {
    for extra in 0..8 {
        let mut data = file(&[chunk(b"IDAT", &[1, 2, 3])]);
        data.extend_from_slice(&vec![0xabu8; extra]);
        assert_eq!(get_chunks(&data).unwrap().len(), 1);
    }
}

#[test]
fn a_chunk_cut_short_is_truncated() {
    let whole = file(&[chunk(b"IHDR", &[0; 13]), chunk(b"IDAT", &[1, 2, 3, 4, 5])]);
    let second = 8 + 25;
    for len in second + 8..whole.len() {
        assert_eq!(get_chunks(&whole[..len]).unwrap_err(), DecodeError::TruncatedChunk);
    }
    for len in second..second + 8 {
        assert_eq!(get_chunks(&whole[..len]).unwrap().len(), 1);
    }
    assert_eq!(get_chunks(&whole).unwrap().len(), 2);
}

#[test]
fn a_length_beyond_the_buffer_is_truncated() {
    let mut data = SIGNATURE.to_vec();
    data.extend_from_slice(&[0xff, 0xff, 0xff, 0xff]);
    data.extend_from_slice(b"IDAT");
    data.extend_from_slice(&[0; 64]);
    assert_eq!(get_chunks(&data).unwrap_err(), DecodeError::TruncatedChunk);
    // The same for a chunk of unknown type.
    data[12..16].copy_from_slice(b"abcd");
    assert_eq!(get_chunks(&data).unwrap_err(), DecodeError::TruncatedChunk);
}

#[test]
fn a_flipped_bit_in_a_payload_is_a_crc_mismatch() {
    let good = file(&[chunk(b"IHDR", &[7; 13]), chunk(b"IDAT", &[1, 2, 3]), chunk(b"IEND", &[])]);
    assert!(get_chunks(&good).is_ok());
    let payloads = [(8 + 8, 13), (8 + 25 + 8, 3)];
    for (start, len) in payloads {
        for at in start..start + len {
            for bit in 0..8 {
                let mut bad = good.clone();
                bad[at] ^= 1 << bit;
                assert_eq!(get_chunks(&bad).unwrap_err(), DecodeError::CrcMismatch);
            }
        }
    }
}

#[test]
fn a_flipped_bit_in_a_stored_crc_is_a_crc_mismatch() {
    let good = file(&[chunk(b"IHDR", &[7; 13]), chunk(b"IDAT", &[1, 2, 3]), chunk(b"IEND", &[])]);
    let fields = [8 + 8 + 13, 8 + 25 + 8 + 3, 8 + 25 + 15 + 8];
    for start in fields {
        for at in start..start + 4 {
            for bit in 0..8 {
                let mut bad = good.clone();
                bad[at] ^= 1 << bit;
                assert_eq!(get_chunks(&bad).unwrap_err(), DecodeError::CrcMismatch);
            }
        }
    }
}

#[test]
fn a_flipped_bit_in_a_type_tag_is_a_crc_mismatch() {
    let good = file(&[chunk(b"IHDR", &[7; 13]), chunk(b"IEND", &[])]);
    for at in 12..16 {
        for bit in 0..8 {
            let mut bad = good.clone();
            bad[at] ^= 1 << bit;
            assert_eq!(get_chunks(&bad).unwrap_err(), DecodeError::CrcMismatch);
        }
    }
}

#[test]
fn the_first_bad_chunk_decides() {
    let mut data = file(&[chunk(b"IDAT", &[1]), chunk(b"IDAT", &[2])]);
    data.extend_from_slice(&[0, 0, 0, 9]);
    data.extend_from_slice(b"IDAT");
    assert_eq!(get_chunks(&data).unwrap_err(), DecodeError::TruncatedChunk);
    data[8 + 8] ^= 0x80;
    assert_eq!(get_chunks(&data).unwrap_err(), DecodeError::CrcMismatch);
}
