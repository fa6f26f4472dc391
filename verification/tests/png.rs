use png_decoder::chunk::{Chunk, ChunkType};
use png_decoder::error::DecodeError;
use png_decoder::png::{
    append_idat, construct, process, process_ihdr, split_scanlines, store_inflated, to_rgb,
    uncompress_idat, InProcessPng, Png, Rgb,
};

const SIGNATURE: [u8; 8] = [0x89, 0x50, 0x4e, 0x47, 0x0d, 0x0a, 0x1a, 0x0a];

/// The two rows of a 2x2 image, each with filter tag 0 in front.
const TWO_BY_TWO: [u8; 14] = [0, 255, 0, 0, 0, 255, 0, 0, 0, 0, 255, 255, 255, 255];

/// `TWO_BY_TWO` as a zlib stream with one compressed block.
const TWO_BY_TWO_DEFLATED: [u8; 18] =
    [120, 218, 99, 248, 207, 192, 192, 0, 194, 12, 255, 129, 0, 0, 31, 238, 5, 251];

fn chunk(tag: &[u8; 4], payload: &[u8]) -> Vec<u8> {
    let mut bytes = Vec::new();
    bytes.extend_from_slice(&(payload.len() as u32).to_be_bytes());
    let mut checked = tag.to_vec();
    checked.extend_from_slice(payload);
    bytes.extend_from_slice(&checked);
    bytes.extend_from_slice(&crc32fast::hash(&checked).to_be_bytes());
    bytes
}

fn file(chunks: &[Vec<u8>]) -> Vec<u8> {
    let mut bytes = SIGNATURE.to_vec();
    for chunk in chunks {
        bytes.extend_from_slice(chunk);
    }
    bytes
}

fn header(width: u32, height: u32, rest: [u8; 5]) -> Vec<u8> {
    let mut payload = Vec::new();
    payload.extend_from_slice(&width.to_be_bytes());
    payload.extend_from_slice(&height.to_be_bytes());
    payload.extend_from_slice(&rest);
    payload
}

fn truecolour(width: u32, height: u32) -> Vec<u8> {
    chunk(b"IHDR", &header(width, height, [8, 2, 0, 0, 0]))
}

fn adler32(data: &[u8]) -> u32 {
    let (mut a, mut b) = (1u32, 0u32);
    for byte in data {
        a = (a + *byte as u32) % 65_521;
        b = (b + a) % 65_521;
    }
    (b << 16) | a
}

/// A zlib stream that holds `data` in one stored block.
fn stored(data: &[u8]) -> Vec<u8> {
    let len = data.len() as u16;
    let mut stream = vec![0x78, 0x01, 0x01];
    stream.extend_from_slice(&len.to_le_bytes());
    stream.extend_from_slice(&(!len).to_le_bytes());
    stream.extend_from_slice(data);
    stream.extend_from_slice(&adler32(data).to_be_bytes());
    stream
}

fn image(width: u32, height: u32, inflated: &[u8]) -> Vec<u8> {
    file(&[truecolour(width, height), chunk(b"IDAT", &stored(inflated)), chunk(b"IEND", &[])])
}

fn pixels(png: &Png) -> Vec<Vec<(u8, u8, u8)>> {
    png.get_data().iter().map(|row| row.iter().map(|p| (p.0, p.1, p.2)).collect()).collect()
}

fn state(width: u32, height: u32, rest: [u8; 5]) -> InProcessPng {
    let payload = header(width, height, rest);
    let mut png = InProcessPng::new();
    let chunk = Chunk { length: 13, typ: ChunkType::Ihdr, data: &payload, crc: 0 };
    process_ihdr(chunk, &mut png).unwrap();
    png
}

fn nearest(a: u8, b: u8, c: u8) -> u8 {
    let p = a as i32 + b as i32 - c as i32;
    let (pa, pb, pc) = ((p - a as i32).abs(), (p - b as i32).abs(), (p - c as i32).abs());
    if pa <= pb && pa <= pc {
        a
    } else if pb <= pc {
        b
    } else {
        c
    }
}

fn encode(tag: u8, row: &[u8], above: &[u8]) -> Vec<u8> {
    let mut line = vec![tag];
    for x in 0..row.len() {
        let a = if x >= 3 { row[x - 3] } else { 0 };
        let b = above[x];
        let c = if x >= 3 { above[x - 3] } else { 0 };
        let predicted = match tag {
            0 => 0,
            1 => a,
            2 => b,
            3 => ((a as u16 + b as u16) / 2) as u8,
            _ => nearest(a, b, c),
        };
        line.push(row[x].wrapping_sub(predicted));
    }
    line
}

#[test]
fn decodes_a_two_by_two_image() {
    let png = process(&image(2, 2, &TWO_BY_TWO)).unwrap();
    assert_eq!(png.get_width(), 2);
    assert_eq!(png.get_height(), 2);
    assert_eq!(
        pixels(&png),
        vec![vec![(255, 0, 0), (0, 255, 0)], vec![(0, 0, 255), (255, 255, 255)]]
    );
    assert_eq!(
        png.get_data(),
        &vec![vec![Rgb(255, 0, 0), Rgb(0, 255, 0)], vec![Rgb(0, 0, 255), Rgb(255, 255, 255)]]
    );
}

#[test]
fn decodes_compressed_image_data() {
    let data = file(&[
        truecolour(2, 2),
        chunk(b"IDAT", &TWO_BY_TWO_DEFLATED),
        chunk(b"IEND", &[]),
    ]);
    let png = process(&data).unwrap();
    assert_eq!((png.get_width(), png.get_height()), (2, 2));
    assert_eq!(
        pixels(&png),
        vec![vec![(255, 0, 0), (0, 255, 0)], vec![(0, 0, 255), (255, 255, 255)]]
    );
}

#[test]
fn decodes_image_data_split_over_chunks() {
    let whole = process(&image(2, 2, &TWO_BY_TWO)).unwrap();
    for cut in 0..=TWO_BY_TWO_DEFLATED.len() {
        let data = file(&[
            truecolour(2, 2),
            chunk(b"IDAT", &TWO_BY_TWO_DEFLATED[..cut]),
            chunk(b"tIME", &[0; 7]),
            chunk(b"IDAT", &TWO_BY_TWO_DEFLATED[cut..]),
            chunk(b"IEND", &[]),
        ]);
        let png = process(&data).unwrap();
        assert_eq!(png.get_data(), whole.get_data());
    }
}

#[test]
fn decodes_every_filter() {
    let (width, height) = (4usize, 10usize);
    let mut seed: u32 = 0x2545_f491;
    let mut rows: Vec<Vec<u8>> = Vec::new();
    for _ in 0..height {
        let mut row = Vec::new();
        for _ in 0..width * 3 {
            seed ^= seed << 13;
            seed ^= seed >> 17;
            seed ^= seed << 5;
            row.push((seed >> 9) as u8);
        }
        rows.push(row);
    }
    let mut inflated = Vec::new();
    for (index, row) in rows.iter().enumerate() {
        let zeros = vec![0u8; width * 3];
        let above = if index == 0 { &zeros } else { &rows[index - 1] };
        inflated.extend(encode((index % 5) as u8, row, above));
    }
    let png = process(&image(width as u32, height as u32, &inflated)).unwrap();
    assert_eq!(png.get_width(), 4);
    assert_eq!(png.get_height(), 10);
    let expected: Vec<Vec<(u8, u8, u8)>> = rows
        .iter()
        .map(|row| row.chunks(3).map(|p| (p[0], p[1], p[2])).collect())
        .collect();
    assert_eq!(pixels(&png), expected);
}

#[test]
fn decoding_twice_gives_the_same() {
    let data = image(2, 2, &TWO_BY_TWO);
    let first = process(&data).unwrap();
    let second = process(&data).unwrap();
    assert_eq!(first.get_width(), second.get_width());
    assert_eq!(first.get_height(), second.get_height());
    assert_eq!(first.get_data(), second.get_data());

    let mut bad = data.clone();
    bad[40] ^= 4;
    assert_eq!(process(&bad).unwrap_err(), process(&bad).unwrap_err());
    let garbage = file(&[truecolour(1, 1), chunk(b"IDAT", &[1, 2, 3, 4])]);
    assert_eq!(process(&garbage).unwrap_err(), process(&garbage).unwrap_err());
}

#[test]
fn a_buffer_without_the_signature_is_refused() {
    let good = image(2, 2, &TWO_BY_TWO);
    assert!(process(&good).is_ok());
    for at in 0..8 {
        for bit in 0..8 {
            let mut bad = good.clone();
            bad[at] ^= 1 << bit;
            assert_eq!(process(&bad).unwrap_err(), DecodeError::MagicMismatch);
        }
    }
    assert_eq!(process(&good[1..]).unwrap_err(), DecodeError::MagicMismatch);
    assert_eq!(process(&good[..5]).unwrap_err(), DecodeError::MagicMismatch);
    assert_eq!(process(&[]).unwrap_err(), DecodeError::MagicMismatch);
    assert_eq!(process(&[0u8; 100]).unwrap_err(), DecodeError::MagicMismatch);
}

#[test]
fn a_flipped_bit_in_any_payload_or_crc_is_detected() {
    let good = image(2, 2, &TWO_BY_TWO);
    assert!(process(&good).is_ok());
    let mut start = 8;
    let mut seen = 0;
    while start < good.len() {
        let length =
            u32::from_be_bytes([good[start], good[start + 1], good[start + 2], good[start + 3]])
                as usize;
        for at in start + 8..start + 12 + length {
            for bit in 0..8 {
                let mut bad = good.clone();
                bad[at] ^= 1 << bit;
                assert_eq!(
                    process(&bad).unwrap_err(),
                    DecodeError::CrcMismatch,
                    "byte {} bit {}",
                    at,
                    bit
                );
            }
        }
        start += 12 + length;
        seen += 1;
    }
    assert_eq!(seen, 3);
}

#[test]
fn data_that_is_no_whole_number_of_rows_is_refused() {
    for len in 0..=30usize {
        let inflated = vec![0u8; len];
        let result = process(&image(2, 2, &inflated));
        if len == 14 {
            assert!(result.is_ok());
        } else {
            assert_eq!(result.unwrap_err(), DecodeError::ScanlineSizeMismatch, "length {}", len);
        }
    }
}

#[test]
fn data_for_another_number_of_rows_is_refused() {
    let three_rows = vec![0u8; 21];
    assert_eq!(
        process(&image(2, 2, &three_rows)).unwrap_err(),
        DecodeError::ScanlineSizeMismatch
    );
    assert_eq!(
        process(&image(2, 4, &three_rows)).unwrap_err(),
        DecodeError::ScanlineSizeMismatch
    );
    assert!(process(&image(2, 3, &three_rows)).is_ok());
    // Fourteen bytes are two rows of two pixels, not one row of four.
    assert_eq!(
        process(&image(4, 1, &TWO_BY_TWO)).unwrap_err(),
        DecodeError::ScanlineSizeMismatch
    );
}

#[test]
fn an_image_without_data_is_refused() {
    let data = file(&[truecolour(2, 2), chunk(b"IEND", &[])]);
    assert_eq!(process(&data).unwrap_err(), DecodeError::ScanlineSizeMismatch);
}

#[test]
fn data_before_the_header_is_refused() {
    let data = file(&[
        chunk(b"IDAT", &stored(&TWO_BY_TWO)),
        truecolour(2, 2),
        chunk(b"IEND", &[]),
    ]);
    assert_eq!(process(&data).unwrap_err(), DecodeError::MissingHeader);
}

#[test]
fn a_palette_before_the_header_is_refused() {
    let data = file(&[
        chunk(b"PLTE", &[1, 2, 3]),
        truecolour(2, 2),
        chunk(b"IDAT", &stored(&TWO_BY_TWO)),
        chunk(b"IEND", &[]),
    ]);
    assert_eq!(process(&data).unwrap_err(), DecodeError::MissingHeader);
}

#[test]
fn a_palette_behind_the_header_changes_nothing() {
    let data = file(&[
        truecolour(2, 2),
        chunk(b"PLTE", &[1, 2, 3, 4, 5, 6]),
        chunk(b"IDAT", &stored(&TWO_BY_TWO)),
        chunk(b"IEND", &[]),
    ]);
    let png = process(&data).unwrap();
    assert_eq!(png.get_data(), process(&image(2, 2, &TWO_BY_TWO)).unwrap().get_data());
}

#[test]
fn a_file_without_a_header_is_refused() {
    assert_eq!(process(&SIGNATURE).unwrap_err(), DecodeError::MissingHeader);
    assert_eq!(process(&file(&[chunk(b"IEND", &[])])).unwrap_err(), DecodeError::MissingHeader);
}

#[test]
fn the_last_header_counts() {
    let data = file(&[
        truecolour(7, 9),
        truecolour(2, 2),
        chunk(b"IDAT", &stored(&TWO_BY_TWO)),
        chunk(b"IEND", &[]),
    ]);
    let png = process(&data).unwrap();
    assert_eq!((png.get_width(), png.get_height()), (2, 2));
}

#[test]
fn what_follows_the_end_chunk_is_not_read() {
    let mut data = image(2, 2, &TWO_BY_TWO);
    data.extend_from_slice(&chunk(b"IHDR", &[0; 13]));
    data.extend_from_slice(&[1, 2, 3]);
    let png = process(&data).unwrap();
    assert_eq!((png.get_width(), png.get_height()), (2, 2));
}

#[test]
fn a_bad_header_is_refused() {
    let with = |payload: &[u8]| {
        file(&[chunk(b"IHDR", payload), chunk(b"IDAT", &stored(&TWO_BY_TWO)), chunk(b"IEND", &[])])
    };
    assert_eq!(
        process(&with(&header(0, 2, [8, 2, 0, 0, 0]))).unwrap_err(),
        DecodeError::InvalidHeader
    );
    assert_eq!(
        process(&with(&header(2, 0, [8, 2, 0, 0, 0]))).unwrap_err(),
        DecodeError::InvalidHeader
    );
    assert_eq!(process(&with(&[0; 12])).unwrap_err(), DecodeError::InvalidHeader);
    assert_eq!(
        process(&with(&header(2, 2, [8, 2, 1, 0, 0]))).unwrap_err(),
        DecodeError::UnsupportedHeaderMethod
    );
    assert_eq!(
        process(&with(&header(2, 2, [8, 2, 0, 1, 0]))).unwrap_err(),
        DecodeError::UnsupportedHeaderMethod
    );
}

#[test]
fn an_unknown_method_is_refused_whatever_else_the_header_holds() {
    for rest in [[8u8, 2, 1, 0, 0], [8, 2, 0, 1, 0], [8, 1, 1, 0, 0], [8, 2, 0, 1, 7]] {
        for (width, height) in [(1u32, 1u32), (0, 1), (1, 0)] {
            let payload = header(width, height, rest);
            let data = file(&[
                chunk(b"IHDR", &payload),
                chunk(b"IDAT", &stored(&TWO_BY_TWO)),
                chunk(b"IEND", &[]),
            ]);
            assert_eq!(process(&data).unwrap_err(), DecodeError::UnsupportedHeaderMethod);

            let mut png = state(2, 2, [8, 2, 0, 0, 0]);
            let chunk = Chunk { length: 13, typ: ChunkType::Ihdr, data: &payload, crc: 0 };
            assert_eq!(process_ihdr(chunk, &mut png), Err(DecodeError::UnsupportedHeaderMethod));
            assert_eq!(png.get_bpp(), Ok(3));
            assert!(png.get_scanlines().is_empty());
            split_scanlines(&mut png, &TWO_BY_TWO).unwrap();
            let image = png.finalize().unwrap();
            assert_eq!((image.get_width(), image.get_height()), (2, 2));
        }
    }
}

#[test]
fn other_kinds_of_image_are_unsupported() {
    for rest in [[8u8, 0, 0, 0, 0], [8, 3, 0, 0, 0], [8, 4, 0, 0, 0], [8, 6, 0, 0, 0], [16, 2, 0, 0, 0], [4, 2, 0, 0, 0]] {
        let data = file(&[
            chunk(b"IHDR", &header(2, 2, rest)),
            chunk(b"IDAT", &stored(&TWO_BY_TWO)),
            chunk(b"IEND", &[]),
        ]);
        assert_eq!(process(&data).unwrap_err(), DecodeError::UnsupportedConfiguration);
    }
}

#[test]
fn a_broken_stream_is_an_inflate_failure() {
    let data = file(&[truecolour(2, 2), chunk(b"IDAT", &[0, 0, 0, 0]), chunk(b"IEND", &[])]);
    match process(&data).unwrap_err() {
        DecodeError::InflateFailure(cause) => assert!(!cause.is_empty()),
        other => panic!("unexpected failure {:?}", other),
    }
    let mut stream = stored(&TWO_BY_TWO);
    let last = stream.len() - 1;
    stream[last] ^= 1;
    let data = file(&[truecolour(2, 2), chunk(b"IDAT", &stream), chunk(b"IEND", &[])]);
    assert!(matches!(process(&data).unwrap_err(), DecodeError::InflateFailure(_)));
}

#[test]
fn an_unknown_filter_tag_is_refused() {
    let mut inflated = TWO_BY_TWO;
    inflated[7] = 5;
    assert_eq!(process(&image(2, 2, &inflated)).unwrap_err(), DecodeError::InvalidFilterType);
}

#[test]
fn a_new_state_is_empty() {
    let png = InProcessPng::new();
    assert!(png.get_scanlines().is_empty());
    assert_eq!(png.get_bpp(), Err(DecodeError::MissingHeader));
}

#[test]
fn bytes_per_pixel() {
    assert_eq!(state(1, 1, [8, 2, 0, 0, 0]).get_bpp(), Ok(3));
    assert_eq!(state(1, 1, [8, 2, 0, 0, 1]).get_bpp(), Ok(3));
    assert_eq!(state(1, 1, [16, 2, 0, 0, 0]).get_bpp(), Err(DecodeError::UnsupportedConfiguration));
    assert_eq!(state(1, 1, [8, 0, 0, 0, 0]).get_bpp(), Err(DecodeError::UnsupportedConfiguration));
    assert_eq!(state(1, 1, [8, 6, 0, 0, 0]).get_bpp(), Err(DecodeError::UnsupportedConfiguration));
}

#[test]
fn a_refused_header_leaves_the_state() {
    let mut png = state(2, 2, [8, 2, 0, 0, 0]);
    let bad = header(0, 0, [8, 2, 0, 0, 0]);
    let chunk = Chunk { length: 13, typ: ChunkType::Ihdr, data: &bad, crc: 0 };
    assert_eq!(process_ihdr(chunk, &mut png), Err(DecodeError::InvalidHeader));
    split_scanlines(&mut png, &TWO_BY_TWO).unwrap();
    assert_eq!(png.get_scanlines().len(), 2);
}

#[test]
fn scanlines_are_cut_in_order() {
    let mut png = state(1, 3, [8, 2, 0, 0, 0]);
    assert_eq!(split_scanlines(&mut png, &[0, 1, 2, 3, 1, 4, 5, 6, 2, 7, 8, 9]), Ok(()));
    assert_eq!(
        png.get_scanlines(),
        &vec![vec![0u8, 1, 2, 3], vec![1u8, 4, 5, 6], vec![2u8, 7, 8, 9]]
    );
}

#[test]
fn refused_data_leaves_the_scanlines() {
    let mut png = state(1, 1, [8, 2, 0, 0, 0]);
    split_scanlines(&mut png, &[0, 1, 2, 3]).unwrap();
    assert_eq!(split_scanlines(&mut png, &[0, 1, 2]), Err(DecodeError::ScanlineSizeMismatch));
    assert_eq!(
        split_scanlines(&mut png, &[0, 1, 2, 3, 0, 1, 2, 3]),
        Err(DecodeError::ScanlineSizeMismatch)
    );
    assert_eq!(split_scanlines(&mut png, &[]), Err(DecodeError::ScanlineSizeMismatch));
    assert_eq!(png.get_scanlines(), &vec![vec![0u8, 1, 2, 3]]);
    let mut headless = InProcessPng::new();
    assert_eq!(split_scanlines(&mut headless, &[0, 1, 2, 3]), Err(DecodeError::MissingHeader));
}

#[test]
fn compressed_data_is_gathered_and_inflated() {
    let mut png = state(2, 2, [8, 2, 0, 0, 0]);
    for piece in TWO_BY_TWO_DEFLATED.chunks(5) {
        let chunk =
            Chunk { length: piece.len() as u32, typ: ChunkType::Idat, data: piece, crc: 0 };
        append_idat(chunk, &mut png);
    }
    assert_eq!(uncompress_idat(&mut png), Ok(()));
    assert_eq!(png.get_scanlines(), &vec![TWO_BY_TWO[..7].to_vec(), TWO_BY_TWO[7..].to_vec()]);
    let image = png.finalize().unwrap();
    assert_eq!(image.get_data()[1], vec![Rgb(0, 0, 255), Rgb(255, 255, 255)]);
}

#[test]
fn inflated_bytes_are_cut_and_kept() {
    let mut png = state(2, 2, [8, 2, 0, 0, 0]);
    assert_eq!(store_inflated(&mut png, Ok(TWO_BY_TWO.to_vec())), Ok(()));
    assert_eq!(png.get_scanlines(), &vec![TWO_BY_TWO[..7].to_vec(), TWO_BY_TWO[7..].to_vec()]);
    let image = png.finalize().unwrap();
    assert_eq!(
        pixels(&image),
        vec![vec![(255, 0, 0), (0, 255, 0)], vec![(0, 0, 255), (255, 255, 255)]]
    );
}

#[test]
fn a_refusal_of_the_decompressor_carries_its_message() {
    let mut png = state(1, 1, [8, 2, 0, 0, 0]);
    store_inflated(&mut png, Ok(vec![0, 1, 2, 3])).unwrap();
    assert_eq!(
        store_inflated(&mut png, Err(String::from("Checksum mismatch!"))),
        Err(DecodeError::InflateFailure(String::from("Checksum mismatch!")))
    );
    assert_eq!(
        store_inflated(&mut png, Err(String::new())),
        Err(DecodeError::InflateFailure(String::new()))
    );
    assert_eq!(png.get_scanlines(), &vec![vec![0u8, 1, 2, 3]]);
    assert_eq!(png.get_bpp(), Ok(3));
}

#[test]
fn a_refusal_counts_before_a_missing_header() {
    let mut png = InProcessPng::new();
    assert_eq!(
        store_inflated(&mut png, Err(String::from("no"))),
        Err(DecodeError::InflateFailure(String::from("no")))
    );
    assert_eq!(store_inflated(&mut png, Ok(vec![0, 1, 2, 3])), Err(DecodeError::MissingHeader));
    assert_eq!(store_inflated(&mut png, Ok(vec![])), Err(DecodeError::MissingHeader));
}

#[test]
fn inflated_bytes_of_another_size_are_refused_and_change_nothing() {
    let mut png = state(1, 2, [8, 2, 0, 0, 0]);
    store_inflated(&mut png, Ok(vec![0, 1, 2, 3, 0, 4, 5, 6])).unwrap();
    for len in [0usize, 1, 4, 7, 9, 12, 16] {
        assert_eq!(
            store_inflated(&mut png, Ok(vec![0u8; len])),
            Err(DecodeError::ScanlineSizeMismatch)
        );
    }
    assert_eq!(png.get_scanlines(), &vec![vec![0u8, 1, 2, 3], vec![0u8, 4, 5, 6]]);
    let mut grey = state(1, 1, [8, 0, 0, 0, 0]);
    assert_eq!(
        store_inflated(&mut grey, Ok(vec![0, 1])),
        Err(DecodeError::UnsupportedConfiguration)
    );
}

#[test]
fn inflation_comes_before_the_look_at_the_header() {
    let mut png = InProcessPng::new();
    let chunk = Chunk { length: 2, typ: ChunkType::Idat, data: &[0xff, 0xff], crc: 0 };
    append_idat(chunk, &mut png);
    assert!(matches!(uncompress_idat(&mut png), Err(DecodeError::InflateFailure(_))));
    assert_eq!(uncompress_idat(&mut InProcessPng::new()), Err(DecodeError::MissingHeader));
}

#[test]
fn a_state_without_a_header_holds_no_image() {
    assert_eq!(InProcessPng::new().finalize().unwrap_err(), DecodeError::MissingHeader);
    assert_eq!(construct(InProcessPng::new()).unwrap_err(), DecodeError::MissingHeader);
}

#[test]
fn a_state_without_scanlines_holds_no_rows() {
    let image = construct(state(3, 5, [8, 2, 0, 0, 0])).unwrap();
    assert_eq!((image.get_width(), image.get_height()), (3, 5));
    assert!(image.get_data().is_empty());
}

#[test]
fn bytes_are_grouped_in_threes() {
    assert_eq!(to_rgb(&vec![1, 2, 3, 4, 5, 6]), Ok(vec![Rgb(1, 2, 3), Rgb(4, 5, 6)]));
    assert_eq!(to_rgb(&vec![9, 8, 7]), Ok(vec![Rgb(9, 8, 7)]));
    assert_eq!(to_rgb(&vec![]), Ok(vec![]));
}

#[test]
fn bytes_that_are_no_whole_pixels_are_refused() {
    for len in [1usize, 2, 4, 5, 7, 100] {
        assert_eq!(to_rgb(&vec![0u8; len]), Err(DecodeError::InternalInvariantViolation));
    }
}
