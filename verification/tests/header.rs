use png_decoder::endian::BigEndian4;
use png_decoder::error::DecodeError;
use png_decoder::header::{ColorType, Compression, FilterMethod, Ihdr, Interlace};

fn payload(width: u32, height: u32, rest: [u8; 5]) -> Vec<u8> {
    let mut bytes = Vec::new();
    bytes.extend_from_slice(&width.to_be_bytes());
    bytes.extend_from_slice(&height.to_be_bytes());
    bytes.extend_from_slice(&rest);
    bytes
}

#[test]
fn big_endian_reads_most_significant_byte_first() {
    assert_eq!(BigEndian4([0, 0, 0, 0]).get(), 0);
    assert_eq!(BigEndian4([0, 0, 0, 13]).get(), 13);
    assert_eq!(BigEndian4([0x49, 0x48, 0x44, 0x52]).get(), 0x4948_4452);
    assert_eq!(BigEndian4([0x12, 0x34, 0x56, 0x78]).get(), 0x1234_5678);
    assert_eq!(BigEndian4([255, 255, 255, 255]).get(), u32::MAX);
}

#[test]
fn big_endian_agrees_with_std() {
    for n in [1u32, 255, 256, 65_535, 65_536, 16_777_215, 16_777_216, 0x8000_0000, 0xdead_beef] {
        assert_eq!(BigEndian4(n.to_be_bytes()).get(), n);
    }
}

#[test]
fn big_endian_reads_at_an_offset() {
    let data = [9u8, 0, 0, 1, 2, 9];
    assert_eq!(BigEndian4::read(&data, 1).get(), 0x0000_0102);
    assert_eq!(BigEndian4::read(&data, 2).0, [0, 1, 2, 9]);
}

#[test]
fn header_fields_are_read_in_order() {
    let ihdr = Ihdr::parse(&payload(640, 480, [8, 2, 0, 0, 0])).unwrap();
    assert_eq!(ihdr.width(), 640);
    assert_eq!(ihdr.height(), 480);
    assert_eq!(ihdr.bit_depth(), 8);
    assert_eq!(ihdr.colour_type(), ColorType { palette: false, color: true, alpha: false });
    assert_eq!(ihdr.compression_method(), Compression::InflateDeflate);
    assert_eq!(ihdr.filter_method(), FilterMethod::AdaptiveFiltering);
    assert_eq!(ihdr.interlace_method(), Interlace::No);
}

#[test]
fn header_keeps_what_it_does_not_decode() {
    let ihdr = Ihdr::parse(&payload(1, 0xffff_ffff, [16, 6, 0, 0, 1])).unwrap();
    assert_eq!(ihdr.width(), 1);
    assert_eq!(ihdr.height(), 0xffff_ffff);
    assert_eq!(ihdr.bit_depth(), 16);
    assert_eq!(ihdr.colour_type(), ColorType { palette: false, color: true, alpha: true });
    assert_eq!(ihdr.interlace_method(), Interlace::Adam7);
}

#[test]
fn header_must_have_thirteen_bytes() {
    let good = payload(1, 1, [8, 2, 0, 0, 0]);
    assert!(Ihdr::parse(&good).is_ok());
    assert_eq!(Ihdr::parse(&good[..12]).unwrap_err(), DecodeError::InvalidHeader);
    let mut long = good.clone();
    long.push(0);
    assert_eq!(Ihdr::parse(&long).unwrap_err(), DecodeError::InvalidHeader);
    assert_eq!(Ihdr::parse(&[]).unwrap_err(), DecodeError::InvalidHeader);
}

#[test]
fn header_refuses_zero_dimensions() {
    assert_eq!(
        Ihdr::parse(&payload(0, 1, [8, 2, 0, 0, 0])).unwrap_err(),
        DecodeError::InvalidHeader
    );
    assert_eq!(
        Ihdr::parse(&payload(1, 0, [8, 2, 0, 0, 0])).unwrap_err(),
        DecodeError::InvalidHeader
    );
}

#[test]
fn header_refuses_unknown_methods() {
    assert_eq!(
        Ihdr::parse(&payload(1, 1, [8, 2, 1, 0, 0])).unwrap_err(),
        DecodeError::UnsupportedHeaderMethod
    );
    assert_eq!(
        Ihdr::parse(&payload(1, 1, [8, 2, 0, 1, 0])).unwrap_err(),
        DecodeError::UnsupportedHeaderMethod
    );
    assert_eq!(
        Ihdr::parse(&payload(1, 1, [8, 2, 255, 255, 0])).unwrap_err(),
        DecodeError::UnsupportedHeaderMethod
    );
}

#[test]
fn header_refuses_unknown_methods_whatever_else_it_holds() {
    // A zero width, a zero height, both.
    for (width, height) in [(0u32, 1u32), (1, 0), (0, 0)] {
        for methods in [[1u8, 0], [0, 1], [7, 9]] {
            assert_eq!(
                Ihdr::parse(&payload(width, height, [8, 2, methods[0], methods[1], 0]))
                    .unwrap_err(),
                DecodeError::UnsupportedHeaderMethod
            );
        }
    }
    // An undefined colour type.
    for bits in [1u8, 5, 7, 8, 255] {
        assert_eq!(
            Ihdr::parse(&payload(1, 1, [8, bits, 1, 0, 0])).unwrap_err(),
            DecodeError::UnsupportedHeaderMethod
        );
        assert_eq!(
            Ihdr::parse(&payload(1, 1, [8, bits, 0, 1, 0])).unwrap_err(),
            DecodeError::UnsupportedHeaderMethod
        );
    }
    // An undefined interlace method.
    assert_eq!(
        Ihdr::parse(&payload(1, 1, [8, 2, 0, 3, 9])).unwrap_err(),
        DecodeError::UnsupportedHeaderMethod
    );
    // Everything wrong at once.
    assert_eq!(
        Ihdr::parse(&payload(0, 0, [0, 255, 1, 1, 255])).unwrap_err(),
        DecodeError::UnsupportedHeaderMethod
    );
}

#[test]
fn header_of_another_size_is_refused_before_its_methods_are_read() {
    let mut long = payload(1, 1, [8, 2, 1, 1, 0]);
    long.push(0);
    assert_eq!(Ihdr::parse(&long).unwrap_err(), DecodeError::InvalidHeader);
    assert_eq!(
        Ihdr::parse(&payload(1, 1, [8, 2, 1, 1, 0])[..12]).unwrap_err(),
        DecodeError::InvalidHeader
    );
}

#[test]
fn header_refuses_undefined_colour_types_and_interlace_methods() {
    for bits in [1u8, 5, 7, 8, 16, 255] {
        assert_eq!(
            Ihdr::parse(&payload(1, 1, [8, bits, 0, 0, 0])).unwrap_err(),
            DecodeError::InvalidHeader
        );
    }
    for byte in [2u8, 3, 128, 255] {
        assert_eq!(
            Ihdr::parse(&payload(1, 1, [8, 2, 0, 0, byte])).unwrap_err(),
            DecodeError::InvalidHeader
        );
    }
}

#[test]
fn colour_type_flags() {
    assert_eq!(
        ColorType::from_bits(0),
        Some(ColorType { palette: false, color: false, alpha: false })
    );
    assert_eq!(
        ColorType::from_bits(2),
        Some(ColorType { palette: false, color: true, alpha: false })
    );
    assert_eq!(
        ColorType::from_bits(3),
        Some(ColorType { palette: true, color: true, alpha: false })
    );
    assert_eq!(
        ColorType::from_bits(4),
        Some(ColorType { palette: false, color: false, alpha: true })
    );
    assert_eq!(
        ColorType::from_bits(6),
        Some(ColorType { palette: false, color: true, alpha: true })
    );
    for bits in 0..=255u8 {
        match ColorType::from_bits(bits) {
            Some(colour) => {
                assert!([0u8, 2, 3, 4, 6].contains(&bits));
                assert_eq!(colour.bits(), bits);
                assert_eq!(colour.is_truecolor(), bits == 2);
            }
            None => assert!(![0u8, 2, 3, 4, 6].contains(&bits)),
        }
    }
}
