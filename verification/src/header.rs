//! The image header: geometry and encoding methods.

use crate::endian::{be_u32_at, BigEndian4};
use crate::error::{DecodeError, Failure};
use vstd::prelude::*;

verus! {

/// Size of the header payload in bytes.
pub const IHDR_SIZE: usize = 13;

/// Bit of the colour type byte that says a palette is used.
pub const COLORTYPE_PALETTE: u8 = 1;

/// Bit of the colour type byte that says colour is used.
pub const COLORTYPE_COLOR: u8 = 2;

/// Bit of the colour type byte that says an alpha channel is present.
pub const COLORTYPE_ALPHA_CHANNEL: u8 = 4;

/// How pixels are to be interpreted, as three named flags.
#[derive(Debug, Clone, Copy, PartialEq, Eq, Structural)]
pub struct ColorType {
    pub palette: bool,
    pub color: bool,
    pub alpha: bool,
}

/// The colour type that a header byte names. The format defines five:
/// greyscale (0), truecolour (2), indexed colour (3), greyscale with alpha
/// (4) and truecolour with alpha (6).
pub open spec fn color_type_of(bits: u8) -> Option<ColorType> {
    if bits == 0 || bits == 2 || bits == 3 || bits == 4 || bits == 6 {
        Some(
            ColorType {
                palette: bits % 2 == 1,
                color: (bits / 2) % 2 == 1,
                alpha: (bits / 4) % 2 == 1,
            },
        )
    } else {
        None
    }
}

impl ColorType {
    /// The header byte for this colour type.
    pub open spec fn spec_bits(self) -> u8 {
        ((if self.palette {
            1int
        } else {
            0int
        }) + (if self.color {
            2int
        } else {
            0int
        }) + (if self.alpha {
            4int
        } else {
            0int
        })) as u8
    }

    /// Whether this is plain truecolour: colour, no palette, no alpha.
    pub open spec fn spec_is_truecolor(self) -> bool {
        self.color && !self.palette && !self.alpha
    }

    /// Reads a colour type byte; `None` for a combination of flags that the
    /// format does not define.
    pub fn from_bits(bits: u8) -> (colour: Option<ColorType>)
        ensures
            colour == color_type_of(bits),
    {
        match bits {
            0 => Some(ColorType { palette: false, color: false, alpha: false }),
            2 => Some(ColorType { palette: false, color: true, alpha: false }),
            3 => Some(ColorType { palette: true, color: true, alpha: false }),
            4 => Some(ColorType { palette: false, color: false, alpha: true }),
            6 => Some(ColorType { palette: false, color: true, alpha: true }),
            _ => None,
        }
    }

    /// The header byte for this colour type.
    #[verifier::when_used_as_spec(spec_bits)]
    pub fn bits(self) -> (bits: u8)
        ensures
            bits == self.spec_bits(),
    {
        let mut bits: u8 = 0;
        if self.palette {
            bits = bits + COLORTYPE_PALETTE;
        }
        if self.color {
            bits = bits + COLORTYPE_COLOR;
        }
        if self.alpha {
            bits = bits + COLORTYPE_ALPHA_CHANNEL;
        }
        bits
    }

    /// Whether this is plain truecolour: colour, no palette, no alpha.
    #[verifier::when_used_as_spec(spec_is_truecolor)]
    pub fn is_truecolor(self) -> (yes: bool)
        ensures
            yes == self.spec_is_truecolor(),
    {
        self.color && !self.palette && !self.alpha
    }
}

/// A colour type read from a byte writes back as that byte.
pub proof fn law_color_type_round_trip(bits: u8)
    requires
        color_type_of(bits) is Some,
    ensures
        color_type_of(bits).unwrap().bits() == bits,
{
}

/// Order in which the rows are transmitted.
#[derive(Debug, Clone, Copy, PartialEq, Eq, Structural)]
pub enum Interlace {
    No,
    Adam7,
}

/// The interlace method that a header byte names.
pub open spec fn interlace_of(byte: u8) -> Option<Interlace> {
    if byte == 0 {
        Some(Interlace::No)
    } else if byte == 1 {
        Some(Interlace::Adam7)
    } else {
        None
    }
}

/// How the image data is compressed. The format defines one method.
#[derive(Debug, Clone, Copy, PartialEq, Eq, Structural)]
pub enum Compression {
    InflateDeflate,
}

/// How scanlines are filtered before compression. The format defines one
/// method.
#[derive(Debug, Clone, Copy, PartialEq, Eq, Structural)]
pub enum FilterMethod {
    AdaptiveFiltering,
}

/// The header as a mathematical value.
pub struct Header {
    pub width: u32,
    pub height: u32,
    pub bit_depth: u8,
    pub colour_type: ColorType,
    pub compression_method: Compression,
    pub filter_method: FilterMethod,
    pub interlace_method: Interlace,
}

/// Whether a header payload of the right size names a compression or filter
/// method other than method 0, the only one of each that the format defines.
pub open spec fn names_unknown_method(payload: Seq<u8>) -> bool {
    payload.len() == IHDR_SIZE && (payload[10] != 0 || payload[11] != 0)
}

/// What a header payload says. The payload has thirteen bytes: width and
/// height (four bytes each, big-endian), bit depth, colour type, compression
/// method, filter method, interlace method. A payload of any other size is
/// no header. A payload of the right size is looked at for its methods
/// first: an unknown method is reported as such, whatever the other fields
/// hold. Then come the fields themselves: neither dimension may be zero, and
/// colour type and interlace method must be ones that the format defines.
pub open spec fn header_of(payload: Seq<u8>) -> Result<Header, Failure> {
    if payload.len() != IHDR_SIZE {
        Err(Failure::InvalidHeader)
    } else if payload[10] != 0 || payload[11] != 0 {
        Err(Failure::UnsupportedHeaderMethod)
    } else if be_u32_at(payload, 0) == 0 || be_u32_at(payload, 4) == 0 {
        Err(Failure::InvalidHeader)
    } else if color_type_of(payload[9]) is None {
        Err(Failure::InvalidHeader)
    } else if interlace_of(payload[12]) is None {
        Err(Failure::InvalidHeader)
    } else {
        Ok(
            Header {
                width: be_u32_at(payload, 0),
                height: be_u32_at(payload, 4),
                bit_depth: payload[8],
                colour_type: color_type_of(payload[9]).unwrap(),
                compression_method: Compression::InflateDeflate,
                filter_method: FilterMethod::AdaptiveFiltering,
                interlace_method: interlace_of(payload[12]).unwrap(),
            },
        )
    }
}

/// A header payload is refused for its method exactly when it has the right
/// size and names an unknown compression or filter method, whatever its
/// other fields hold.
pub proof fn law_unknown_method_refused(payload: Seq<u8>)
    ensures
        header_of(payload) == Err::<Header, Failure>(Failure::UnsupportedHeaderMethod)
            <==> names_unknown_method(payload),
{
}

/// Bytes per pixel of the one configuration that is decoded, 8-bit
/// truecolour; a failure for every other header, and for none at all.
pub open spec fn bpp_of(header: Option<Header>) -> Result<nat, Failure> {
    match header {
        None => Err(Failure::MissingHeader),
        Some(h) => if h.colour_type.is_truecolor() && h.bit_depth == 8 {
            Ok(3)
        } else {
            Err(Failure::UnsupportedConfiguration)
        },
    }
}

/// A header that was accepted has neither zero width nor zero height.
pub proof fn law_header_dimensions(payload: Seq<u8>, header: Header)
    requires
        header_of(payload) == Ok::<Header, Failure>(header),
    ensures
        header.width > 0,
        header.height > 0,
{
}

/// The image header. Neither its width nor its height is zero.
#[derive(Debug, Clone, Copy)]
pub struct Ihdr {
    width: BigEndian4,
    height: BigEndian4,
    bit_depth: u8,
    colour_type: ColorType,
    compression_method: Compression,
    filter_method: FilterMethod,
    interlace_method: Interlace,
}

impl View for Ihdr {
    type V = Header;

    closed spec fn view(&self) -> Header {
        Header {
            width: self.width.value(),
            height: self.height.value(),
            bit_depth: self.bit_depth,
            colour_type: self.colour_type,
            compression_method: self.compression_method,
            filter_method: self.filter_method,
            interlace_method: self.interlace_method,
        }
    }
}

impl Ihdr {
    #[verifier::type_invariant]
    spec fn inv(&self) -> bool {
        self.width.value() > 0 && self.height.value() > 0
    }

    /// Reads a header payload. A payload of the right size that names an
    /// unknown compression or filter method is refused for that, whatever
    /// else it holds.
    pub fn parse(data: &[u8]) -> (result: Result<Ihdr, DecodeError>)
        ensures
            match result {
                Ok(ihdr) => header_of(data@) == Ok::<Header, Failure>(ihdr@),
                Err(e) => header_of(data@) == Err::<Header, Failure>(e@),
            },
            names_unknown_method(data@) <==> result matches Err(
                DecodeError::UnsupportedHeaderMethod,
            ),
    {
        if data.len() != IHDR_SIZE {
            return Err(DecodeError::InvalidHeader);
        }
        if data[10] != 0 || data[11] != 0 {
            return Err(DecodeError::UnsupportedHeaderMethod);
        }
        let width = BigEndian4::read(data, 0);
        let height = BigEndian4::read(data, 4);
        if width.get() == 0 || height.get() == 0 {
            return Err(DecodeError::InvalidHeader);
        }
        let colour_type = match ColorType::from_bits(data[9]) {
            Some(colour_type) => colour_type,
            None => {
                return Err(DecodeError::InvalidHeader);
            },
        };
        let interlace_method = match data[12] {
            0 => Interlace::No,
            1 => Interlace::Adam7,
            _ => {
                return Err(DecodeError::InvalidHeader);
            },
        };
        Ok(
            Ihdr {
                width,
                height,
                bit_depth: data[8],
                colour_type,
                compression_method: Compression::InflateDeflate,
                filter_method: FilterMethod::AdaptiveFiltering,
                interlace_method,
            },
        )
    }

    /// Width of the image in pixels.
    pub fn width(&self) -> (width: u32)
        ensures
            width == self@.width,
            width > 0,
    {
        proof {
            use_type_invariant(self);
        }
        self.width.get()
    }

    /// Height of the image in pixels.
    pub fn height(&self) -> (height: u32)
        ensures
            height == self@.height,
            height > 0,
    {
        proof {
            use_type_invariant(self);
        }
        self.height.get()
    }

    /// Bits per sample.
    pub fn bit_depth(&self) -> (depth: u8)
        ensures
            depth == self@.bit_depth,
    {
        self.bit_depth
    }

    /// How pixels are to be interpreted.
    pub fn colour_type(&self) -> (colour: ColorType)
        ensures
            colour == self@.colour_type,
    {
        self.colour_type
    }

    /// How the image data is compressed.
    pub fn compression_method(&self) -> (method: Compression)
        ensures
            method == self@.compression_method,
    {
        self.compression_method
    }

    /// How scanlines are filtered before compression.
    pub fn filter_method(&self) -> (method: FilterMethod)
        ensures
            method == self@.filter_method,
    {
        self.filter_method
    }

    /// Order in which the rows are transmitted.
    pub fn interlace_method(&self) -> (method: Interlace)
        ensures
            method == self@.interlace_method,
    {
        self.interlace_method
    }
}

} // verus!
