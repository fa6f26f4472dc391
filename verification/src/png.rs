//! The decoding pipeline: chunks are gathered into a decode state, the
//! compressed data is inflated and cut into scanlines, the scanlines are
//! reconstructed, and the bytes are grouped into pixels.

use crate::chunk::{
    chunk_views, flip_bit, get_chunks, guarded, has_magic, in_payload, in_stored_crc,
    law_corruption_detected, law_parse_failures, law_payload_bit_flip_detected,
    law_stored_crc_bit_flip_detected, parse_chunks, Chunk, ChunkData, ChunkType, MAGIC_LEN,
};
use crate::error::{DecodeError, Failure};
use crate::filter::{law_reconstruct_rows_shape, reconstruct, revert_filters, rows_of};
use crate::header::{bpp_of, header_of, names_unknown_method, Header, Ihdr};
use crate::zlib::inflate_zlib;
use vstd::pervasive::unreached;
use vstd::prelude::*;
use vstd::slice::slice_to_vec;

verus! {

/// The decode state as a mathematical value.
pub struct DecodeState {
    /// The header, once one has been read.
    pub header: Option<Header>,
    /// The compressed image data gathered so far.
    pub compressed: Seq<u8>,
    /// The scanlines, once the data has been inflated: each a filter tag
    /// followed by the filtered bytes of one row.
    pub scanlines: Seq<Seq<u8>>,
}

/// The state before any chunk has been seen.
pub open spec fn initial_state() -> DecodeState {
    DecodeState { header: None, compressed: Seq::empty(), scanlines: Seq::empty() }
}

/// Whether scanlines are uniform: all of one length, with room for the
/// filter tag at least.
pub open spec fn uniform(scanlines: Seq<Seq<u8>>) -> bool {
    forall|i: int|
        0 <= i < scanlines.len() ==> (#[trigger] scanlines[i]).len() == scanlines[0].len()
            && scanlines[0].len() >= 1
}

/// Scanlines as they are cut from the inflated data. They are uniform at
/// all times.
#[derive(Debug)]
struct Scanlines {
    rows: Vec<Vec<u8>>,
}

impl View for Scanlines {
    type V = Seq<Seq<u8>>;

    closed spec fn view(&self) -> Seq<Seq<u8>> {
        rows_of(self.rows@)
    }
}

impl Scanlines {
    #[verifier::type_invariant]
    spec fn inv(&self) -> bool {
        uniform(self@)
    }

    /// No scanlines.
    fn empty() -> (scanlines: Self)
        ensures
            scanlines@ == Seq::<Seq<u8>>::empty(),
    {
        let rows: Vec<Vec<u8>> = Vec::new();
        assert(rows_of(rows@) =~= Seq::<Seq<u8>>::empty());
        Scanlines { rows }
    }

    /// Cuts `inflated` into `count` rows of `size` bytes each.
    fn cut(inflated: &[u8], size: usize, count: usize) -> (scanlines: Self)
        requires
            size >= 1,
            count * size == inflated.len(),
        ensures
            scanlines@ == Seq::new(
                count as nat,
                |i: int| inflated@.subrange(i * size, (i + 1) * size),
            ),
    {
        let mut rows: Vec<Vec<u8>> = Vec::new();
        let mut start: usize = 0;
        let mut row: usize = 0;
        while row < count
            invariant
                size >= 1,
                count * size == inflated.len(),
                row <= count,
                start == row * size,
                rows.len() == row,
                forall|j: int|
                    0 <= j < row ==> (#[trigger] rows[j])@ == inflated@.subrange(
                        j * size,
                        (j + 1) * size,
                    ),
            decreases count - row,
        {
            assert((row + 1) * size == row * size + size && (row + 1) * size <= count * size)
                by (nonlinear_arith)
                requires
                    row < count,
            ;
            rows.push(slice_to_vec(&inflated[start..start + size]));
            start += size;
            row += 1;
        }
        let ghost cut = rows_of(rows@);
        assert(cut =~= Seq::new(
            count as nat,
            |i: int| inflated@.subrange(i * size, (i + 1) * size),
        ));
        assert forall|i: int| 0 <= i < cut.len() implies (#[trigger] cut[i]).len() == cut[0].len()
            && cut[0].len() >= 1 by {
            assert((i + 1) * size == i * size + size && 0 <= i * size && (i + 1) * size <= count
                * size) by (nonlinear_arith)
                requires
                    0 <= i < count,
                    size >= 1,
            ;
            assert(1 * size == 0 * size + size && 1 * size <= count * size) by (nonlinear_arith)
                requires
                    0 < count,
            ;
        }
        Scanlines { rows }
    }

    /// The rows, which are uniform.
    fn rows(&self) -> (rows: &Vec<Vec<u8>>)
        ensures
            rows_of(rows@) == self@,
            uniform(self@),
    {
        proof {
            use_type_invariant(self);
        }
        &self.rows
    }
}

/// What the decoder knows of an image while it is still reading it.
#[derive(Debug)]
pub struct InProcessPng {
    ihdr: Option<Ihdr>,
    idat: Vec<u8>,
    scanlines_with_filter: Scanlines,
}

impl View for InProcessPng {
    type V = DecodeState;

    closed spec fn view(&self) -> DecodeState {
        DecodeState {
            header: match self.ihdr {
                Some(ihdr) => Some(ihdr@),
                None => None,
            },
            compressed: self.idat@,
            scanlines: self.scanlines_with_filter@,
        }
    }
}

/// Number of bytes in a scanline of the image that `header` describes: the
/// filter tag and `bpp` bytes for each pixel of a row.
pub open spec fn scanline_size(header: Header, bpp: nat) -> int {
    1 + bpp * header.width
}

/// The scanlines that inflated data falls into under a header: `height`
/// pieces of `scanline_size` bytes each, if the data has exactly that many
/// bytes.
pub open spec fn scanlines_of(header: Option<Header>, inflated: Seq<u8>) -> Result<
    Seq<Seq<u8>>,
    Failure,
> {
    match bpp_of(header) {
        Err(e) => Err(e),
        Ok(bpp) => {
            let h = header->Some_0;
            let size = scanline_size(h, bpp);
            if (inflated.len() as int) % size != 0 || inflated.len() != h.height * size {
                Err(Failure::ScanlineSizeMismatch)
            } else {
                Ok(Seq::new(h.height as nat, |i: int| inflated.subrange(i * size, (i + 1) * size)))
            }
        },
    }
}

impl InProcessPng {
    /// The state before any chunk has been seen.
    pub fn new() -> (png: Self)
        ensures
            png@ == initial_state(),
    {
        Self { ihdr: None, idat: Vec::new(), scanlines_with_filter: Scanlines::empty() }
    }

    /// Turns the state into the image it holds.
    pub fn finalize(self) -> (result: Result<Png, DecodeError>)
        ensures
            match result {
                Ok(image) => assemble(self@) == Ok::<Image, Failure>(image@),
                Err(e) => assemble(self@) == Err::<Image, Failure>(e@),
            },
            result matches Ok(image) ==> image@.width > 0 && image@.height > 0,
    {
        construct(self)
    }

    /// The scanlines as they came out of decompression, each with its filter
    /// tag in front.
    pub fn get_scanlines(&self) -> (scanlines: &Vec<Vec<u8>>)
        ensures
            rows_of(scanlines@) == self@.scanlines,
            uniform(self@.scanlines),
    {
        self.scanlines_with_filter.rows()
    }

    /// Bytes per pixel. Only 8-bit truecolour is decoded, at three bytes.
    pub fn get_bpp(&self) -> (bpp: Result<usize, DecodeError>)
        ensures
            match bpp {
                Ok(n) => bpp_of(self@.header) == Ok::<nat, Failure>(n as nat),
                Err(e) => bpp_of(self@.header) == Err::<nat, Failure>(e@),
            },
    {
        match &self.ihdr {
            None => Err(DecodeError::MissingHeader),
            Some(ihdr) => {
                if ihdr.colour_type().is_truecolor() && ihdr.bit_depth() == 8 {
                    Ok(3 * (ihdr.bit_depth() as usize / 8))
                } else {
                    Err(DecodeError::UnsupportedConfiguration)
                }
            },
        }
    }
}

/// Reads the header from a header chunk and puts it in place of the one that
/// was there. A payload that is no valid header leaves the state as it was;
/// one that names an unknown compression or filter method is refused for
/// that, whatever else it holds.
pub fn process_ihdr(chunk: Chunk, png: &mut InProcessPng) -> (result: Result<(), DecodeError>)
    ensures
        match result {
            Ok(_) => header_of(chunk@.data) is Ok && final(png)@ == (DecodeState {
                header: Some(header_of(chunk@.data)->Ok_0),
                ..old(png)@
            }),
            Err(e) => header_of(chunk@.data) == Err::<Header, Failure>(e@) && final(png)@ == old(
                png,
            )@,
        },
        names_unknown_method(chunk@.data) <==> result matches Err(
            DecodeError::UnsupportedHeaderMethod,
        ),
{
    match Ihdr::parse(chunk.data) {
        Ok(ihdr) => {
            png.ihdr = Some(ihdr);
            Ok(())
        },
        Err(e) => Err(e),
    }
}

/// Appends the payload of an image data chunk to the compressed data.
pub fn append_idat(chunk: Chunk, png: &mut InProcessPng)
    ensures
        final(png)@ == (DecodeState {
            compressed: old(png)@.compressed + chunk@.data,
            ..old(png)@
        }),
{
    png.idat.extend_from_slice(chunk.data);
    proof {
        assert(png@.compressed =~= old(png)@.compressed + chunk@.data);
    }
}

/// Cuts inflated image data into the scanlines of the image that the header
/// describes, and keeps them. Data of any other size than `height` whole
/// scanlines is refused, and the state then stays as it was.
pub fn split_scanlines(png: &mut InProcessPng, inflated: &[u8]) -> (result: Result<
    (),
    DecodeError,
>)
    ensures
        match result {
            Ok(_) => scanlines_of(old(png)@.header, inflated@) is Ok && final(png)@ == (DecodeState {
                scanlines: scanlines_of(old(png)@.header, inflated@)->Ok_0,
                ..old(png)@
            }),
            Err(e) => scanlines_of(old(png)@.header, inflated@) == Err::<Seq<Seq<u8>>, Failure>(e@)
                && final(png)@ == old(png)@,
        },
{
    let bpp: usize = match png.get_bpp() {
        Ok(bpp) => bpp,
        Err(e) => {
            return Err(e);
        },
    };
    let (width, height): (u32, u32) = match &png.ihdr {
        Some(ihdr) => (ihdr.width(), ihdr.height()),
        None => unreached(),
    };
    let scanlinesize: u64 = 1 + bpp as u64 * width as u64;
    let len: usize = inflated.len();
    assert(height * scanlinesize <= 0xffff_ffff * 0xffff_ffff_ffff_ffff) by (nonlinear_arith)
        requires
            height <= 0xffff_ffff,
            scanlinesize <= 0xffff_ffff_ffff_ffff,
    ;
    if len as u64 % scanlinesize != 0 || len as u128 != height as u128 * scanlinesize as u128 {
        return Err(DecodeError::ScanlineSizeMismatch);
    }
    assert(scanlinesize <= len) by (nonlinear_arith)
        requires
            len == height * scanlinesize,
            height >= 1,
            scanlinesize >= 1,
    ;
    png.scanlines_with_filter = Scanlines::cut(inflated, scanlinesize as usize, height as usize);
    Ok(())
}

/// What the decompressor answers a stream with, as a mathematical value:
/// the inflated bytes, or the message of its refusal.
pub open spec fn outcome_view(outcome: Result<Vec<u8>, String>) -> Result<Seq<u8>, Seq<char>> {
    match outcome {
        Ok(bytes) => Ok(bytes@),
        Err(message) => Err(message@),
    }
}

/// The decode state after inflation, given what the decompressor answered:
/// a refusal is an inflate failure with the message attached, and inflated
/// bytes are cut into scanlines under the header.
pub open spec fn inflate_state_with(
    state: DecodeState,
    outcome: Result<Seq<u8>, Seq<char>>,
) -> Result<DecodeState, Failure> {
    match outcome {
        Err(message) => Err(Failure::InflateFailure(message)),
        Ok(inflated) => match scanlines_of(state.header, inflated) {
            Err(e) => Err(e),
            Ok(scanlines) => Ok(DecodeState { scanlines, ..state }),
        },
    }
}

/// Takes in what the decompressor answered. Its refusal becomes an inflate
/// failure that carries its message. Inflated bytes are cut into scanlines
/// and kept. On a failure the state stays as it was.
pub fn store_inflated(png: &mut InProcessPng, outcome: Result<Vec<u8>, String>) -> (result: Result<
    (),
    DecodeError,
>)
    ensures
        match result {
            Ok(_) => inflate_state_with(old(png)@, outcome_view(outcome)) == Ok::<
                DecodeState,
                Failure,
            >(final(png)@),
            Err(e) => inflate_state_with(old(png)@, outcome_view(outcome)) == Err::<
                DecodeState,
                Failure,
            >(e@) && final(png)@ == old(png)@,
        },
{
    match outcome {
        Ok(inflated) => split_scanlines(png, inflated.as_slice()),
        Err(message) => Err(DecodeError::InflateFailure(message)),
    }
}

/// Whether `result` and the state `after` are what inflation makes of the
/// state `before`, given what the decompressor answered.
pub open spec fn inflates_to(
    before: DecodeState,
    outcome: Result<Seq<u8>, Seq<char>>,
    after: DecodeState,
    result: Result<(), DecodeError>,
) -> bool {
    match result {
        Ok(_) => inflate_state_with(before, outcome) == Ok::<DecodeState, Failure>(after),
        Err(e) => inflate_state_with(before, outcome) == Err::<DecodeState, Failure>(e@) && after
            == before,
    }
}

/// Hands the compressed data gathered so far to the decompressor and takes
/// in what it answers, as `store_inflated` does. On a failure the state
/// stays as it was.
pub fn uncompress_idat(png: &mut InProcessPng) -> (result: Result<(), DecodeError>)
    ensures
        exists|outcome: Result<Seq<u8>, Seq<char>>|
            inflates_to(old(png)@, outcome, final(png)@, result),
        result is Err ==> final(png)@ == old(png)@,
{
    let outcome: Result<Vec<u8>, String> = inflate_zlib(png.idat.as_slice());
    let ghost answered = outcome_view(outcome);
    let result = store_inflated(png, outcome);
    assert(inflates_to(old(png)@, answered, png@, result));
    result
}

/// A pixel: red, green and blue.
#[derive(Debug, Clone, Copy, PartialEq, Eq, Structural)]
pub struct Rgb(pub u8, pub u8, pub u8);

/// The pixels of a row of bytes: one for every three bytes, in order.
pub open spec fn pixels_of(row: Seq<u8>) -> Seq<Rgb> {
    Seq::new(row.len() / 3, |i: int| Rgb(row[3 * i], row[3 * i + 1], row[3 * i + 2]))
}

/// The pixels of a row that consists of whole pixels.
pub open spec fn row_pixels(row: Seq<u8>) -> Result<Seq<Rgb>, Failure> {
    if row.len() % 3 == 0 {
        Ok(pixels_of(row))
    } else {
        Err(Failure::InternalInvariantViolation)
    }
}

/// Groups the bytes of a reconstructed row into pixels.
pub fn to_rgb(data: &Vec<u8>) -> (result: Result<Vec<Rgb>, DecodeError>)
    ensures
        match result {
            Ok(pixels) => row_pixels(data@) == Ok::<Seq<Rgb>, Failure>(pixels@),
            Err(e) => row_pixels(data@) == Err::<Seq<Rgb>, Failure>(e@),
        },
{
    if data.len() % 3 != 0 {
        return Err(DecodeError::InternalInvariantViolation);
    }
    let count: usize = data.len() / 3;
    let mut pixels: Vec<Rgb> = Vec::new();
    let mut i: usize = 0;
    while i < count
        invariant
            i <= count,
            count == data.len() / 3,
            pixels.len() == i,
            forall|j: int| 0 <= j < i ==> #[trigger] pixels[j] == pixels_of(data@)[j],
        decreases count - i,
    {
        pixels.push(Rgb(data[3 * i], data[3 * i + 1], data[3 * i + 2]));
        i += 1;
    }
    assert(pixels@ =~= pixels_of(data@));
    Ok(pixels)
}

/// A decoded image as a mathematical value.
pub struct Image {
    pub width: u32,
    pub height: u32,
    /// The pixels, row by row from the top, each row from the left.
    pub pixels: Seq<Seq<Rgb>>,
}

impl Image {
    /// Whether the pixels form a grid of `height` rows of `width` pixels.
    pub open spec fn is_grid(self) -> bool {
        &&& self.pixels.len() == self.height
        &&& forall|i: int|
            0 <= i < self.pixels.len() ==> (#[trigger] self.pixels[i]).len() == self.width
    }
}

/// The pixels of reconstructed rows that consist of whole pixels.
pub open spec fn grid_of(rows: Seq<Seq<u8>>) -> Result<Seq<Seq<Rgb>>, Failure> {
    if forall|i: int| 0 <= i < rows.len() ==> (#[trigger] rows[i]).len() % 3 == 0 {
        Ok(rows.map_values(|row: Seq<u8>| pixels_of(row)))
    } else {
        Err(Failure::InternalInvariantViolation)
    }
}

/// The image that a decode state holds: its scanlines are reconstructed and
/// grouped into pixels, and width and height are those of the header.
pub open spec fn assemble(state: DecodeState) -> Result<Image, Failure> {
    match reconstruct(state) {
        Err(e) => Err(e),
        Ok(rows) => match grid_of(rows) {
            Err(e) => Err(e),
            Ok(pixels) => Ok(
                Image {
                    width: state.header->Some_0.width,
                    height: state.header->Some_0.height,
                    pixels,
                },
            ),
        },
    }
}

/// A decoded image.
#[derive(Debug)]
pub struct Png {
    width: u32,
    height: u32,
    data: Vec<Vec<Rgb>>,
}

impl View for Png {
    type V = Image;

    closed spec fn view(&self) -> Image {
        Image {
            width: self.width,
            height: self.height,
            pixels: self.data@.map_values(|row: Vec<Rgb>| row@),
        }
    }
}

impl Png {
    /// Width in pixels, as the header gave it.
    pub fn get_width(&self) -> (width: u32)
        ensures
            width == self@.width,
    {
        self.width
    }

    /// Height in pixels, as the header gave it.
    pub fn get_height(&self) -> (height: u32)
        ensures
            height == self@.height,
    {
        self.height
    }

    /// The pixels, row by row from the top, each row from the left.
    pub fn get_data(&self) -> (data: &Vec<Vec<Rgb>>)
        ensures
            data@.map_values(|row: Vec<Rgb>| row@) == self@.pixels,
    {
        &self.data
    }
}

/// Turns a decode state into the image it holds: the scanlines are
/// reconstructed and grouped into pixels, and width and height are those of
/// the header, neither of them zero.
pub fn construct(png: InProcessPng) -> (result: Result<Png, DecodeError>)
    ensures
        match result {
            Ok(image) => assemble(png@) == Ok::<Image, Failure>(image@),
            Err(e) => assemble(png@) == Err::<Image, Failure>(e@),
        },
        result matches Ok(image) ==> image@.width > 0 && image@.height > 0,
{
    let rows: Vec<Vec<u8>> = match revert_filters(&png) {
        Ok(rows) => rows,
        Err(e) => {
            return Err(e);
        },
    };
    let ghost bytes = rows_of(rows@);
    let mut resulting_data: Vec<Vec<Rgb>> = Vec::new();
    let mut i: usize = 0;
    while i < rows.len()
        invariant
            i <= rows.len(),
            bytes == rows_of(rows@),
            reconstruct(png@) == Ok::<Seq<Seq<u8>>, Failure>(bytes),
            resulting_data.len() == i,
            forall|j: int| 0 <= j < i ==> (#[trigger] bytes[j]).len() % 3 == 0,
            forall|j: int| 0 <= j < i ==> (#[trigger] resulting_data[j])@ == pixels_of(bytes[j]),
        decreases rows.len() - i,
    {
        assert(rows[i as int]@ == bytes[i as int]);
        match to_rgb(&rows[i]) {
            Ok(pixels) => {
                resulting_data.push(pixels);
            },
            Err(e) => {
                return Err(e);
            },
        }
        i += 1;
    }
    let (width, height): (u32, u32) = match &png.ihdr {
        Some(ihdr) => (ihdr.width(), ihdr.height()),
        None => unreached(),
    };
    let image = Png { width, height, data: resulting_data };
    assert(image@.pixels =~= bytes.map_values(|row: Seq<u8>| pixels_of(row)));
    Ok(image)
}

/// What a chunk does to the decode state. A header chunk sets the header, a
/// later one replacing an earlier one. An image data chunk adds its payload
/// to the compressed data. Image data and palettes are refused while there
/// is no header.
pub open spec fn absorb_chunk(state: DecodeState, chunk: ChunkData) -> Result<
    DecodeState,
    Failure,
> {
    match chunk.typ {
        ChunkType::Ihdr => match header_of(chunk.data) {
            Ok(header) => Ok(DecodeState { header: Some(header), ..state }),
            Err(e) => Err(e),
        },
        ChunkType::Idat => if state.header is None {
            Err(Failure::MissingHeader)
        } else {
            Ok(DecodeState { compressed: state.compressed + chunk.data, ..state })
        },
        ChunkType::Plte => if state.header is None {
            Err(Failure::MissingHeader)
        } else {
            Ok(state)
        },
        ChunkType::Iend => Ok(state),
    }
}

/// What a run of chunks does to the decode state, chunk by chunk in order,
/// up to the first that is refused.
pub open spec fn absorb_chunks(state: DecodeState, chunks: Seq<ChunkData>) -> Result<
    DecodeState,
    Failure,
>
    decreases chunks.len(),
{
    if chunks.len() == 0 {
        Ok(state)
    } else {
        match absorb_chunks(state, chunks.drop_last()) {
            Err(e) => Err(e),
            Ok(before) => absorb_chunk(before, chunks.last()),
        }
    }
}

/// The image that a buffer encodes, given what the decompressor answers
/// when it is handed the compressed data: the chunks are parsed, then
/// gathered, then the data is inflated, then the image is assembled. The
/// first step that fails gives the failure of the whole.
pub open spec fn decode_with(buf: Seq<u8>, outcome: Result<Seq<u8>, Seq<char>>) -> Result<
    Image,
    Failure,
> {
    match parse_chunks(buf) {
        Err(e) => Err(e),
        Ok(chunks) => match absorb_chunks(initial_state(), chunks) {
            Err(e) => Err(e),
            Ok(gathered) => match inflate_state_with(gathered, outcome) {
                Err(e) => Err(e),
                Ok(inflated) => assemble(inflated),
            },
        },
    }
}

/// Whether `result` is what decoding `buf` gives, given what the
/// decompressor answered.
pub open spec fn decodes_to(
    buf: Seq<u8>,
    outcome: Result<Seq<u8>, Seq<char>>,
    result: Result<Png, DecodeError>,
) -> bool {
    match result {
        Ok(image) => decode_with(buf, outcome) == Ok::<Image, Failure>(image@),
        Err(e) => decode_with(buf, outcome) == Err::<Image, Failure>(e@),
    }
}

/// The failure that decoding ends in before the decompressor is asked: that
/// of parsing, or else that of gathering the chunks.
pub open spec fn early_failure(buf: Seq<u8>) -> Option<Failure> {
    match parse_chunks(buf) {
        Err(e) => Some(e),
        Ok(chunks) => match absorb_chunks(initial_state(), chunks) {
            Err(e) => Some(e),
            Ok(_) => None,
        },
    }
}

/// A failure among the first chunks is the failure of the whole run.
proof fn lemma_absorb_failure_stays(state: DecodeState, chunks: Seq<ChunkData>, n: int)
    requires
        0 <= n <= chunks.len(),
        absorb_chunks(state, chunks.take(n)) is Err,
    ensures
        absorb_chunks(state, chunks) == absorb_chunks(state, chunks.take(n)),
    decreases chunks.len(),
{
    if n == chunks.len() {
        assert(chunks.take(n) =~= chunks);
    } else {
        assert(chunks.drop_last().take(n) =~= chunks.take(n));
        lemma_absorb_failure_stays(state, chunks.drop_last(), n);
    }
}

/// A buffer without the signature decodes to `MagicMismatch`, whatever else
/// it holds.
pub proof fn law_decode_needs_magic(buf: Seq<u8>, outcome: Result<Seq<u8>, Seq<char>>)
    requires
        !has_magic(buf),
    ensures
        decode_with(buf, outcome) == Err::<Image, Failure>(Failure::MagicMismatch),
{
}

/// A failure of parsing or of gathering is the failure of decoding,
/// whatever the decompressor would have answered.
pub proof fn law_early_failure_decides(buf: Seq<u8>, outcome: Result<Seq<u8>, Seq<char>>)
    requires
        early_failure(buf) is Some,
    ensures
        decode_with(buf, outcome) == Err::<Image, Failure>(early_failure(buf)->Some_0),
{
}

/// Corruption makes decoding fail. Take a buffer whose chunks all pass, and
/// change one byte that a checksum guards: a byte of a type tag, of a
/// payload or of a stored checksum. Decoding then gives `CrcMismatch`.
pub proof fn law_decode_detects_corruption(
    buf: Seq<u8>,
    at: int,
    byte: u8,
    outcome: Result<Seq<u8>, Seq<char>>,
)
    requires
        parse_chunks(buf) is Ok,
        guarded(buf, MAGIC_LEN as int, at),
        byte != buf[at],
    ensures
        decode_with(buf.update(at, byte), outcome) == Err::<Image, Failure>(Failure::CrcMismatch),
{
    law_corruption_detected(buf, at, byte);
}

/// A single flipped bit in the payload of a chunk makes decoding fail with
/// `CrcMismatch`.
pub proof fn law_decode_detects_payload_bit_flip(
    buf: Seq<u8>,
    at: int,
    bit: u8,
    outcome: Result<Seq<u8>, Seq<char>>,
)
    requires
        parse_chunks(buf) is Ok,
        in_payload(buf, MAGIC_LEN as int, at),
        bit < 8,
    ensures
        decode_with(buf.update(at, flip_bit(buf[at], bit)), outcome) == Err::<Image, Failure>(
            Failure::CrcMismatch,
        ),
{
    law_payload_bit_flip_detected(buf, at, bit);
}

/// A single flipped bit in the stored checksum of a chunk makes decoding
/// fail with `CrcMismatch`.
pub proof fn law_decode_detects_crc_bit_flip(
    buf: Seq<u8>,
    at: int,
    bit: u8,
    outcome: Result<Seq<u8>, Seq<char>>,
)
    requires
        parse_chunks(buf) is Ok,
        in_stored_crc(buf, MAGIC_LEN as int, at),
        bit < 8,
    ensures
        decode_with(buf.update(at, flip_bit(buf[at], bit)), outcome) == Err::<Image, Failure>(
            Failure::CrcMismatch,
        ),
{
    law_stored_crc_bit_flip_detected(buf, at, bit);
}

/// It makes no difference to the decode state where the compressed data is
/// cut into chunks: two image data chunks leave the state that one chunk
/// with both payloads leaves.
pub proof fn law_split_data_gathers_alike(
    state: DecodeState,
    first: ChunkData,
    second: ChunkData,
    joined: ChunkData,
)
    requires
        first.typ == ChunkType::Idat,
        second.typ == ChunkType::Idat,
        joined.typ == ChunkType::Idat,
        joined.data == first.data + second.data,
    ensures
        absorb_chunks(state, seq![first, second]) == absorb_chunk(state, joined),
{
    let both = seq![first, second];
    assert(both.drop_last() =~= seq![first]);
    assert(seq![first].drop_last() =~= Seq::<ChunkData>::empty());
    reveal_with_fuel(absorb_chunks, 3);
    assert(absorb_chunks(state, seq![first]) == absorb_chunk(state, first));
    if state.header is Some {
        assert((state.compressed + first.data) + second.data =~= state.compressed + joined.data);
    }
}

/// Inflated data that is not a whole number of scanlines is refused: it is
/// neither cut short nor filled up.
pub proof fn law_scanline_size_validated(header: Header, inflated: Seq<u8>)
    requires
        bpp_of(Some(header)) is Ok,
        (inflated.len() as int) % scanline_size(header, bpp_of(Some(header))->Ok_0) != 0,
    ensures
        scanlines_of(Some(header), inflated) == Err::<Seq<Seq<u8>>, Failure>(
            Failure::ScanlineSizeMismatch,
        ),
{
}

/// The scanlines that inflated data is cut into are `height` in number, and
/// each has the size of a scanline.
pub proof fn law_scanlines_shape(header: Header, inflated: Seq<u8>, scanlines: Seq<Seq<u8>>)
    requires
        scanlines_of(Some(header), inflated) == Ok::<Seq<Seq<u8>>, Failure>(scanlines),
    ensures
        scanlines.len() == header.height,
        forall|i: int|
            0 <= i < scanlines.len() ==> (#[trigger] scanlines[i]).len() == 1 + 3 * header.width,
{
    let size = scanline_size(header, 3);
    assert forall|i: int| 0 <= i < scanlines.len() implies (#[trigger] scanlines[i]).len() == size by {
        assert((i + 1) * size == i * size + size && 0 <= i * size && (i + 1) * size
            <= header.height * size) by (nonlinear_arith)
            requires
                0 <= i < header.height,
                size >= 1,
        ;
    }
}

/// An image assembled from scanlines that were cut under its header is a
/// grid of `height` rows of `width` pixels.
pub proof fn law_assembled_geometry(state: DecodeState, inflated: Seq<u8>, image: Image)
    requires
        scanlines_of(state.header, inflated) == Ok::<Seq<Seq<u8>>, Failure>(state.scanlines),
        assemble(state) == Ok::<Image, Failure>(image),
    ensures
        image.is_grid(),
{
    let header = state.header->Some_0;
    let rows = reconstruct(state)->Ok_0;
    law_scanlines_shape(header, inflated, state.scanlines);
    law_reconstruct_rows_shape(3, state.scanlines, state.scanlines.len());
    assert forall|i: int| 0 <= i < image.pixels.len() implies (#[trigger] image.pixels[i]).len()
        == image.width by {
        assert(rows[i].len() == 3 * header.width);
    }
}

/// A decoded image is a grid of `height` rows of `width` pixels, and neither
/// number is zero, whatever the decompressor answered.
pub proof fn law_decoded_geometry(
    buf: Seq<u8>,
    outcome: Result<Seq<u8>, Seq<char>>,
    image: Image,
)
    requires
        decode_with(buf, outcome) == Ok::<Image, Failure>(image),
    ensures
        image.width > 0,
        image.height > 0,
        image.is_grid(),
{
    let chunks = parse_chunks(buf)->Ok_0;
    let gathered = absorb_chunks(initial_state(), chunks)->Ok_0;
    let inflated = inflate_state_with(gathered, outcome)->Ok_0;
    law_assembled_geometry(inflated, outcome->Ok_0, image);
    lemma_gathered_header(initial_state(), chunks);
}

/// A header that chunks have put into the state has no zero dimension, if
/// the header that was there before had none.
proof fn lemma_gathered_header(state: DecodeState, chunks: Seq<ChunkData>)
    requires
        absorb_chunks(state, chunks) is Ok,
        state.header matches Some(h) ==> h.width > 0 && h.height > 0,
    ensures
        absorb_chunks(state, chunks)->Ok_0.header matches Some(h) ==> h.width > 0 && h.height > 0,
    decreases chunks.len(),
{
    if chunks.len() > 0 {
        lemma_gathered_header(state, chunks.drop_last());
    }
}

proof fn lemma_gathering_failures(state: DecodeState, chunks: Seq<ChunkData>)
    ensures
        absorb_chunks(state, chunks) != Err::<DecodeState, Failure>(
            Failure::InternalInvariantViolation,
        ),
    decreases chunks.len(),
{
    if chunks.len() > 0 {
        lemma_gathering_failures(state, chunks.drop_last());
    }
}

/// Rows that were cut under the header of the state consist of whole
/// pixels, so that assembling them cannot fail for that reason.
pub proof fn law_assembled_rows_are_whole_pixels(state: DecodeState, inflated: Seq<u8>)
    requires
        scanlines_of(state.header, inflated) == Ok::<Seq<Seq<u8>>, Failure>(state.scanlines),
    ensures
        assemble(state) != Err::<Image, Failure>(Failure::InternalInvariantViolation),
{
    let header = state.header->Some_0;
    law_scanlines_shape(header, inflated, state.scanlines);
    law_reconstruct_rows_shape(3, state.scanlines, state.scanlines.len());
    if reconstruct(state) is Ok {
        let rows = reconstruct(state)->Ok_0;
        assert forall|i: int| 0 <= i < rows.len() implies (#[trigger] rows[i]).len() % 3 == 0 by {
            assert(rows[i].len() == 3 * header.width);
        }
    }
}

/// Decoding never fails for want of whole pixels, whatever the decompressor
/// answered.
pub proof fn law_decode_never_violates_invariant(
    buf: Seq<u8>,
    outcome: Result<Seq<u8>, Seq<char>>,
)
    ensures
        decode_with(buf, outcome) != Err::<Image, Failure>(Failure::InternalInvariantViolation),
{
    law_parse_failures(buf);
    if parse_chunks(buf) is Ok {
        let chunks = parse_chunks(buf)->Ok_0;
        lemma_gathering_failures(initial_state(), chunks);
        if absorb_chunks(initial_state(), chunks) is Ok {
            let gathered = absorb_chunks(initial_state(), chunks)->Ok_0;
            if inflate_state_with(gathered, outcome) is Ok {
                law_assembled_rows_are_whole_pixels(
                    inflate_state_with(gathered, outcome)->Ok_0,
                    outcome->Ok_0,
                );
            }
        }
    }
}

/// Decoding is repeatable as far as the decoder goes: two runs on one
/// buffer to which the decompressor gave one answer hand back the same,
/// image or failure.
pub proof fn law_decoding_repeatable(
    buf: Seq<u8>,
    outcome: Result<Seq<u8>, Seq<char>>,
    first: Result<Png, DecodeError>,
    second: Result<Png, DecodeError>,
)
    requires
        decodes_to(buf, outcome, first),
        decodes_to(buf, outcome, second),
    ensures
        first is Ok <==> second is Ok,
        first matches Ok(a) ==> second matches Ok(b) && a@ == b@,
        first matches Err(a) ==> second matches Err(b) && a@ == b@,
{
}

/// Two runs on one buffer that fails before the decompressor is asked hand
/// back the same failure, whatever answers the two runs are held against.
pub proof fn law_early_failure_repeatable(
    buf: Seq<u8>,
    one: Result<Seq<u8>, Seq<char>>,
    other: Result<Seq<u8>, Seq<char>>,
    first: Result<Png, DecodeError>,
    second: Result<Png, DecodeError>,
)
    requires
        early_failure(buf) is Some,
        decodes_to(buf, one, first),
        decodes_to(buf, other, second),
    ensures
        first matches Err(a) && second matches Err(b) && a@ == b@ && a@ == early_failure(
            buf,
        )->Some_0,
{
}

/// Decodes a PNG image from the bytes of a file. The chunks are parsed and
/// gathered; a failure there is the failure of the call. The compressed data
/// then goes to the decompressor, and what comes out is what `decode_with`
/// makes of the buffer and of the decompressor's answer. An image that comes
/// out is a grid of `height` rows of `width` pixels.
pub fn process(data: &[u8]) -> (result: Result<Png, DecodeError>)
    ensures
        early_failure(data@) matches Some(e) ==> result matches Err(r) && r@ == e,
        exists|outcome: Result<Seq<u8>, Seq<char>>| decodes_to(data@, outcome, result),
        result matches Ok(image) ==> image@.is_grid() && image@.width > 0 && image@.height > 0,
{
    let ghost unasked = Ok::<Seq<u8>, Seq<char>>(Seq::empty());
    let chunks: Vec<Chunk<'_>> = match get_chunks(data) {
        Ok(chunks) => chunks,
        Err(e) => {
            assert(decodes_to(data@, unasked, Err::<Png, DecodeError>(e)));
            return Err(e);
        },
    };
    let ghost parsed = chunk_views(chunks@);
    let mut png = InProcessPng::new();
    let mut i: usize = 0;
    assert(parsed.take(0) =~= Seq::<ChunkData>::empty());
    while i < chunks.len()
        invariant
            i <= chunks.len(),
            parsed == chunk_views(chunks@),
            parse_chunks(data@) == Ok::<Seq<ChunkData>, Failure>(parsed),
            absorb_chunks(initial_state(), parsed.take(i as int)) == Ok::<DecodeState, Failure>(
                png@,
            ),
        decreases chunks.len() - i,
    {
        let chunk: Chunk<'_> = chunks[i];
        proof {
            assert(parsed.take(i + 1).drop_last() =~= parsed.take(i as int));
            assert(parsed.take(i + 1).last() == chunk@);
        }
        let step: Result<(), DecodeError> = match chunk.typ {
            ChunkType::Ihdr => process_ihdr(chunk, &mut png),
            ChunkType::Idat => {
                if png.ihdr.is_none() {
                    Err(DecodeError::MissingHeader)
                } else {
                    append_idat(chunk, &mut png);
                    Ok(())
                }
            },
            ChunkType::Plte => {
                if png.ihdr.is_none() {
                    Err(DecodeError::MissingHeader)
                } else {
                    Ok(())
                }
            },
            ChunkType::Iend => Ok(()),
        };
        match step {
            Ok(_) => {},
            Err(e) => {
                proof {
                    lemma_absorb_failure_stays(initial_state(), parsed, i + 1);
                    assert(decodes_to(
                        data@,
                        Ok::<Seq<u8>, Seq<char>>(Seq::empty()),
                        Err::<Png, DecodeError>(e),
                    ));
                }
                return Err(e);
            },
        }
        i += 1;
    }
    proof {
        assert(parsed.take(i as int) =~= parsed);
    }
    let ghost gathered = png@;
    let inflation: Result<(), DecodeError> = uncompress_idat(&mut png);
    let ghost outcome = choose|outcome: Result<Seq<u8>, Seq<char>>|
        inflates_to(gathered, outcome, png@, inflation);
    match inflation {
        Ok(_) => {},
        Err(e) => {
            assert(decodes_to(data@, outcome, Err::<Png, DecodeError>(e)));
            return Err(e);
        },
    }
    let result = png.finalize();
    proof {
        assert(decodes_to(data@, outcome, result));
        if result is Ok {
            law_decoded_geometry(data@, outcome, result->Ok_0@);
        }
    }
    result
}

} // verus!
