//! The container: a fixed signature followed by length-prefixed, typed,
//! checksummed chunks.

use crate::crc::{crc32, law_single_byte_change_detected, CrcCalculator};
use crate::endian::{
    be_bytes, be_u32_at, law_be_read_write, law_be_write_read, BigEndian4,
};
use crate::error::{DecodeError, Failure};
use vstd::prelude::*;

verus! {

/// Type tag of the header chunk, the letters `IHDR`.
pub const IHDR_TAG: u32 = 0x4948_4452;

/// Type tag of the palette chunk, the letters `PLTE`.
pub const PLTE_TAG: u32 = 0x504c_5445;

/// Type tag of an image data chunk, the letters `IDAT`.
pub const IDAT_TAG: u32 = 0x4944_4154;

/// Type tag of the end chunk, the letters `IEND`.
pub const IEND_TAG: u32 = 0x4945_4e44;

/// Number of bytes in the signature.
pub const MAGIC_LEN: usize = 8;

/// The chunk types that the decoder acts on.
#[derive(Debug, Clone, Copy, PartialEq, Eq, Structural)]
pub enum ChunkType {
    Ihdr,
    Plte,
    Idat,
    Iend,
}

/// The chunk type that a tag names, if the decoder knows the tag.
pub open spec fn chunk_type_of(tag: u32) -> Option<ChunkType> {
    if tag == IHDR_TAG {
        Some(ChunkType::Ihdr)
    } else if tag == PLTE_TAG {
        Some(ChunkType::Plte)
    } else if tag == IDAT_TAG {
        Some(ChunkType::Idat)
    } else if tag == IEND_TAG {
        Some(ChunkType::Iend)
    } else {
        None
    }
}

impl ChunkType {
    /// The tag of this chunk type.
    pub open spec fn spec_tag(self) -> u32 {
        match self {
            ChunkType::Ihdr => IHDR_TAG,
            ChunkType::Plte => PLTE_TAG,
            ChunkType::Idat => IDAT_TAG,
            ChunkType::Iend => IEND_TAG,
        }
    }

    /// Reads a type tag; `None` for a tag that the decoder does not know.
    pub fn from_u32(tag: u32) -> (typ: Option<Self>)
        ensures
            typ == chunk_type_of(tag),
    {
        if tag == IHDR_TAG {
            Some(ChunkType::Ihdr)
        } else if tag == PLTE_TAG {
            Some(ChunkType::Plte)
        } else if tag == IDAT_TAG {
            Some(ChunkType::Idat)
        } else if tag == IEND_TAG {
            Some(ChunkType::Iend)
        } else {
            None
        }
    }

    /// The tag of this chunk type.
    #[verifier::when_used_as_spec(spec_tag)]
    pub fn tag(self) -> (tag: u32)
        ensures
            tag == self.spec_tag(),
    {
        match self {
            ChunkType::Ihdr => IHDR_TAG,
            ChunkType::Plte => PLTE_TAG,
            ChunkType::Idat => IDAT_TAG,
            ChunkType::Iend => IEND_TAG,
        }
    }
}

/// A chunk of the container. The payload is borrowed from the buffer that
/// was parsed.
#[derive(Debug, Clone, Copy)]
pub struct Chunk<'a> {
    pub length: u32,
    pub typ: ChunkType,
    pub data: &'a [u8],
    pub crc: u32,
}

/// A chunk as a mathematical value.
pub struct ChunkData {
    pub length: u32,
    pub typ: ChunkType,
    pub data: Seq<u8>,
    pub crc: u32,
}

impl<'a> View for Chunk<'a> {
    type V = ChunkData;

    open spec fn view(&self) -> ChunkData {
        ChunkData { length: self.length, typ: self.typ, data: self.data@, crc: self.crc }
    }
}

impl ChunkData {
    /// What holds of every chunk that the parser hands out: the length is
    /// the length of the payload, and the stored checksum is the checksum
    /// of type tag and payload.
    pub open spec fn wf(self) -> bool {
        &&& self.data.len() == self.length
        &&& self.crc == crc32(be_bytes(self.typ.tag()) + self.data)
    }
}

/// A vector of chunks as a sequence of mathematical values.
pub open spec fn chunk_views<'a>(chunks: Seq<Chunk<'a>>) -> Seq<ChunkData> {
    chunks.map_values(|chunk: Chunk<'a>| chunk@)
}

/// The eight bytes of the PNG signature.
pub open spec fn magic() -> Seq<u8> {
    seq![0x89u8, 0x50u8, 0x4eu8, 0x47u8, 0x0du8, 0x0au8, 0x1au8, 0x0au8]
}

/// Whether a buffer begins with the signature.
pub open spec fn has_magic(buf: Seq<u8>) -> bool {
    buf.len() >= MAGIC_LEN && buf.subrange(0, MAGIC_LEN as int) == magic()
}

/// Payload length that the chunk frame at `pos` declares.
pub open spec fn frame_length(buf: Seq<u8>, pos: int) -> u32 {
    be_u32_at(buf, pos)
}

/// Type tag of the chunk frame at `pos`.
pub open spec fn frame_tag(buf: Seq<u8>, pos: int) -> u32 {
    be_u32_at(buf, pos + 4)
}

/// Payload of the chunk frame at `pos`.
pub open spec fn frame_payload(buf: Seq<u8>, pos: int) -> Seq<u8> {
    buf.subrange(pos + 8, pos + 8 + frame_length(buf, pos))
}

/// The bytes that the checksum of the frame at `pos` covers: type tag, then
/// payload.
pub open spec fn frame_checked(buf: Seq<u8>, pos: int) -> Seq<u8> {
    buf.subrange(pos + 4, pos + 8 + frame_length(buf, pos))
}

/// Checksum stored at the end of the chunk frame at `pos`.
pub open spec fn frame_crc(buf: Seq<u8>, pos: int) -> u32 {
    be_u32_at(buf, pos + 8 + frame_length(buf, pos))
}

/// Position just behind the chunk frame at `pos`.
pub open spec fn frame_end(buf: Seq<u8>, pos: int) -> int {
    pos + 12 + frame_length(buf, pos)
}

/// Whether the buffer holds all of the frame that begins at `pos`.
pub open spec fn frame_complete(buf: Seq<u8>, pos: int) -> bool {
    buf.len() - pos >= frame_length(buf, pos) + 12
}

/// `head` followed by the chunks of `rest`, or the failure of `rest`.
pub open spec fn prepend(head: Seq<ChunkData>, rest: Result<Seq<ChunkData>, Failure>) -> Result<
    Seq<ChunkData>,
    Failure,
> {
    match rest {
        Ok(tail) => Ok(head + tail),
        Err(e) => Err(e),
    }
}

/// The chunks from position `pos` on, in the order of the buffer. The walk
/// goes on while eight more bytes are left for a length and a type tag. A
/// frame that the buffer does not hold in full, and a frame whose checksum
/// is not the one stored, end the walk in a failure. A chunk of unknown type
/// is passed over once its checksum has been found right. The end chunk is
/// the last chunk handed out, whatever follows it.
pub open spec fn walk(buf: Seq<u8>, pos: int) -> Result<Seq<ChunkData>, Failure>
    decreases buf.len() - pos,
{
    if pos < 0 || buf.len() - pos < 8 {
        Ok(Seq::empty())
    } else if !frame_complete(buf, pos) {
        Err(Failure::TruncatedChunk)
    } else if crc32(frame_checked(buf, pos)) != frame_crc(buf, pos) {
        Err(Failure::CrcMismatch)
    } else {
        match chunk_type_of(frame_tag(buf, pos)) {
            None => walk(buf, frame_end(buf, pos)),
            Some(typ) => {
                let chunk = ChunkData {
                    length: frame_length(buf, pos),
                    typ,
                    data: frame_payload(buf, pos),
                    crc: frame_crc(buf, pos),
                };
                if typ == ChunkType::Iend {
                    Ok(seq![chunk])
                } else {
                    prepend(seq![chunk], walk(buf, frame_end(buf, pos)))
                }
            },
        }
    }
}

/// The chunks of a buffer: those behind the signature, if it is there.
pub open spec fn parse_chunks(buf: Seq<u8>) -> Result<Seq<ChunkData>, Failure> {
    if !has_magic(buf) {
        Err(Failure::MagicMismatch)
    } else {
        walk(buf, MAGIC_LEN as int)
    }
}

/// A chunk as it is stored: the length of the payload, the type tag, the
/// payload, and the checksum of type tag and payload.
pub open spec fn frame_of(tag: u32, payload: Seq<u8>) -> Seq<u8> {
    be_bytes(payload.len() as u32) + be_bytes(tag) + payload + be_bytes(
        crc32(be_bytes(tag) + payload),
    )
}

/// The frames of a run of chunks, one behind the other.
pub open spec fn frames_of(chunks: Seq<ChunkData>) -> Seq<u8>
    decreases chunks.len(),
{
    if chunks.len() == 0 {
        Seq::empty()
    } else {
        frame_of(chunks[0].typ.tag(), chunks[0].data) + frames_of(chunks.skip(1))
    }
}

/// A file that holds the given chunks: the signature, then the frames.
pub open spec fn file_of(chunks: Seq<ChunkData>) -> Seq<u8> {
    magic() + frames_of(chunks)
}

/// Whether no chunk but the last is an end chunk.
pub open spec fn ends_at_most_once(chunks: Seq<ChunkData>) -> bool {
    forall|i: int| 0 <= i < chunks.len() - 1 ==> (#[trigger] chunks[i]).typ != ChunkType::Iend
}

/// Whether the checksum of a chunk guards the byte at `at`: whether `at`
/// lies in the type tag, the payload or the stored checksum of a chunk that
/// the walk from `pos` comes to.
pub open spec fn guarded(buf: Seq<u8>, pos: int, at: int) -> bool
    decreases buf.len() - pos,
{
    if pos < 0 || buf.len() - pos < 8 || !frame_complete(buf, pos) {
        false
    } else if pos + 4 <= at < frame_end(buf, pos) {
        true
    } else if chunk_type_of(frame_tag(buf, pos)) == Some(ChunkType::Iend) {
        false
    } else {
        guarded(buf, frame_end(buf, pos), at)
    }
}

/// Whether `at` lies in the payload of a chunk that the walk from `pos`
/// comes to.
pub open spec fn in_payload(buf: Seq<u8>, pos: int, at: int) -> bool
    decreases buf.len() - pos,
{
    if pos < 0 || buf.len() - pos < 8 || !frame_complete(buf, pos) {
        false
    } else if pos + 8 <= at < pos + 8 + frame_length(buf, pos) {
        true
    } else if chunk_type_of(frame_tag(buf, pos)) == Some(ChunkType::Iend) {
        false
    } else {
        in_payload(buf, frame_end(buf, pos), at)
    }
}

/// Whether `at` lies in the stored checksum of a chunk that the walk from
/// `pos` comes to.
pub open spec fn in_stored_crc(buf: Seq<u8>, pos: int, at: int) -> bool
    decreases buf.len() - pos,
{
    if pos < 0 || buf.len() - pos < 8 || !frame_complete(buf, pos) {
        false
    } else if pos + 8 + frame_length(buf, pos) <= at < frame_end(buf, pos) {
        true
    } else if chunk_type_of(frame_tag(buf, pos)) == Some(ChunkType::Iend) {
        false
    } else {
        in_stored_crc(buf, frame_end(buf, pos), at)
    }
}

proof fn lemma_prepend_push(
    head: Seq<ChunkData>,
    chunk: ChunkData,
    rest: Result<Seq<ChunkData>, Failure>,
)
    ensures
        prepend(head, prepend(seq![chunk], rest)) == prepend(head.push(chunk), rest),
{
    match rest {
        Ok(tail) => {
            assert(head + (seq![chunk] + tail) =~= head.push(chunk) + tail);
        },
        Err(_) => {},
    }
}

/// The failures that parsing can end in.
pub open spec fn is_framing_failure(e: Failure) -> bool {
    e == Failure::MagicMismatch || e == Failure::TruncatedChunk || e == Failure::CrcMismatch
}

proof fn lemma_walk_failures(buf: Seq<u8>, pos: int)
    ensures
        walk(buf, pos) matches Err(e) ==> is_framing_failure(e),
    decreases buf.len() - pos,
{
    if pos < 0 || buf.len() - pos < 8 || !frame_complete(buf, pos) {
    } else {
        lemma_walk_failures(buf, frame_end(buf, pos));
    }
}

/// Parsing fails for three reasons only: a missing signature, a chunk cut
/// short, a checksum that does not match.
pub proof fn law_parse_failures(buf: Seq<u8>)
    ensures
        parse_chunks(buf) matches Err(e) ==> is_framing_failure(e),
{
    lemma_walk_failures(buf, MAGIC_LEN as int);
}

/// A frame that lies in a buffer at `pos` is read there as it was written.
proof fn lemma_frame_read(buf: Seq<u8>, pos: int, tag: u32, payload: Seq<u8>)
    requires
        0 <= pos,
        payload.len() <= u32::MAX,
        pos + 12 + payload.len() <= buf.len(),
        buf.subrange(pos, pos + 12 + payload.len()) == frame_of(tag, payload),
    ensures
        frame_complete(buf, pos),
        frame_length(buf, pos) == payload.len(),
        frame_tag(buf, pos) == tag,
        frame_payload(buf, pos) == payload,
        frame_checked(buf, pos) == be_bytes(tag) + payload,
        frame_crc(buf, pos) == crc32(be_bytes(tag) + payload),
{
    let len = payload.len() as u32;
    let sum = crc32(be_bytes(tag) + payload);
    let frame = frame_of(tag, payload);
    law_be_read_write(len);
    law_be_read_write(tag);
    law_be_read_write(sum);
    assert forall|i: int| 0 <= i < 12 + len implies buf[pos + i] == frame[i] by {
        assert(buf.subrange(pos, pos + 12 + len)[i] == buf[pos + i]);
    }
    assert(frame[0] == be_bytes(len)[0] && frame[1] == be_bytes(len)[1] && frame[2] == be_bytes(
        len,
    )[2] && frame[3] == be_bytes(len)[3]);
    assert(frame_length(buf, pos) == len);
    assert(frame[4] == be_bytes(tag)[0] && frame[5] == be_bytes(tag)[1] && frame[6] == be_bytes(
        tag,
    )[2] && frame[7] == be_bytes(tag)[3]);
    assert(frame[8 + len] == be_bytes(sum)[0] && frame[9 + len] == be_bytes(sum)[1] && frame[10
        + len] == be_bytes(sum)[2] && frame[11 + len] == be_bytes(sum)[3]);
    assert(frame_payload(buf, pos) =~= payload) by {
        assert forall|i: int| 0 <= i < len implies frame_payload(buf, pos)[i] == payload[i] by {
            assert(buf[pos + 8 + i] == frame[8 + i]);
        }
    }
    assert(frame_checked(buf, pos) =~= be_bytes(tag) + payload) by {
        assert forall|i: int| 0 <= i < 4 + len implies frame_checked(buf, pos)[i] == (be_bytes(tag)
            + payload)[i] by {
            assert(buf[pos + 4 + i] == frame[4 + i]);
        }
    }
}

proof fn lemma_walk_frames(buf: Seq<u8>, pos: int, chunks: Seq<ChunkData>)
    requires
        0 <= pos,
        pos + frames_of(chunks).len() == buf.len(),
        buf.subrange(pos, buf.len() as int) == frames_of(chunks),
        forall|i: int| 0 <= i < chunks.len() ==> (#[trigger] chunks[i]).wf(),
        ends_at_most_once(chunks),
    ensures
        walk(buf, pos) == Ok::<Seq<ChunkData>, Failure>(chunks),
    decreases chunks.len(),
{
    if chunks.len() == 0 {
        assert(walk(buf, pos)->Ok_0 =~= chunks);
    } else {
        let first = chunks[0];
        let rest = chunks.skip(1);
        let frame = frame_of(first.typ.tag(), first.data);
        let end = pos + 12 + first.data.len();
        assert(first.wf());
        assert(buf.subrange(pos, end) =~= frame) by {
            assert forall|i: int| 0 <= i < frame.len() implies buf.subrange(pos, end)[i]
                == frame[i] by {
                assert(buf.subrange(pos, buf.len() as int)[i] == frames_of(chunks)[i]);
            }
        }
        assert(buf.subrange(end, buf.len() as int) =~= frames_of(rest)) by {
            assert forall|i: int| 0 <= i < frames_of(rest).len() implies buf.subrange(
                end,
                buf.len() as int,
            )[i] == frames_of(rest)[i] by {
                assert(buf.subrange(pos, buf.len() as int)[frame.len() + i] == frames_of(
                    chunks,
                )[frame.len() + i]);
            }
        }
        lemma_frame_read(buf, pos, first.typ.tag(), first.data);
        assert(chunk_type_of(first.typ.tag()) == Some(first.typ));
        let read = ChunkData {
            length: frame_length(buf, pos),
            typ: first.typ,
            data: frame_payload(buf, pos),
            crc: frame_crc(buf, pos),
        };
        assert(read == first);
        if first.typ == ChunkType::Iend {
            assert(chunks.len() == 1) by {
                if chunks.len() > 1 {
                    assert(chunks[0].typ != ChunkType::Iend);
                }
            }
            assert(chunks =~= seq![first]);
        } else {
            assert forall|i: int| 0 <= i < rest.len() implies (#[trigger] rest[i]).wf() by {
                assert(rest[i] == chunks[i + 1]);
            }
            assert(ends_at_most_once(rest)) by {
                assert forall|i: int| 0 <= i < rest.len() - 1 implies (#[trigger] rest[i]).typ
                    != ChunkType::Iend by {
                    assert(rest[i] == chunks[i + 1]);
                }
            }
            lemma_walk_frames(buf, end, rest);
            assert(seq![first] + rest =~= chunks);
        }
    }
}

/// Parsing reads back what was written: a file that holds well-formed
/// chunks, with no end chunk before the last, parses into those chunks.
pub proof fn law_parse_reads_file(chunks: Seq<ChunkData>)
    requires
        forall|i: int| 0 <= i < chunks.len() ==> (#[trigger] chunks[i]).wf(),
        ends_at_most_once(chunks),
    ensures
        parse_chunks(file_of(chunks)) == Ok::<Seq<ChunkData>, Failure>(chunks),
{
    let buf = file_of(chunks);
    assert(buf.subrange(MAGIC_LEN as int, buf.len() as int) =~= frames_of(chunks));
    assert(buf.subrange(0, MAGIC_LEN as int) =~= magic());
    lemma_walk_frames(buf, MAGIC_LEN as int, chunks);
}

/// A byte with one of its eight bits flipped.
pub open spec fn flip_bit(byte: u8, bit: u8) -> u8 {
    byte ^ (1u8 << bit)
}

/// Flipping a bit changes the byte.
pub proof fn law_flip_bit_changes(byte: u8, bit: u8)
    requires
        bit < 8,
    ensures
        flip_bit(byte, bit) != byte,
{
    assert(bit < 8 ==> byte ^ (1u8 << bit) != byte) by (bit_vector);
}

/// A buffer without the signature is refused as such, whatever else it
/// holds.
pub proof fn law_magic_gates(buf: Seq<u8>)
    requires
        !has_magic(buf),
    ensures
        parse_chunks(buf) == Err::<Seq<ChunkData>, Failure>(Failure::MagicMismatch),
{
}

proof fn lemma_bytes_spell_tag(buf: Seq<u8>, at: int)
    requires
        0 <= at,
        at + 4 <= buf.len(),
    ensures
        be_bytes(be_u32_at(buf, at)) == buf.subrange(at, at + 4),
{
    law_be_write_read(buf[at], buf[at + 1], buf[at + 2], buf[at + 3]);
    assert(seq![buf[at], buf[at + 1], buf[at + 2], buf[at + 3]] =~= buf.subrange(at, at + 4));
}

proof fn lemma_walk_wf(buf: Seq<u8>, pos: int, chunks: Seq<ChunkData>)
    requires
        walk(buf, pos) == Ok::<Seq<ChunkData>, Failure>(chunks),
    ensures
        forall|i: int| 0 <= i < chunks.len() ==> (#[trigger] chunks[i]).wf(),
    decreases buf.len() - pos,
{
    if pos < 0 || buf.len() - pos < 8 {
    } else {
        let end = frame_end(buf, pos);
        match chunk_type_of(frame_tag(buf, pos)) {
            None => {
                lemma_walk_wf(buf, end, chunks);
            },
            Some(typ) => {
                let chunk = ChunkData {
                    length: frame_length(buf, pos),
                    typ,
                    data: frame_payload(buf, pos),
                    crc: frame_crc(buf, pos),
                };
                lemma_bytes_spell_tag(buf, pos + 4);
                assert(frame_checked(buf, pos) =~= be_bytes(typ.tag()) + chunk.data);
                assert(chunk.wf());
                if typ != ChunkType::Iend {
                    let tail = walk(buf, end)->Ok_0;
                    lemma_walk_wf(buf, end, tail);
                    assert(chunks =~= seq![chunk] + tail);
                }
            },
        }
    }
}

/// Every chunk that the parser hands out is well-formed: its length is that
/// of its payload, and its checksum is that of its type tag and payload.
pub proof fn law_parsed_chunks_wf(buf: Seq<u8>, chunks: Seq<ChunkData>)
    requires
        parse_chunks(buf) == Ok::<Seq<ChunkData>, Failure>(chunks),
    ensures
        forall|i: int| 0 <= i < chunks.len() ==> (#[trigger] chunks[i]).wf(),
{
    lemma_walk_wf(buf, MAGIC_LEN as int, chunks);
}

proof fn lemma_guarded_range(buf: Seq<u8>, pos: int, at: int)
    requires
        guarded(buf, pos, at),
    ensures
        0 <= pos,
        pos + 4 <= at < buf.len(),
    decreases buf.len() - pos,
{
    if !(pos + 4 <= at < frame_end(buf, pos)) {
        lemma_guarded_range(buf, frame_end(buf, pos), at);
    }
}

proof fn lemma_payload_guarded(buf: Seq<u8>, pos: int, at: int)
    requires
        in_payload(buf, pos, at),
    ensures
        guarded(buf, pos, at),
    decreases buf.len() - pos,
{
    if !(pos + 8 <= at < pos + 8 + frame_length(buf, pos)) {
        lemma_payload_guarded(buf, frame_end(buf, pos), at);
        lemma_guarded_range(buf, frame_end(buf, pos), at);
    }
}

proof fn lemma_stored_crc_guarded(buf: Seq<u8>, pos: int, at: int)
    requires
        in_stored_crc(buf, pos, at),
    ensures
        guarded(buf, pos, at),
    decreases buf.len() - pos,
{
    if !(pos + 8 + frame_length(buf, pos) <= at < frame_end(buf, pos)) {
        lemma_stored_crc_guarded(buf, frame_end(buf, pos), at);
        lemma_guarded_range(buf, frame_end(buf, pos), at);
    }
}

proof fn lemma_walk_detects(buf: Seq<u8>, pos: int, at: int, byte: u8)
    requires
        walk(buf, pos) is Ok,
        guarded(buf, pos, at),
        byte != buf[at],
    ensures
        walk(buf.update(at, byte), pos) == Err::<Seq<ChunkData>, Failure>(Failure::CrcMismatch),
    decreases buf.len() - pos,
{
    let changed = buf.update(at, byte);
    let length = frame_length(buf, pos);
    let end = frame_end(buf, pos);
    lemma_guarded_range(buf, pos, at);
    assert(frame_length(changed, pos) == length);
    if at < end {
        if at < pos + 8 + length {
            assert(frame_crc(changed, pos) == frame_crc(buf, pos));
            law_single_byte_change_detected(
                frame_checked(buf, pos),
                frame_checked(changed, pos),
                at - (pos + 4),
            );
        } else {
            assert(frame_checked(changed, pos) =~= frame_checked(buf, pos));
            assert(frame_crc(changed, pos) != frame_crc(buf, pos));
        }
    } else {
        lemma_guarded_range(buf, end, at);
        assert(frame_checked(changed, pos) =~= frame_checked(buf, pos));
        assert(frame_payload(changed, pos) =~= frame_payload(buf, pos));
        assert(frame_crc(changed, pos) == frame_crc(buf, pos));
        assert(frame_tag(changed, pos) == frame_tag(buf, pos));
        lemma_walk_detects(buf, end, at, byte);
    }
}

/// Corruption is detected. Take a buffer whose chunks all pass, and change
/// one byte that a checksum guards, be it in a type tag, in a payload or in
/// a stored checksum, and be it by one bit or by several: the chunks of the
/// buffer no longer pass.
pub proof fn law_corruption_detected(buf: Seq<u8>, at: int, byte: u8)
    requires
        parse_chunks(buf) is Ok,
        guarded(buf, MAGIC_LEN as int, at),
        byte != buf[at],
    ensures
        parse_chunks(buf.update(at, byte)) == Err::<Seq<ChunkData>, Failure>(
            Failure::CrcMismatch,
        ),
{
    lemma_guarded_range(buf, MAGIC_LEN as int, at);
    lemma_walk_detects(buf, MAGIC_LEN as int, at, byte);
    assert(buf.update(at, byte).subrange(0, MAGIC_LEN as int) =~= buf.subrange(
        0,
        MAGIC_LEN as int,
    ));
}

/// A single flipped bit in the payload of a chunk is detected.
pub proof fn law_payload_bit_flip_detected(buf: Seq<u8>, at: int, bit: u8)
    requires
        parse_chunks(buf) is Ok,
        in_payload(buf, MAGIC_LEN as int, at),
        bit < 8,
    ensures
        parse_chunks(buf.update(at, flip_bit(buf[at], bit))) == Err::<Seq<ChunkData>, Failure>(
            Failure::CrcMismatch,
        ),
{
    lemma_payload_guarded(buf, MAGIC_LEN as int, at);
    law_flip_bit_changes(buf[at], bit);
    law_corruption_detected(buf, at, flip_bit(buf[at], bit));
}

/// A single flipped bit in the stored checksum of a chunk is detected.
pub proof fn law_stored_crc_bit_flip_detected(buf: Seq<u8>, at: int, bit: u8)
    requires
        parse_chunks(buf) is Ok,
        in_stored_crc(buf, MAGIC_LEN as int, at),
        bit < 8,
    ensures
        parse_chunks(buf.update(at, flip_bit(buf[at], bit))) == Err::<Seq<ChunkData>, Failure>(
            Failure::CrcMismatch,
        ),
{
    lemma_stored_crc_guarded(buf, MAGIC_LEN as int, at);
    law_flip_bit_changes(buf[at], bit);
    law_corruption_detected(buf, at, flip_bit(buf[at], bit));
}

/// Whether a buffer begins with the PNG signature.
pub fn starts_with_magic(data: &[u8]) -> (yes: bool)
    ensures
        yes == has_magic(data@),
{
    if data.len() < MAGIC_LEN {
        return false;
    }
    let yes = data[0] == 0x89 && data[1] == 0x50 && data[2] == 0x4e && data[3] == 0x47 && data[4]
        == 0x0d && data[5] == 0x0a && data[6] == 0x1a && data[7] == 0x0a;
    proof {
        let head = data@.subrange(0, MAGIC_LEN as int);
        assert(head[0] == data@[0] && head[1] == data@[1] && head[2] == data@[2] && head[3]
            == data@[3] && head[4] == data@[4] && head[5] == data@[5] && head[6] == data@[6]
            && head[7] == data@[7]);
        if yes {
            assert(head =~= magic());
        }
    }
    yes
}

/// Splits a buffer into its chunks, checking the signature and every
/// checksum on the way.
pub fn get_chunks(data: &[u8]) -> (result: Result<Vec<Chunk<'_>>, DecodeError>)
    ensures
        match result {
            Ok(chunks) => parse_chunks(data@) == Ok::<Seq<ChunkData>, Failure>(
                chunk_views(chunks@),
            ),
            Err(e) => parse_chunks(data@) == Err::<Seq<ChunkData>, Failure>(e@),
        },
        !has_magic(data@) ==> result == Err::<Vec<Chunk<'_>>, DecodeError>(
            DecodeError::MagicMismatch,
        ),
{
    if !starts_with_magic(data) {
        return Err(DecodeError::MagicMismatch);
    }
    let mut chunks: Vec<Chunk<'_>> = Vec::new();
    let mut pos: usize = MAGIC_LEN;
    assert(chunk_views(chunks@) + Seq::<ChunkData>::empty() =~= Seq::<ChunkData>::empty());
    assert(prepend(chunk_views(chunks@), walk(data@, pos as int)) == walk(data@, pos as int)) by {
        match walk(data@, pos as int) {
            Ok(tail) => {
                assert(chunk_views(chunks@) + tail =~= tail);
            },
            Err(_) => {},
        }
    }
    while data.len() - pos >= 8
        invariant
            has_magic(data@),
            MAGIC_LEN <= pos <= data.len(),
            walk(data@, MAGIC_LEN as int) == prepend(chunk_views(chunks@), walk(data@, pos as int)),
        decreases data.len() - pos,
    {
        let length: u32 = BigEndian4::read(data, pos).get();
        let tag: u32 = BigEndian4::read(data, pos + 4).get();
        if ((data.len() - pos) as u64) < length as u64 + 12 {
            return Err(DecodeError::TruncatedChunk);
        }
        let end_of_data: usize = pos + 8 + length as usize;
        let inner_data: &[u8] = &data[pos + 8..end_of_data];
        let crc: u32 = BigEndian4::read(data, end_of_data).get();

        let mut calculator = CrcCalculator::new();
        calculator.update(&data[pos + 4..end_of_data]);
        if calculator.get_crc() != crc {
            return Err(DecodeError::CrcMismatch);
        }
        let ghost start = pos as int;
        let ghost before = chunk_views(chunks@);
        pos = end_of_data + 4;
        match ChunkType::from_u32(tag) {
            Some(typ) => {
                let chunk = Chunk { length, typ, data: inner_data, crc };
                chunks.push(chunk);
                proof {
                    assert(chunk_views(chunks@) =~= before.push(chunk@));
                    lemma_prepend_push(before, chunk@, walk(data@, frame_end(data@, start)));
                }
                if typ == ChunkType::Iend {
                    proof {
                        assert(before + seq![chunk@] =~= before.push(chunk@));
                    }
                    return Ok(chunks);
                }
            },
            None => {},
        }
    }
    proof {
        assert(chunk_views(chunks@) + Seq::<ChunkData>::empty() =~= chunk_views(chunks@));
    }
    Ok(chunks)
}

} // verus!
