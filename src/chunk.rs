//! Chunk framing: tags, big-endian fields, and `length || tag || payload || crc` frames.
use crate::bytes::be_u32;
use vstd::slice::{slice_subrange, slice_to_vec};
use crate::crc::{compute_crc, crc32};
use crate::decoding::Error;
use vstd::prelude::*;

verus! {

///Type of a chunk, from its four-letter tag
#[allow(non_camel_case_types)]
#[derive(Debug, Clone, Copy, PartialEq, Eq, Structural)]
pub enum ChunkType {
    ///Image header
    IHDR,
    ///Palette table
    PLTE,
    ///Image data chunks
    IDAT,
    ///Image trailer(last chunk of a png datastream)
    IEND,
    ///Transparency information
    tRNS,
    ///Primary chromaticities and white point
    cHRM,
    ///Image gamma
    gAMA,
    ///Embedded ICC profile
    iCCP,
    ///Significant bits
    sBIT,
    ///Standard RGB colour space
    sRGB,
    ///Coding-independent code points
    cICP,
    ///Mastering display colour volume
    mDCv,
    ///International textual data
    iTXt,
    ///Textual data
    tEXt,
    ///Compressed textual data
    zTXt,
    ///Background colour
    bKGD,
    ///Image histogram
    hIST,
    ///Physical pixel dimensions
    pHYs,
    ///Suggested palette
    sPLT,
    ///Exchangeable image file profile
    eXIf,
    ///Time information
    tIME,
    ///Animation control
    acTL,
    ///Frame control
    fcTL,
    ///Frame data
    fdAT,
}

/// The four ASCII bytes of a chunk type's tag.
pub open spec fn tag_bytes(t: ChunkType) -> Seq<u8> {
    match t {
        ChunkType::IHDR => seq![73u8, 72, 68, 82],
        ChunkType::PLTE => seq![80u8, 76, 84, 69],
        ChunkType::IDAT => seq![73u8, 68, 65, 84],
        ChunkType::IEND => seq![73u8, 69, 78, 68],
        ChunkType::tRNS => seq![116u8, 82, 78, 83],
        ChunkType::cHRM => seq![99u8, 72, 82, 77],
        ChunkType::gAMA => seq![103u8, 65, 77, 65],
        ChunkType::iCCP => seq![105u8, 67, 67, 80],
        ChunkType::sBIT => seq![115u8, 66, 73, 84],
        ChunkType::sRGB => seq![115u8, 82, 71, 66],
        ChunkType::cICP => seq![99u8, 73, 67, 80],
        ChunkType::mDCv => seq![109u8, 68, 67, 118],
        ChunkType::iTXt => seq![105u8, 84, 88, 116],
        ChunkType::tEXt => seq![116u8, 69, 88, 116],
        ChunkType::zTXt => seq![122u8, 84, 88, 116],
        ChunkType::bKGD => seq![98u8, 75, 71, 68],
        ChunkType::hIST => seq![104u8, 73, 83, 84],
        ChunkType::pHYs => seq![112u8, 72, 89, 115],
        ChunkType::sPLT => seq![115u8, 80, 76, 84],
        ChunkType::eXIf => seq![101u8, 88, 73, 102],
        ChunkType::tIME => seq![116u8, 73, 77, 69],
        ChunkType::acTL => seq![97u8, 99, 84, 76],
        ChunkType::fcTL => seq![102u8, 99, 84, 76],
        ChunkType::fdAT => seq![102u8, 100, 65, 84],
    }
}

/// The chunk type whose tag is `b`, if any.
pub open spec fn tag_type(b: Seq<u8>) -> Option<ChunkType> {
    if exists|t: ChunkType| tag_bytes(t) == b {
        Some(choose|t: ChunkType| tag_bytes(t) == b)
    } else {
        None
    }
}

/// Distinct chunk types have distinct tags, so a tag names its type.
pub proof fn lemma_tag_type(t: ChunkType)
    ensures
        tag_type(tag_bytes(t)) == Some(t),
{
    let b = tag_bytes(t);
    assert forall|u: ChunkType| tag_bytes(u) == b implies u == t by {
        assert(tag_bytes(u)[0] == b[0] && tag_bytes(u)[1] == b[1] && tag_bytes(u)[2] == b[2]
            && tag_bytes(u)[3] == b[3]);
    }
}

impl ChunkType {
    /// The four bytes of this type's tag.
    pub fn tag(&self) -> (r: [u8; 4])
        ensures
            r@ == tag_bytes(*self),
    {
        let r: [u8; 4] = match self {
            ChunkType::IHDR => [73, 72, 68, 82],
            ChunkType::PLTE => [80, 76, 84, 69],
            ChunkType::IDAT => [73, 68, 65, 84],
            ChunkType::IEND => [73, 69, 78, 68],
            ChunkType::tRNS => [116, 82, 78, 83],
            ChunkType::cHRM => [99, 72, 82, 77],
            ChunkType::gAMA => [103, 65, 77, 65],
            ChunkType::iCCP => [105, 67, 67, 80],
            ChunkType::sBIT => [115, 66, 73, 84],
            ChunkType::sRGB => [115, 82, 71, 66],
            ChunkType::cICP => [99, 73, 67, 80],
            ChunkType::mDCv => [109, 68, 67, 118],
            ChunkType::iTXt => [105, 84, 88, 116],
            ChunkType::tEXt => [116, 69, 88, 116],
            ChunkType::zTXt => [122, 84, 88, 116],
            ChunkType::bKGD => [98, 75, 71, 68],
            ChunkType::hIST => [104, 73, 83, 84],
            ChunkType::pHYs => [112, 72, 89, 115],
            ChunkType::sPLT => [115, 80, 76, 84],
            ChunkType::eXIf => [101, 88, 73, 102],
            ChunkType::tIME => [116, 73, 77, 69],
            ChunkType::acTL => [97, 99, 84, 76],
            ChunkType::fcTL => [102, 99, 84, 76],
            ChunkType::fdAT => [102, 100, 65, 84],
        };
        assert(r@ =~= tag_bytes(*self));
        r
    }
}

///Maps the four tag bytes of a chunk to its type
pub fn get_chunk_type(data: [u8; 4]) -> (r: Result<ChunkType, Error>)
    ensures
        r == match tag_type(data@) {
            Some(t) => Ok(t),
            None => Err(Error::InvalidChunkType),
        },
{
    let r = match (data[0], data[1], data[2], data[3]) {
        (73, 72, 68, 82) => Ok(ChunkType::IHDR),
        (80, 76, 84, 69) => Ok(ChunkType::PLTE),
        (73, 68, 65, 84) => Ok(ChunkType::IDAT),
        (73, 69, 78, 68) => Ok(ChunkType::IEND),
        (116, 82, 78, 83) => Ok(ChunkType::tRNS),
        (99, 72, 82, 77) => Ok(ChunkType::cHRM),
        (103, 65, 77, 65) => Ok(ChunkType::gAMA),
        (105, 67, 67, 80) => Ok(ChunkType::iCCP),
        (115, 66, 73, 84) => Ok(ChunkType::sBIT),
        (115, 82, 71, 66) => Ok(ChunkType::sRGB),
        (99, 73, 67, 80) => Ok(ChunkType::cICP),
        (109, 68, 67, 118) => Ok(ChunkType::mDCv),
        (105, 84, 88, 116) => Ok(ChunkType::iTXt),
        (116, 69, 88, 116) => Ok(ChunkType::tEXt),
        (122, 84, 88, 116) => Ok(ChunkType::zTXt),
        (98, 75, 71, 68) => Ok(ChunkType::bKGD),
        (104, 73, 83, 84) => Ok(ChunkType::hIST),
        (112, 72, 89, 115) => Ok(ChunkType::pHYs),
        (115, 80, 76, 84) => Ok(ChunkType::sPLT),
        (101, 88, 73, 102) => Ok(ChunkType::eXIf),
        (116, 73, 77, 69) => Ok(ChunkType::tIME),
        (97, 99, 84, 76) => Ok(ChunkType::acTL),
        (102, 99, 84, 76) => Ok(ChunkType::fcTL),
        (102, 100, 65, 84) => Ok(ChunkType::fdAT),
        _ => Err(Error::InvalidChunkType),
    };
    proof {
        match r {
            Ok(t) => {
                assert(data@ =~= tag_bytes(t));
                lemma_tag_type(t);
            },
            Err(_) => {
                assert forall|t: ChunkType| tag_bytes(t) != data@ by {
                    if tag_bytes(t) == data@ {
                        assert(tag_bytes(t)[0] == data[0] && tag_bytes(t)[1] == data[1]
                            && tag_bytes(t)[2] == data[2] && tag_bytes(t)[3] == data[3]);
                    }
                }
            },
        }
    }
    r
}

/// The error for a stream that ends inside a field.
pub open spec fn truncated() -> Error {
    Error::InvalidPngData("truncated stream")
}

///A parsed chunk: its type and its payload
pub struct Chunk {
    ///Type of the chunk
    pub chunk_type: ChunkType,
    ///Payload of the chunk
    pub data: Vec<u8>,
}

/// The chunk that starts at `pos` of `s`: its type, payload and the position
/// just past its CRC.
pub open spec fn chunk_at(s: Seq<u8>, pos: int) -> Result<(ChunkType, Seq<u8>, int), Error> {
    if pos + 4 > s.len() {
        Err(truncated())
    } else {
        let len = be_u32(s.subrange(pos, pos + 4)) as int;
        if pos + 12 + len > s.len() {
            Err(truncated())
        } else {
            let body = s.subrange(pos + 4, pos + 8 + len);
            if crc32(body) != be_u32(s.subrange(pos + 8 + len, pos + 12 + len)) {
                Err(Error::InvalidCrc)
            } else {
                match tag_type(body.take(4)) {
                    None => Err(Error::InvalidChunkType),
                    Some(t) => Ok((t, body.skip(4), pos + 12 + len)),
                }
            }
        }
    }
}

///Reads `N` bytes at `*pos` and moves `*pos` past them; `None` if fewer remain
pub fn read_n_const<const N: usize>(stream: &[u8], pos: &mut usize) -> (r: Option<[u8; N]>)
    ensures
        *old(pos) + N <= stream@.len() ==> r is Some && r->0@ == stream@.subrange(
            *old(pos) as int,
            *old(pos) + N,
        ) && *final(pos) == *old(pos) + N,
        *old(pos) + N > stream@.len() ==> r is None && *final(pos) == *old(pos),
{
    let len = stream.len();
    if *pos > len || len - *pos < N {
        return None;
    }
    let mut out = [0u8; N];
    let mut i: usize = 0;
    while i < N
        invariant
            0 <= i <= N,
            *pos + N <= stream@.len(),
            len == stream@.len(),
            out@.len() == N,
            forall|k: int| 0 <= k < i ==> #[trigger] out@[k] == stream@[*pos + k],
        decreases N - i,
    {
        out[i] = stream[*pos + i];
        i = i + 1;
    }
    assert(out@ =~= stream@.subrange(*pos as int, *pos + N));
    *pos = *pos + N;
    Some(out)
}

///Reads `n` bytes at `*pos` and moves `*pos` past them; `None` if fewer remain
pub fn read_n(stream: &[u8], pos: &mut usize, n: u32) -> (r: Option<Vec<u8>>)
    ensures
        *old(pos) + n <= stream@.len() ==> r is Some && r->0@ == stream@.subrange(
            *old(pos) as int,
            *old(pos) + n,
        ) && *final(pos) == *old(pos) + n,
        *old(pos) + n > stream@.len() ==> r is None && *final(pos) == *old(pos),
{
    let len = stream.len();
    if *pos > len || ((len - *pos) as u64) < n as u64 {
        return None;
    }
    let end = *pos + n as usize;
    let out = slice_to_vec(slice_subrange(stream, *pos, end));
    *pos = end;
    Some(out)
}

///Reads one chunk at `*pos`, checks its CRC and its tag, and moves `*pos` past it
pub fn parse_chunk(stream: &[u8], pos: &mut usize) -> (r: Result<Chunk, Error>)
    ensures
        match chunk_at(stream@, *old(pos) as int) {
            Ok((t, payload, next)) => r is Ok && r->Ok_0.chunk_type == t && r->Ok_0.data@
                == payload && *final(pos) == next,
            Err(e) => r == Err::<Chunk, Error>(e),
        },
{
    let ghost s = stream@;
    let ghost p0 = *pos as int;
    let Some(len_bytes) = read_n_const::<4>(stream, pos) else {
        return Err(Error::InvalidPngData("truncated stream"));
    };
    let length = ((len_bytes[0] as u32) << 24) | ((len_bytes[1] as u32) << 16) | ((
    len_bytes[2] as u32) << 8) | (len_bytes[3] as u32);
    assert(length == be_u32(s.subrange(p0, p0 + 4)));
    let start = *pos;
    let len = stream.len();
    if ((len - start) as u64) < length as u64 + 8 {
        return Err(Error::InvalidPngData("truncated stream"));
    }
    let body_end = start + 4 + length as usize;
    let body = slice_subrange(stream, start, body_end);
    let computed = compute_crc(body);
    let mut crc_pos = body_end;
    let crc_bytes = read_n_const::<4>(stream, &mut crc_pos).unwrap();
    let crc = ((crc_bytes[0] as u32) << 24) | ((crc_bytes[1] as u32) << 16) | ((
    crc_bytes[2] as u32) << 8) | (crc_bytes[3] as u32);
    if computed != crc {
        return Err(Error::InvalidCrc);
    }
    let tag_bytes = read_n_const::<4>(stream, pos).unwrap();
    assert(tag_bytes@ =~= s.subrange(p0 + 4, p0 + 8 + length).take(4));
    let chunk_type = match get_chunk_type(tag_bytes) {
        Ok(t) => t,
        Err(e) => return Err(e),
    };
    let data = read_n(stream, pos, length).unwrap();
    *pos = crc_pos;
    proof {
        assert(data@ =~= s.subrange(p0 + 4, p0 + 8 + length).skip(4));
    }
    Ok(Chunk { chunk_type, data })
}
} // verus!
