use crate::vec_extension::{be_value, spaced_decimals, VecExt, VecExtU8};
use vstd::prelude::*;

verus! {

/// The eight bytes every PNG stream starts with.
pub open spec fn png_signature() -> Seq<u8> {
    seq![137u8, 80u8, 78u8, 71u8, 13u8, 10u8, 26u8, 10u8]
}

/// Type tag of the image header record.
pub open spec fn ihdr_tag() -> Seq<u8> {
    seq![73u8, 72u8, 68u8, 82u8]
}

/// Type tag of the record that ends the stream.
pub open spec fn iend_tag() -> Seq<u8> {
    seq![73u8, 69u8, 78u8, 68u8]
}

/// The ways decoding a PNG stream can fail.
#[derive(Debug)]
pub enum PngError {
    /// The stream does not start with the PNG signature.
    InvalidPngHeader { expected: String, found: String },
    /// The stream ends inside a record.
    EndOfFileReached,
    /// The file could not be read.
    FileReadError,
    /// A record has a length that its type does not allow.
    InvalidChunkLength { expected: u32, found: u32 },
    /// The end record was reached.
    PngEndReached,
}

/// The decoder of a PNG stream.
pub struct Png {
    pub image_header: Option<ImageHeader>,
}

/// The fields of an image header record.
#[derive(Clone, Copy, Debug, PartialEq, Eq, Structural)]
pub struct ImageHeader {
    pub width: u32,
    pub height: u32,
    pub bit_depth: u8,
    pub colour_type: u8,
    pub compression_method: u8,
    pub filter_method: u8,
    pub interlace_method: u8,
}

/// The header that the 13 bytes of an image header record describe.
pub open spec fn header_of(p: Seq<u8>) -> ImageHeader {
    ImageHeader {
        width: be_value(p.subrange(0, 4)) as u32,
        height: be_value(p.subrange(4, 8)) as u32,
        bit_depth: p[8],
        colour_type: p[9],
        compression_method: p[10],
        filter_method: p[11],
        interlace_method: p[12],
    }
}

/// Walks the records of `bytes` from `pos` on, with `header` the image header
/// read so far: each record is a 4-byte big-endian length, a 4-byte type tag,
/// the payload and a 4-byte checksum. Gives the header held when the end
/// record is reached, or the first error met.
pub open spec fn walk_records(bytes: Seq<u8>, pos: int, header: Option<ImageHeader>) -> Result<
    Option<ImageHeader>,
    PngError,
>
    decreases bytes.len() - pos,
{
    if pos < 0 || pos + 8 > bytes.len() {
        Err(PngError::EndOfFileReached)
    } else {
        let n = be_value(bytes.subrange(pos, pos + 4));
        let tag = bytes.subrange(pos + 4, pos + 8);
        let body = pos + 8;
        if body + n + 4 > bytes.len() {
            Err(PngError::EndOfFileReached)
        } else if tag == iend_tag() {
            Ok(header)
        } else if tag == ihdr_tag() {
            if n != 13 {
                Err(PngError::InvalidChunkLength { expected: 13, found: n as u32 })
            } else {
                walk_records(bytes, body + n + 4, Some(header_of(bytes.subrange(body, body + n))))
            }
        } else {
            walk_records(bytes, body + n + 4, header)
        }
    }
}

/// Copies `len` bytes of `bytes` from `start` on.
fn slice_bytes(bytes: &Vec<u8>, start: usize, len: usize) -> (r: Vec<u8>)
    requires
        start + len <= bytes@.len(),
    ensures
        r@ == bytes@.subrange(start as int, start + len),
{
    let mut out: Vec<u8> = Vec::new();
    let mut i: usize = 0;
    let total: usize = bytes.len();
    while i < len
        invariant
            total == bytes@.len(),
            start + len <= bytes@.len(),
            i <= len,
            out@ == bytes@.subrange(start as int, start + i),
        decreases len - i,
    {
        out.push(bytes[start + i]);
        proof {
            assert(out@ =~= bytes@.subrange(start as int, start + i + 1));
        }
        i = i + 1;
    }
    out
}

fn tag_is(tag: &Vec<u8>, a: u8, b: u8, c: u8, d: u8) -> (r: bool)
    requires
        tag@.len() == 4,
    ensures
        r == (tag@ == seq![a, b, c, d]),
{
    let r = tag[0] == a && tag[1] == b && tag[2] == c && tag[3] == d;
    proof {
        if r {
            assert(tag@ =~= seq![a, b, c, d]);
        }
    }
    r
}

impl Png {
    /// A decoder that has read no header yet.
    pub fn new() -> (r: Png)
        ensures
            r.image_header is None,
    {
        Png { image_header: None }
    }

    /// Checks that `bytes` starts with the PNG signature.
    pub fn verify_header(&self, bytes: &Vec<u8>) -> (r: Result<(), PngError>)
        ensures
            r is Ok <==> bytes@.len() >= 8 && bytes@.subrange(0, 8) == png_signature(),
            match r {
                Ok(()) => true,
                Err(PngError::InvalidPngHeader { expected, found }) => expected@ == spaced_decimals(
                    png_signature(),
                ) && found@ == spaced_decimals(
                    bytes@.subrange(0, if bytes@.len() < 8 { bytes@.len() as int } else { 8 }),
                ),
                Err(_) => false,
            },
    {
        let correct_header: Vec<u8> = vec![137, 80, 78, 71, 13, 10, 26, 10];
        let n: usize = if bytes.len() < 8 {
            bytes.len()
        } else {
            8
        };
        let png_header = slice_bytes(bytes, 0, n);
        proof {
            assert(correct_header@ =~= png_signature());
        }
        if png_header.verify_elements(&correct_header) {
            Ok(())
        } else {
            Err(
                PngError::InvalidPngHeader {
                    expected: correct_header.to_string(),
                    found: png_header.to_string(),
                },
            )
        }
    }

    /// Reads an image header record of `chunk_length` bytes.
    #[allow(non_snake_case)]
    pub fn process_IHDR(&mut self, chunk_length: u32, payload: &Vec<u8>) -> (r: Result<(), PngError>)
        requires
            payload@.len() == chunk_length,
        ensures
            chunk_length == 13 ==> r is Ok && final(self).image_header == Some(header_of(payload@)),
            chunk_length != 13 ==> r is Err && r->Err_0 == (PngError::InvalidChunkLength {
                expected: 13,
                found: chunk_length,
            }) && final(self).image_header == old(self).image_header,
    {
        if chunk_length != 13 {
            return Err(PngError::InvalidChunkLength { expected: 13, found: chunk_length });
        }
        let width: u32 = slice_bytes(payload, 0, 4).to_u32();
        let height: u32 = slice_bytes(payload, 4, 4).to_u32();
        self.image_header = Some(
            ImageHeader {
                width,
                height,
                bit_depth: payload[8],
                colour_type: payload[9],
                compression_method: payload[10],
                filter_method: payload[11],
                interlace_method: payload[12],
            },
        );
        Ok(())
    }

    /// Decodes a whole PNG stream: the signature, then records of a 4-byte
    /// length, a 4-byte type tag, the payload and a 4-byte checksum, until the
    /// end record. Records of other types are skipped.
    pub fn decode(&mut self, bytes: &Vec<u8>) -> (r: Result<(), PngError>)
        ensures
            !(bytes@.len() >= 8 && bytes@.subrange(0, 8) == png_signature()) ==> r is Err
                && r->Err_0 is InvalidPngHeader,
            bytes@.len() >= 8 && bytes@.subrange(0, 8) == png_signature() ==> match walk_records(
                bytes@,
                8,
                old(self).image_header,
            ) {
                Ok(h) => r is Ok && final(self).image_header == h,
                Err(e) => r is Err && r->Err_0 == e,
            },
    {
        match self.verify_header(bytes) {
            Ok(()) => {},
            Err(e) => {
                return Err(e);
            },
        }
        let mut pos: usize = 8;
        let ghost outcome = walk_records(bytes@, 8, self.image_header);
        loop
            invariant
                8 <= pos <= bytes@.len(),
                bytes@.len() >= 8 && bytes@.subrange(0, 8) == png_signature(),
                outcome == walk_records(bytes@, 8, old(self).image_header),
                walk_records(bytes@, pos as int, self.image_header) == outcome,
            decreases bytes@.len() - pos,
        {
            if bytes.len() - pos < 8 {
                return Err(PngError::EndOfFileReached);
            }
            let length_bytes = slice_bytes(bytes, pos, 4);
            let chunk_length: u32 = length_bytes.to_u32();
            let tag = slice_bytes(bytes, pos + 4, 4);
            let body = pos + 8;
            if bytes.len() - body < chunk_length as usize || bytes.len() - body - (chunk_length as usize) < 4 {
                return Err(PngError::EndOfFileReached);
            }
            let payload = slice_bytes(bytes, body, chunk_length as usize);
            proof {
                reveal_with_fuel(walk_records, 1);
                assert(iend_tag() == seq![73u8, 69u8, 78u8, 68u8]);
                assert(ihdr_tag() == seq![73u8, 72u8, 68u8, 82u8]);
            }
            if tag_is(&tag, 73, 69, 78, 68) {
                return Ok(());
            }
            if tag_is(&tag, 73, 72, 68, 82) {
                match self.process_IHDR(chunk_length, &payload) {
                    Ok(()) => {},
                    Err(e) => {
                        return Err(e);
                    },
                }
            }
            pos = body + chunk_length as usize + 4;
        }
    }
}

} // verus!
