//! One chunk of a PNG stream: its layout on the wire, how it is built, read
//! and written.

use vstd::prelude::*;
use vstd::slice::{slice_subrange, slice_to_vec};
use vstd::string::StringExecFns;
use vstd::utf8::{decode_utf8, encode_utf8_decode_utf8, valid_utf8};
use std::convert::TryFrom;
use crate::chunk_type::{code_of_bytes, four_letters, valid_code, ChunkType};
pub use crate::error::ChunkError;
use crate::text::{bytes_as_chars, decimal, decimal_string, listed, listed_string};
use crate::wire::{
    be_bytes, be_decode, be_encode, be_value, extend_with, lemma_be_bytes_of_value,
    lemma_be_value_of_bytes,
};

verus! {

/// The CRC-32 of `bytes` in the ISO-HDLC variant (the one of zlib and PNG),
/// as the `crc` crate computes it.
pub uninterp spec fn crc32_iso_hdlc(bytes: Seq<u8>) -> u32;

/// The checksum of `chunk_data`. The body hands the bytes to the `crc`
/// crate (`Crc::<u32>::new` on `CRC_32_ISO_HDLC`, then `digest`, `update`,
/// `finalize`); that the result depends on the bytes alone is taken on
/// trust, and is all that is claimed.
#[verifier::external_body]
pub fn calculate_crc(chunk_data: &Vec<u8>) -> (r: u32)
    ensures
        r == crc32_iso_hdlc(chunk_data@),
{
    let crc_algorithm = crc::Crc::<u32>::new(&crc::CRC_32_ISO_HDLC);
    let mut digest = crc_algorithm.digest();
    digest.update(chunk_data);
    digest.finalize()
}

/// What a chunk is, as plain values.
pub struct ChunkView {
    /// The length field.
    pub length: u32,
    /// The four bytes of the type code.
    pub chunk_type: Seq<u8>,
    /// The payload.
    pub data: Seq<u8>,
    /// The checksum field.
    pub crc: u32,
}

/// The chunk that a type code and a payload make. The length field holds the
/// payload's length, reduced to 32 bits where it does not fit.
pub open spec fn chunk_of(code: Seq<u8>, data: Seq<u8>) -> ChunkView {
    ChunkView {
        length: (data.len() % 0x1_0000_0000) as u32,
        chunk_type: code,
        data: data,
        crc: crc32_iso_hdlc(code + data),
    }
}

/// What every chunk of this library satisfies: a type code of four letters,
/// and length and checksum fields that are those of its type and payload.
pub open spec fn well_formed(v: ChunkView) -> bool {
    &&& four_letters(v.chunk_type)
    &&& v == chunk_of(v.chunk_type, v.data)
}

/// A well-formed chunk that a reader accepts: the type code is valid and the
/// payload's length fits the length field.
pub open spec fn readable(v: ChunkView) -> bool {
    &&& well_formed(v)
    &&& valid_code(v.chunk_type)
    &&& v.data.len() <= u32::MAX
}

/// The bytes of a chunk on the wire: length, type, payload, checksum.
pub open spec fn chunk_wire(v: ChunkView) -> Seq<u8> {
    be_bytes(v.length) + v.chunk_type + v.data + be_bytes(v.crc)
}

/// The chunk that starts `b`, or why there is none. Bytes after the chunk's
/// checksum are not looked at. The definition is opaque, to keep proofs that
/// only pass it on light: `reveal(parse_chunk)` unfolds it.
#[verifier::opaque]
pub open spec fn parse_chunk(b: Seq<u8>) -> Result<ChunkView, ChunkError> {
    if b.len() < 12 {
        Err(ChunkError::InputTooSmall)
    } else {
        let length = be_value(b.subrange(0, 4));
        let code = b.subrange(4, 8);
        match code_of_bytes(code) {
            Err(e) => Err(ChunkError::ChunkType(e)),
            Ok(_) => if b.len() < 12 + length {
                Err(ChunkError::InputTooSmall)
            } else {
                let data = b.subrange(8, 8 + length);
                let stored = be_value(b.subrange(8 + length, 12 + length));
                let actual = crc32_iso_hdlc(code + data);
                if stored != actual {
                    Err(ChunkError::CrcMismatch(stored, actual))
                } else {
                    Ok(ChunkView { length: length, chunk_type: code, data: data, crc: stored })
                }
            },
        }
    }
}

/// A chunk in one line of text, for a person to read: the length, the type,
/// the payload as a list of numbers, and the checksum.
pub open spec fn chunk_text(v: ChunkView) -> Seq<char> {
    "length: "@ + decimal(v.length as nat) + ", chunk type: "@ + bytes_as_chars(v.chunk_type)
        + ", data: ["@ + listed(v.data) + "], crc"@ + decimal(v.crc as nat)
}

/// A chunk: a type, a payload, and the length and checksum fields that go
/// with them on the wire.
#[derive(Debug)]
pub struct Chunk {
    length: u32,
    chunk_type: ChunkType,
    data: Vec<u8>,
    crc: u32,
}

impl View for Chunk {
    type V = ChunkView;

    closed spec fn view(&self) -> ChunkView {
        ChunkView {
            length: self.length,
            chunk_type: self.chunk_type@,
            data: self.data@,
            crc: self.crc,
        }
    }
}

/// Type bytes and payload in one buffer: what the checksum is taken over.
fn checksum_input(chunk_type: &ChunkType, data: &[u8]) -> (r: Vec<u8>)
    ensures
        r@ == chunk_type@ + data@,
{
    let code: [u8; 4] = chunk_type.bytes();
    let mut r: Vec<u8> = Vec::new();
    extend_with(&mut r, code.as_slice());
    extend_with(&mut r, data);
    assert(r@ =~= chunk_type@ + data@);
    r
}

impl Chunk {
    /// Holds of every chunk: it is well formed.
    #[verifier::type_invariant]
    pub open spec fn inv(self) -> bool {
        well_formed(self@)
    }

    /// Builds a chunk of a type and a payload. The checksum is computed over
    /// the type bytes followed by the payload. The length field takes the
    /// payload's length; of a payload of 4 GiB or more it takes the low 32
    /// bits, and such a chunk cannot be read back.
    pub fn new(chunk_type: ChunkType, data: Vec<u8>) -> (c: Chunk)
        ensures
            c@ == chunk_of(chunk_type@, data@),
            well_formed(c@),
            data@.len() <= u32::MAX ==> c@.length == data@.len(),
    {
        let n: u64 = data.len() as u64;
        let length: u32 = #[verifier::truncate] (n as u32);
        assert(length == n % 0x1_0000_0000) by (bit_vector)
            requires
                length == n as u32,
        ;
        let chunk_data = checksum_input(&chunk_type, data.as_slice());
        let crc = calculate_crc(&chunk_data);
        proof {
            use_type_invariant(&chunk_type);
        }
        Chunk { length, chunk_type, data, crc }
    }

    /// The length field.
    pub fn length(&self) -> (r: u32)
        ensures
            r == self@.length,
            well_formed(self@),
    {
        proof {
            use_type_invariant(self);
        }
        self.length
    }

    /// The type.
    pub fn chunk_type(&self) -> (r: &ChunkType)
        ensures
            r@ == self@.chunk_type,
            well_formed(self@),
    {
        proof {
            use_type_invariant(self);
        }
        &self.chunk_type
    }

    /// The payload.
    pub fn data(&self) -> (r: &Vec<u8>)
        ensures
            r@ == self@.data,
            well_formed(self@),
    {
        proof {
            use_type_invariant(self);
        }
        &self.data
    }

    /// The checksum field.
    pub fn crc(&self) -> (r: u32)
        ensures
            r == self@.crc,
            well_formed(self@),
    {
        proof {
            use_type_invariant(self);
        }
        self.crc
    }

    /// The payload as text, where it is UTF-8.
    pub fn data_as_string(&self) -> (r: Result<String, ChunkError>)
        ensures
            match r {
                Ok(text) => valid_utf8(self@.data) && text@ == decode_utf8(self@.data),
                Err(e) => !valid_utf8(self@.data) && e == ChunkError::NotUtf8,
            },
    {
        match core::str::from_utf8(self.data.as_slice()) {
            Ok(s) => {
                proof {
                    encode_utf8_decode_utf8(s@);
                }
                Ok(s.to_owned())
            },
            Err(_) => Err(ChunkError::NotUtf8),
        }
    }

    /// The chunk in one line of text, for a person to read.
    pub fn to_string(&self) -> (r: String)
        ensures
            r@ == chunk_text(self@),
    {
        let mut r = String::new();
        r.append("length: ");
        r.append(decimal_string(self.length).as_str());
        r.append(", chunk type: ");
        r.append(self.chunk_type.to_string().as_str());
        r.append(", data: [");
        r.append(listed_string(self.data.as_slice()).as_str());
        r.append("], crc");
        r.append(decimal_string(self.crc).as_str());
        assert(r@ =~= chunk_text(self@));
        r
    }

    /// The chunk on the wire: big-endian length, type, payload, big-endian
    /// checksum.
    pub fn as_bytes(&self) -> (out: Vec<u8>)
        ensures
            out@ == chunk_wire(self@),
    {
        let length: [u8; 4] = be_encode(self.length);
        let code: [u8; 4] = self.chunk_type.bytes();
        let crc: [u8; 4] = be_encode(self.crc);
        let mut out: Vec<u8> = Vec::new();
        extend_with(&mut out, length.as_slice());
        extend_with(&mut out, code.as_slice());
        extend_with(&mut out, self.data.as_slice());
        extend_with(&mut out, crc.as_slice());
        assert(out@ =~= chunk_wire(self@));
        out
    }
}

impl Clone for Chunk {
    /// A chunk with the same fields.
    fn clone(&self) -> (r: Chunk)
        ensures
            r@ == self@,
    {
        proof {
            use_type_invariant(self);
        }
        let data = self.data.clone();
        assert(data@ =~= self.data@);
        Chunk { length: self.length, chunk_type: self.chunk_type, data, crc: self.crc }
    }
}

impl TryFrom<&[u8]> for Chunk {
    type Error = ChunkError;

    /// Reads the chunk that starts `bytes`: the length, the type (which must
    /// be valid), as many payload bytes as the length says, and the
    /// checksum, which must be that of type and payload.
    fn try_from(bytes: &[u8]) -> (r: Result<Chunk, ChunkError>)
        ensures
            match r {
                Ok(c) => parse_chunk(bytes@) == Ok::<ChunkView, ChunkError>(c@) && well_formed(c@),
                Err(e) => parse_chunk(bytes@) == Err::<ChunkView, ChunkError>(e),
            },
    {
        proof {
            reveal(parse_chunk);
        }
        if bytes.len() < 12 {
            return Err(ChunkError::InputTooSmall);
        }
        let length: u32 = be_decode(bytes, 0);
        let code: [u8; 4] = [bytes[4], bytes[5], bytes[6], bytes[7]];
        assert(code@ =~= bytes@.subrange(4, 8));
        let chunk_type = match ChunkType::try_from(code) {
            Ok(t) => t,
            Err(e) => {
                return Err(ChunkError::ChunkType(e));
            },
        };
        if ((bytes.len() - 12) as u64) < length as u64 {
            return Err(ChunkError::InputTooSmall);
        }
        let end: usize = 8 + length as usize;
        let data: Vec<u8> = slice_to_vec(slice_subrange(bytes, 8, end));
        let stored: u32 = be_decode(bytes, end);
        let chunk_data = checksum_input(&chunk_type, data.as_slice());
        let actual: u32 = calculate_crc(&chunk_data);
        if actual != stored {
            return Err(ChunkError::CrcMismatch(stored, actual));
        }
        proof {
            use_type_invariant(&chunk_type);
        }
        Ok(Chunk { length, chunk_type, data, crc: stored })
    }
}

/// `std` words the contract of `try_from` over equal values. A chunk owns
/// its payload and is known by its view, so that contract is left unclaimed
/// and the one that counts is the `ensures` of `try_from` itself.
impl vstd::std_specs::convert::TryFromSpecImpl<&[u8]> for Chunk {
    open spec fn obeys_try_from_spec() -> bool {
        false
    }

    open spec fn try_from_spec(bytes: &[u8]) -> Result<Chunk, ChunkError> {
        arbitrary()
    }
}

/// Reading what was written gives the chunk back: the bytes of a readable
/// chunk parse to that chunk, with the same length, type, payload and
/// checksum, whatever bytes follow them.
pub proof fn lemma_parse_written_chunk(v: ChunkView, rest: Seq<u8>)
    requires
        readable(v),
    ensures
        chunk_wire(v).len() == 12 + v.data.len(),
        parse_chunk(chunk_wire(v) + rest) == Ok::<ChunkView, ChunkError>(v),
        parse_chunk(chunk_wire(v)) == Ok::<ChunkView, ChunkError>(v),
{
    reveal(parse_chunk);
    lemma_be_value_of_bytes(v.length);
    lemma_be_value_of_bytes(v.crc);
    let w = chunk_wire(v);
    let n = v.data.len() as int;
    assert(v.length == n);
    assert forall|tail: Seq<u8>| parse_chunk(w + tail) == Ok::<ChunkView, ChunkError>(v) by {
        let b = w + tail;
        assert(b.subrange(0, 4) =~= be_bytes(v.length));
        assert(b.subrange(4, 8) =~= v.chunk_type);
        assert(b.subrange(8, 8 + n) =~= v.data);
        assert(b.subrange(8 + n, 12 + n) =~= be_bytes(v.crc));
    }
    assert(w + Seq::<u8>::empty() =~= w);
}

/// A chunk is at least twelve bytes: anything shorter is turned away as too
/// small.
pub proof fn lemma_short_input_rejected(b: Seq<u8>)
    requires
        b.len() < 12,
    ensures
        parse_chunk(b) == Err::<ChunkView, ChunkError>(ChunkError::InputTooSmall),
{
    reveal(parse_chunk);
}

/// The checksum guards type and payload: where the stored checksum is not
/// the one of the type and payload that stand before it, the bytes are
/// turned away with both values. Whether a given change to type or payload
/// changes their checksum is a matter of the checksum function and is not
/// claimed here.
pub proof fn lemma_stale_checksum_rejected(code: Seq<u8>, data: Seq<u8>, stored: u32, rest: Seq<u8>)
    requires
        valid_code(code),
        data.len() <= u32::MAX,
        stored != crc32_iso_hdlc(code + data),
    ensures
        parse_chunk(be_bytes(data.len() as u32) + code + data + be_bytes(stored) + rest) == Err::<
            ChunkView,
            ChunkError,
        >(ChunkError::CrcMismatch(stored, crc32_iso_hdlc(code + data))),
{
    reveal(parse_chunk);
    let length = data.len() as u32;
    let n = data.len() as int;
    lemma_be_value_of_bytes(length);
    lemma_be_value_of_bytes(stored);
    let b = be_bytes(length) + code + data + be_bytes(stored) + rest;
    assert(b.subrange(0, 4) =~= be_bytes(length));
    assert(b.subrange(4, 8) =~= code);
    assert(b.subrange(8, 8 + n) =~= data);
    assert(b.subrange(8 + n, 12 + n) =~= be_bytes(stored));
}

/// What parses is well formed, and takes up twelve bytes and its payload.
pub proof fn lemma_parsed_chunk(b: Seq<u8>)
    requires
        parse_chunk(b) is Ok,
    ensures
        readable(parse_chunk(b)->Ok_0),
        parse_chunk(b)->Ok_0.length == parse_chunk(b)->Ok_0.data.len(),
        12 + parse_chunk(b)->Ok_0.data.len() <= b.len(),
        chunk_wire(parse_chunk(b)->Ok_0) == b.subrange(
            0,
            12 + parse_chunk(b)->Ok_0.data.len() as int,
        ),
{
    reveal(parse_chunk);
    let v = parse_chunk(b)->Ok_0;
    let n = v.data.len() as int;
    lemma_be_bytes_of_value(b.subrange(0, 4));
    lemma_be_bytes_of_value(b.subrange(8 + n, 12 + n));
    assert(chunk_wire(v) =~= b.subrange(0, 12 + n));
}

} // verus!
