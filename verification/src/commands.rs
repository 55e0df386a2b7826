//! The two edits of a stream, from the bytes of a file to the bytes of the
//! file that replaces it: hiding a message in a new chunk, and taking a chunk
//! out. Reading and writing the files is the caller's part.

use vstd::prelude::*;
use vstd::string::StrSliceExecFns;
use vstd::utf8::{decode_utf8, encode_utf8, encode_utf8_decode_utf8};
use std::convert::TryFrom;
use std::str::FromStr;
use crate::chunk::{chunk_of, readable, Chunk, ChunkView};
use crate::chunk_type::{code_of_str, is_upper, lemma_text_of_code, ChunkType};
use crate::error::{ChunkTypeError, PNGError};
use crate::png::{
    first_of_type, has_type, is_first_of_type, lemma_first_is_unique, lemma_first_of_type,
    lemma_parse_written_png, lemma_write_parsed_png, parse_png, png_wire, Png,
};

verus! {

/// Why a message could not be put into a stream.
#[derive(Debug, Clone, Copy, PartialEq, Eq, Structural)]
pub enum EncodeError {
    /// The bytes are no PNG stream.
    Png(PNGError),
    /// The text given for the new chunk's type is no chunk type.
    ChunkType(ChunkTypeError),
}

/// The stream `input` with one more chunk at its end, of type `chunk_type`
/// and with `message` in UTF-8 as its payload. The stream is read first: a
/// stream that fails is reported before a type that does.
pub open spec fn encoded(input: Seq<u8>, chunk_type: Seq<char>, message: Seq<char>) -> Result<
    Seq<u8>,
    EncodeError,
> {
    match parse_png(input) {
        Err(e) => Err(EncodeError::Png(e)),
        Ok(chunks) => match code_of_str(chunk_type) {
            Err(e) => Err(EncodeError::ChunkType(e)),
            Ok(code) => Ok(png_wire(chunks.push(chunk_of(code, encode_utf8(message))))),
        },
    }
}

/// The stream `input` without the first of its chunks of type `chunk_type`.
pub open spec fn removed(input: Seq<u8>, chunk_type: Seq<char>) -> Result<Seq<u8>, PNGError> {
    match parse_png(input) {
        Err(e) => Err(e),
        Ok(chunks) => match first_of_type(chunks, chunk_type) {
            None => Err(PNGError::ChunkNotFound),
            Some(i) => Ok(png_wire(chunks.remove(i))),
        },
    }
}

/// Hides `message` in the stream `input`: a chunk of type `chunk_type` with
/// the message as payload is put after the last chunk (so after the end
/// marker, where decoders stop looking), and the new stream is returned.
pub fn encode(input: &[u8], chunk_type: &str, message: &str) -> (r: Result<Vec<u8>, EncodeError>)
    ensures
        match r {
            Ok(out) => encoded(input@, chunk_type@, message@) == Ok::<Seq<u8>, EncodeError>(out@),
            Err(e) => encoded(input@, chunk_type@, message@) == Err::<Seq<u8>, EncodeError>(e),
        },
{
    let mut png = match Png::try_from(input) {
        Ok(p) => p,
        Err(e) => {
            return Err(EncodeError::Png(e));
        },
    };
    let kind = match ChunkType::from_str(chunk_type) {
        Ok(t) => t,
        Err(e) => {
            return Err(EncodeError::ChunkType(e));
        },
    };
    let chunk = Chunk::new(kind, message.as_bytes_vec());
    png.append_chunk(chunk);
    Ok(png.as_bytes())
}

/// Takes the first chunk of type `chunk_type` out of the stream `input` and
/// returns the new stream.
pub fn remove(input: &[u8], chunk_type: &str) -> (r: Result<Vec<u8>, PNGError>)
    ensures
        match r {
            Ok(out) => removed(input@, chunk_type@) == Ok::<Seq<u8>, PNGError>(out@),
            Err(e) => removed(input@, chunk_type@) == Err::<Seq<u8>, PNGError>(e),
        },
{
    let mut png = match Png::try_from(input) {
        Ok(p) => p,
        Err(e) => {
            return Err(e);
        },
    };
    match png.remove_chunk(chunk_type) {
        Ok(_) => Ok(png.as_bytes()),
        Err(e) => Err(e),
    }
}

/// What was hidden is found again: where `encode` succeeds with a type whose
/// third letter is a capital and a message of less than 4 GiB, its output
/// is a stream of the old chunks followed by the new one, and the new
/// chunk's payload decodes to the message.
pub proof fn lemma_encoded_reads_back(input: Seq<u8>, chunk_type: Seq<char>, message: Seq<char>)
    requires
        encoded(input, chunk_type, message) is Ok,
        is_upper(code_of_str(chunk_type)->Ok_0[2]),
        encode_utf8(message).len() <= u32::MAX,
    ensures
        parse_png(encoded(input, chunk_type, message)->Ok_0) == Ok::<Seq<ChunkView>, PNGError>(
            parse_png(input)->Ok_0.push(
                chunk_of(code_of_str(chunk_type)->Ok_0, encode_utf8(message)),
            ),
        ),
        has_type(chunk_of(code_of_str(chunk_type)->Ok_0, encode_utf8(message)), chunk_type),
        decode_utf8(encode_utf8(message)) == message,
{
    let chunks = parse_png(input)->Ok_0;
    let code = code_of_str(chunk_type)->Ok_0;
    let added = chunk_of(code, encode_utf8(message));
    lemma_write_parsed_png(input);
    assert(readable(added));
    assert forall|i: int| 0 <= i < chunks.push(added).len() implies readable(
        #[trigger] chunks.push(added)[i],
    ) by {
        if i < chunks.len() {
            assert(chunks.push(added)[i] == chunks[i]);
        }
    }
    lemma_parse_written_png(chunks.push(added));
    lemma_text_of_code(code, chunk_type);
    encode_utf8_decode_utf8(message);
}

/// Taking out what was put in gives the old stream, byte for byte: where the
/// stream had no chunk of the type before, `removed` undoes `encoded`.
pub proof fn lemma_removed_undoes_encoded(
    input: Seq<u8>,
    chunk_type: Seq<char>,
    message: Seq<char>,
)
    requires
        encoded(input, chunk_type, message) is Ok,
        is_upper(code_of_str(chunk_type)->Ok_0[2]),
        encode_utf8(message).len() <= u32::MAX,
        first_of_type(parse_png(input)->Ok_0, chunk_type) is None,
    ensures
        removed(encoded(input, chunk_type, message)->Ok_0, chunk_type) == Ok::<Seq<u8>, PNGError>(
            input,
        ),
{
    let chunks = parse_png(input)->Ok_0;
    let added = chunk_of(code_of_str(chunk_type)->Ok_0, encode_utf8(message));
    let n = chunks.len() as int;
    lemma_encoded_reads_back(input, chunk_type, message);
    lemma_first_of_type(chunks, chunk_type);
    assert(is_first_of_type(chunks.push(added), chunk_type, n)) by {
        assert forall|j: int| 0 <= j < n implies !has_type(
            #[trigger] chunks.push(added)[j],
            chunk_type,
        ) by {
            assert(chunks.push(added)[j] == chunks[j]);
        }
    }
    lemma_first_is_unique(chunks.push(added), chunk_type, n);
    assert(chunks.push(added).remove(n) =~= chunks);
    lemma_write_parsed_png(input);
}

} // verus!
