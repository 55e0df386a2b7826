//! A whole PNG stream: the signature and the chunks after it, in order.

use vstd::prelude::*;
use vstd::slice::slice_subrange;
use std::convert::TryFrom;
use std::str::FromStr;
use crate::chunk::{
    chunk_wire, lemma_parse_written_chunk, lemma_parsed_chunk, parse_chunk, readable,
    well_formed, Chunk, ChunkView,
};
use crate::chunk_type::{code_of_str, lemma_text_of_code, ChunkType};
use crate::error::{ChunkError, ChunkTypeError, PNGError};
use crate::text::bytes_as_chars;
use crate::wire::extend_with;

verus! {

/// The eight bytes that every PNG stream starts with.
pub const STANDARD_HEADER: [u8; 8] = [137, 80, 78, 71, 13, 10, 26, 10];

/// The signature, as a sequence.
pub open spec fn signature() -> Seq<u8> {
    seq![137u8, 80u8, 78u8, 71u8, 13u8, 10u8, 26u8, 10u8]
}

/// The chunks on the wire, one after the other.
pub open spec fn chunks_wire(chunks: Seq<ChunkView>) -> Seq<u8>
    decreases chunks.len(),
{
    if chunks.len() == 0 {
        Seq::empty()
    } else {
        chunk_wire(chunks[0]) + chunks_wire(chunks.drop_first())
    }
}

/// A stream on the wire: the signature, then the chunks.
pub open spec fn png_wire(chunks: Seq<ChunkView>) -> Seq<u8> {
    signature() + chunks_wire(chunks)
}

/// The chunks that fill `b` from its first byte to its last, or the failure
/// of the first chunk that does not parse.
pub open spec fn parse_chunks(b: Seq<u8>) -> Result<Seq<ChunkView>, ChunkError>
    decreases b.len(),
    via parse_chunks_ends
{
    if b.len() == 0 {
        Ok(Seq::empty())
    } else {
        match parse_chunk(b) {
            Err(e) => Err(e),
            Ok(c) => match parse_chunks(b.skip(12 + c.length)) {
                Err(e) => Err(e),
                Ok(rest) => Ok(seq![c] + rest),
            },
        }
    }
}

/// Each chunk that parses takes up twelve bytes at least, so the bytes after
/// it are fewer.
#[via_fn]
proof fn parse_chunks_ends(b: Seq<u8>) {
    if parse_chunk(b) is Ok {
        lemma_parsed_chunk(b);
    }
}

/// The chunks of the stream `b`, or why it is none: too short for the
/// signature, another start than the signature, or a chunk that fails.
pub open spec fn parse_png(b: Seq<u8>) -> Result<Seq<ChunkView>, PNGError> {
    if b.len() < 8 {
        Err(PNGError::TooSmall)
    } else if b.subrange(0, 8) != signature() {
        Err(PNGError::InvalidSignature)
    } else {
        match parse_chunks(b.skip(8)) {
            Err(e) => Err(PNGError::Chunk(e)),
            Ok(chunks) => Ok(chunks),
        }
    }
}

/// Whether the type code of `c`, read as text, is `t`.
pub open spec fn has_type(c: ChunkView, t: Seq<char>) -> bool {
    bytes_as_chars(c.chunk_type) == t
}

/// Whether `i` is the place of the first chunk of type `t`.
pub open spec fn is_first_of_type(chunks: Seq<ChunkView>, t: Seq<char>, i: int) -> bool {
    &&& 0 <= i < chunks.len()
    &&& has_type(chunks[i], t)
    &&& forall|j: int| 0 <= j < i ==> !has_type(#[trigger] chunks[j], t)
}

/// The place of the first chunk of type `t`, if there is one.
pub open spec fn first_of_type(chunks: Seq<ChunkView>, t: Seq<char>) -> Option<int> {
    if exists|i: int| is_first_of_type(chunks, t, i) {
        Some(choose|i: int| is_first_of_type(chunks, t, i))
    } else {
        None
    }
}

/// A PNG stream in memory: its chunks, in the order of the bytes. The
/// signature is the same for every stream and is not stored.
#[derive(Debug)]
pub struct Png {
    chunks: Vec<Chunk>,
}

impl View for Png {
    type V = Seq<ChunkView>;

    closed spec fn view(&self) -> Seq<ChunkView> {
        self.chunks@.map_values(|c: Chunk| c@)
    }
}

/// What `parse_chunks` gives for a buffer whose first chunks are already
/// read as `done`, when the bytes after them give `rest`.
spec fn after(done: Seq<ChunkView>, rest: Result<Seq<ChunkView>, ChunkError>) -> Result<
    Seq<ChunkView>,
    ChunkError,
> {
    match rest {
        Ok(more) => Ok(done + more),
        Err(e) => Err(e),
    }
}

impl Png {
    #[verifier::type_invariant]
    spec fn inv(self) -> bool {
        forall|j: int| 0 <= j < self.chunks@.len() ==> well_formed(#[trigger] self.chunks@[j]@)
    }

    /// The signature.
    pub fn header(&self) -> (r: &[u8; 8])
        ensures
            r@ == signature(),
    {
        assert(STANDARD_HEADER@ =~= signature());
        &STANDARD_HEADER
    }

    /// The chunks, in order.
    pub fn chunks(&self) -> (r: &[Chunk])
        ensures
            r@.len() == self@.len(),
            forall|i: int| 0 <= i < r@.len() ==> (#[trigger] r@[i])@ == self@[i],
            forall|i: int| 0 <= i < self@.len() ==> well_formed(#[trigger] self@[i]),
    {
        proof {
            use_type_invariant(self);
        }
        self.chunks.as_slice()
    }

    /// Puts `chunk` after the last chunk. Nothing is checked: a type that
    /// is already present may come again, and an end marker stays where it
    /// is.
    pub fn append_chunk(&mut self, chunk: Chunk)
        ensures
            final(self)@ == old(self)@.push(chunk@),
    {
        proof {
            use_type_invariant(&*self);
            use_type_invariant(&chunk);
        }
        // The vector is taken out while it changes, and put back whole.
        let mut chunks: Vec<Chunk> = Vec::new();
        core::mem::swap(&mut self.chunks, &mut chunks);
        chunks.push(chunk);
        core::mem::swap(&mut self.chunks, &mut chunks);
        assert(self@ =~= old(self)@.push(chunk@));
    }

    /// The place of the first chunk whose type reads `chunk_type`.
    fn position(&self, chunk_type: &str) -> (r: Option<usize>)
        ensures
            match r {
                Some(i) => first_of_type(self@, chunk_type@) == Some(i as int),
                None => first_of_type(self@, chunk_type@) is None,
            },
    {
        let wanted = match ChunkType::from_str(chunk_type) {
            Ok(t) => t,
            Err(_) => {
                proof {
                    use_type_invariant(self);
                    assert forall|j: int| 0 <= j < self@.len() implies !has_type(
                        #[trigger] self@[j],
                        chunk_type@,
                    ) by {
                        lemma_text_of_code(self@[j].chunk_type, chunk_type@);
                    }
                }
                return None;
            },
        };
        proof {
            use_type_invariant(self);
        }
        let mut i: usize = 0;
        while i < self.chunks.len()
            invariant
                i <= self.chunks@.len(),
                code_of_str(chunk_type@) == Ok::<Seq<u8>, ChunkTypeError>(wanted@),
                forall|j: int| 0 <= j < self@.len() ==> well_formed(#[trigger] self@[j]),
                forall|j: int| 0 <= j < i ==> !has_type(#[trigger] self@[j], chunk_type@),
            decreases self.chunks@.len() - i,
        {
            let found: &ChunkType = self.chunks[i].chunk_type();
            proof {
                lemma_text_of_code(self@[i as int].chunk_type, chunk_type@);
            }
            if *found == wanted {
                proof {
                    assert(is_first_of_type(self@, chunk_type@, i as int));
                    lemma_first_is_unique(self@, chunk_type@, i as int);
                }
                return Some(i);
            }
            i += 1;
        }
        None
    }

    /// The first chunk, in the order of the stream, whose type reads
    /// `chunk_type`; `None` where no chunk has that type.
    pub fn chunk_by_type(&self, chunk_type: &str) -> (r: Option<&Chunk>)
        ensures
            match r {
                Some(c) => first_of_type(self@, chunk_type@) matches Some(i) && c@ == self@[i],
                None => first_of_type(self@, chunk_type@) is None,
            },
    {
        match self.position(chunk_type) {
            Some(i) => Some(&self.chunks[i]),
            None => None,
        }
    }

    /// Takes out the first chunk whose type reads `chunk_type` and returns
    /// it; the others keep their order. Where no chunk has that type, the
    /// stream stays as it is.
    pub fn remove_chunk(&mut self, chunk_type: &str) -> (r: Result<Chunk, PNGError>)
        ensures
            match r {
                Ok(c) => first_of_type(old(self)@, chunk_type@) matches Some(i) && c@ == old(
                    self,
                )@[i] && final(self)@ == old(self)@.remove(i),
                Err(e) => first_of_type(old(self)@, chunk_type@) is None && e
                    == PNGError::ChunkNotFound && final(self)@ == old(self)@,
            },
    {
        match self.position(chunk_type) {
            Some(i) => {
                proof {
                    use_type_invariant(&*self);
                }
                let mut chunks: Vec<Chunk> = Vec::new();
                core::mem::swap(&mut self.chunks, &mut chunks);
                let c = chunks.remove(i);
                core::mem::swap(&mut self.chunks, &mut chunks);
                assert(self@ =~= old(self)@.remove(i as int));
                Ok(c)
            },
            None => Err(PNGError::ChunkNotFound),
        }
    }

    /// The stream on the wire: the signature, then each chunk's bytes in
    /// order.
    pub fn as_bytes(&self) -> (out: Vec<u8>)
        ensures
            out@ == png_wire(self@),
    {
        let mut out: Vec<u8> = Vec::new();
        extend_with(&mut out, STANDARD_HEADER.as_slice());
        assert(out@ =~= signature());
        let mut i: usize = 0;
        while i < self.chunks.len()
            invariant
                i <= self.chunks@.len(),
                out@ == signature() + chunks_wire(self@.subrange(0, i as int)),
            decreases self.chunks@.len() - i,
        {
            let bytes = self.chunks[i].as_bytes();
            extend_with(&mut out, bytes.as_slice());
            proof {
                let done = self@.subrange(0, i as int);
                lemma_chunks_wire_concat(done, seq![self@[i as int]]);
                assert(chunks_wire(seq![self@[i as int]]) =~= chunk_wire(self@[i as int])) by {
                    assert(seq![self@[i as int]].drop_first() =~= Seq::<ChunkView>::empty());
                    assert(chunks_wire(Seq::<ChunkView>::empty()) =~= Seq::<u8>::empty());
                }
                assert(done + seq![self@[i as int]] =~= self@.subrange(0, i + 1));
                assert(out@ =~= signature() + chunks_wire(self@.subrange(0, i + 1)));
            }
            i += 1;
        }
        assert(self@.subrange(0, i as int) =~= self@);
        out
    }
}

impl TryFrom<&[u8]> for Png {
    type Error = PNGError;

    /// Reads a stream: the signature, then chunk after chunk up to the last
    /// byte. The first chunk that fails ends the reading with its failure.
    fn try_from(bytes: &[u8]) -> (r: Result<Png, PNGError>)
        ensures
            match r {
                Ok(p) => parse_png(bytes@) == Ok::<Seq<ChunkView>, PNGError>(p@),
                Err(e) => parse_png(bytes@) == Err::<Seq<ChunkView>, PNGError>(e),
            },
    {
        if bytes.len() < 8 {
            return Err(PNGError::TooSmall);
        }
        let mut i: usize = 0;
        while i < 8
            invariant
                i <= 8,
                bytes@.len() >= 8,
                forall|j: int| 0 <= j < i ==> bytes@[j] == signature()[j],
            decreases 8 - i,
        {
            if bytes[i] != STANDARD_HEADER[i] {
                assert(bytes@.subrange(0, 8)[i as int] != signature()[i as int]);
                return Err(PNGError::InvalidSignature);
            }
            i += 1;
        }
        assert(bytes@.subrange(0, 8) =~= signature());
        let mut chunks: Vec<Chunk> = Vec::new();
        let mut rest: &[u8] = slice_subrange(bytes, 8, bytes.len());
        assert(rest@ =~= bytes@.skip(8));
        while rest.len() > 0
            invariant
                bytes@.len() >= 8,
                bytes@.subrange(0, 8) == signature(),
                forall|j: int| 0 <= j < chunks@.len() ==> well_formed(#[trigger] chunks@[j]@),
                parse_chunks(bytes@.skip(8)) == after(
                    chunks@.map_values(|c: Chunk| c@),
                    parse_chunks(rest@),
                ),
            decreases rest@.len(),
        {
            let ghost done = chunks@.map_values(|c: Chunk| c@);
            match Chunk::try_from(rest) {
                Err(e) => {
                    assert(parse_chunks(rest@) == Err::<Seq<ChunkView>, ChunkError>(e));
                    return Err(PNGError::Chunk(e));
                },
                Ok(c) => {
                    proof {
                        lemma_parsed_chunk(rest@);
                    }
                    let used: usize = 12 + c.length() as usize;
                    let ghost before = rest@;
                    rest = slice_subrange(rest, used, rest.len());
                    chunks.push(c);
                    proof {
                        assert(rest@ =~= before.skip(used as int));
                        assert(chunks@.map_values(|c: Chunk| c@) =~= done.push(c@));
                        match parse_chunks(rest@) {
                            Ok(more) => {
                                assert(done + (seq![c@] + more) =~= done.push(c@) + more);
                            },
                            Err(_) => {},
                        }
                    }
                },
            }
        }
        let png = Png { chunks };
        proof {
            assert(png@ + Seq::<ChunkView>::empty() =~= png@);
        }
        Ok(png)
    }
}

/// As for a chunk: the contract that counts is the `ensures` of `try_from`,
/// over views; `std`'s, over equal values, is left unclaimed.
impl vstd::std_specs::convert::TryFromSpecImpl<&[u8]> for Png {
    open spec fn obeys_try_from_spec() -> bool {
        false
    }

    open spec fn try_from_spec(bytes: &[u8]) -> Result<Png, PNGError> {
        arbitrary()
    }
}

/// There is one first chunk of a type at most, and `first_of_type` names it.
pub proof fn lemma_first_is_unique(chunks: Seq<ChunkView>, t: Seq<char>, i: int)
    requires
        is_first_of_type(chunks, t, i),
    ensures
        first_of_type(chunks, t) == Some(i),
{
    let k = choose|k: int| is_first_of_type(chunks, t, k);
    if k < i {
        assert(!has_type(chunks[k], t));
    } else if i < k {
        assert(!has_type(chunks[i], t));
    }
}

/// Where some chunk has the type, one of them comes first.
pub proof fn lemma_some_is_first(chunks: Seq<ChunkView>, t: Seq<char>, j: int)
    requires
        0 <= j < chunks.len(),
        has_type(chunks[j], t),
    ensures
        first_of_type(chunks, t) is Some,
        first_of_type(chunks, t)->Some_0 <= j,
    decreases j,
{
    if forall|m: int| 0 <= m < j ==> !has_type(#[trigger] chunks[m], t) {
        assert(is_first_of_type(chunks, t, j));
        lemma_first_is_unique(chunks, t, j);
    } else {
        let m = choose|m: int| 0 <= m < j && has_type(#[trigger] chunks[m], t);
        lemma_some_is_first(chunks, t, m);
    }
}

/// First match: what `first_of_type` names has the type and nothing before
/// it has; where it names nothing, no chunk has the type.
pub proof fn lemma_first_of_type(chunks: Seq<ChunkView>, t: Seq<char>)
    ensures
        match first_of_type(chunks, t) {
            Some(i) => is_first_of_type(chunks, t, i),
            None => forall|j: int| 0 <= j < chunks.len() ==> !has_type(#[trigger] chunks[j], t),
        },
{
    if first_of_type(chunks, t) is None {
        assert forall|j: int| 0 <= j < chunks.len() implies !has_type(#[trigger] chunks[j], t) by {
            if has_type(chunks[j], t) {
                lemma_some_is_first(chunks, t, j);
            }
        }
    }
}

/// Writing two runs of chunks one after the other is writing them as one
/// run.
pub proof fn lemma_chunks_wire_concat(a: Seq<ChunkView>, b: Seq<ChunkView>)
    ensures
        chunks_wire(a + b) == chunks_wire(a) + chunks_wire(b),
    decreases a.len(),
{
    if a.len() == 0 {
        assert(a + b =~= b);
        assert(chunks_wire(a) + chunks_wire(b) =~= chunks_wire(b));
    } else {
        assert((a + b).drop_first() =~= a.drop_first() + b);
        lemma_chunks_wire_concat(a.drop_first(), b);
        assert(chunks_wire(a + b) =~= chunks_wire(a) + chunks_wire(b));
    }
}

/// Reading what was written gives the chunks back, in order: a run of
/// readable chunks, written out, parses to that run.
pub proof fn lemma_parse_written_chunks(chunks: Seq<ChunkView>)
    requires
        forall|i: int| 0 <= i < chunks.len() ==> readable(#[trigger] chunks[i]),
    ensures
        parse_chunks(chunks_wire(chunks)) == Ok::<Seq<ChunkView>, ChunkError>(chunks),
    decreases chunks.len(),
{
    if chunks.len() == 0 {
        assert(chunks =~= Seq::empty());
    } else {
        let first = chunks[0];
        let others = chunks.drop_first();
        let b = chunks_wire(chunks);
        assert(readable(first));
        lemma_parse_written_chunk(first, chunks_wire(others));
        assert(b.skip(12 + first.length) =~= chunks_wire(others));
        assert forall|i: int| 0 <= i < others.len() implies readable(#[trigger] others[i]) by {
            assert(others[i] == chunks[i + 1]);
        }
        lemma_parse_written_chunks(others);
        assert(seq![first] + others =~= chunks);
    }
}

/// Reading what was written gives the stream back: the signature is found
/// and the chunks are the same, in the same order.
pub proof fn lemma_parse_written_png(chunks: Seq<ChunkView>)
    requires
        forall|i: int| 0 <= i < chunks.len() ==> readable(#[trigger] chunks[i]),
    ensures
        png_wire(chunks).subrange(0, 8) == signature(),
        parse_png(png_wire(chunks)) == Ok::<Seq<ChunkView>, PNGError>(chunks),
{
    let b = png_wire(chunks);
    assert(b.subrange(0, 8) =~= signature());
    assert(b.skip(8) =~= chunks_wire(chunks));
    lemma_parse_written_chunks(chunks);
}

/// One step of `parse_chunks` on a buffer that parses: the first chunk, and
/// the chunks of the bytes after it.
proof fn lemma_parse_chunks_step(b: Seq<u8>)
    requires
        b.len() > 0,
        parse_chunks(b) is Ok,
    ensures
        parse_chunk(b) is Ok,
        12 + parse_chunk(b)->Ok_0.data.len() <= b.len(),
        parse_chunks(b.skip(12 + parse_chunk(b)->Ok_0.data.len() as int)) is Ok,
        parse_chunks(b)->Ok_0 == seq![parse_chunk(b)->Ok_0] + parse_chunks(
            b.skip(12 + parse_chunk(b)->Ok_0.data.len() as int),
        )->Ok_0,
{
    lemma_parsed_chunk(b);
}

/// Writing what was read gives the bytes back: the chunks that fill a
/// buffer, written out, are that buffer.
pub proof fn lemma_write_parsed_chunks(b: Seq<u8>)
    requires
        parse_chunks(b) is Ok,
    ensures
        chunks_wire(parse_chunks(b)->Ok_0) == b,
    decreases b.len(),
{
    let chunks = parse_chunks(b)->Ok_0;
    if b.len() == 0 {
        assert(chunks_wire(chunks) =~= b);
    } else {
        lemma_parse_chunks_step(b);
        lemma_parsed_chunk(b);
        let first = parse_chunk(b)->Ok_0;
        let n = 12 + first.data.len() as int;
        let others = parse_chunks(b.skip(n))->Ok_0;
        lemma_write_parsed_chunks(b.skip(n));
        lemma_chunk_then_chunks(b, first, others, n);
    }
}

/// A buffer that starts with the bytes of `first` and goes on with the bytes
/// of `others` is the bytes of `first` followed by `others`.
proof fn lemma_chunk_then_chunks(b: Seq<u8>, first: ChunkView, others: Seq<ChunkView>, n: int)
    requires
        0 <= n <= b.len(),
        chunk_wire(first) == b.subrange(0, n),
        chunks_wire(others) == b.skip(n),
    ensures
        chunks_wire(seq![first] + others) == b,
{
    let chunks = seq![first] + others;
    assert(chunks[0] == first);
    assert(chunks.drop_first() =~= others);
    assert(b =~= b.subrange(0, n) + b.skip(n));
}

/// Every chunk that was read is readable: well formed, of a valid type, and
/// of a payload that fits its length field.
pub proof fn lemma_parsed_chunks_readable(b: Seq<u8>)
    requires
        parse_chunks(b) is Ok,
    ensures
        forall|i: int|
            0 <= i < parse_chunks(b)->Ok_0.len() ==> readable(#[trigger] parse_chunks(b)->Ok_0[i]),
    decreases b.len(),
{
    let chunks = parse_chunks(b)->Ok_0;
    if b.len() > 0 {
        lemma_parse_chunks_step(b);
        lemma_parsed_chunk(b);
        let first = parse_chunk(b)->Ok_0;
        let n = 12 + first.data.len() as int;
        let others = parse_chunks(b.skip(n))->Ok_0;
        lemma_parsed_chunks_readable(b.skip(n));
        assert forall|i: int| 0 <= i < chunks.len() implies readable(#[trigger] chunks[i]) by {
            if i > 0 {
                assert(chunks[i] == others[i - 1]);
            }
        }
    }
}

/// A buffer that starts with the signature and goes on with the bytes of
/// `chunks` is the stream of `chunks`.
proof fn lemma_signature_then_chunks(b: Seq<u8>, chunks: Seq<ChunkView>)
    requires
        b.len() >= 8,
        b.subrange(0, 8) == signature(),
        chunks_wire(chunks) == b.skip(8),
    ensures
        png_wire(chunks) == b,
{
    assert(b =~= b.subrange(0, 8) + b.skip(8));
}

/// Writing what was read gives the stream back, byte for byte.
pub proof fn lemma_write_parsed_png(b: Seq<u8>)
    requires
        parse_png(b) is Ok,
    ensures
        forall|i: int|
            0 <= i < parse_png(b)->Ok_0.len() ==> readable(#[trigger] parse_png(b)->Ok_0[i]),
        png_wire(parse_png(b)->Ok_0) == b,
{
    lemma_signature_required(b);
    lemma_write_parsed_chunks(b.skip(8));
    lemma_parsed_chunks_readable(b.skip(8));
    lemma_signature_then_chunks(b, parse_png(b)->Ok_0);
}

/// Nothing is a stream without the signature: fewer than eight bytes are
/// too small, and eight bytes or more with another start fail on the
/// signature.
pub proof fn lemma_signature_required(b: Seq<u8>)
    ensures
        b.len() < 8 ==> parse_png(b) == Err::<Seq<ChunkView>, PNGError>(PNGError::TooSmall),
        b.len() >= 8 && b.subrange(0, 8) != signature() ==> parse_png(b) == Err::<
            Seq<ChunkView>,
            PNGError,
        >(PNGError::InvalidSignature),
        parse_png(b) is Ok ==> b.len() >= 8 && b.subrange(0, 8) == signature() && parse_chunks(
            b.skip(8),
        ) == Ok::<Seq<ChunkView>, ChunkError>(parse_png(b)->Ok_0),
{
}

} // verus!
