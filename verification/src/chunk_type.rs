//! The four-letter type code of a chunk.

use vstd::prelude::*;
use vstd::string::StrSliceExecFns;
use vstd::std_specs::cmp::PartialEqSpecImpl;
use vstd::std_specs::convert::TryFromSpecImpl;
use std::convert::TryFrom;
use std::str::FromStr;
use vstd::utf8::encode_utf8_decode_utf8;
use crate::error::ChunkTypeError;
use crate::text::{bytes_as_chars, lemma_ascii_decodes};

verus! {

/// An ASCII capital letter.
pub open spec fn is_upper(b: u8) -> bool {
    0x41 <= b <= 0x5a
}

/// An ASCII small letter.
pub open spec fn is_lower(b: u8) -> bool {
    0x61 <= b <= 0x7a
}

/// An ASCII letter of either case.
pub open spec fn is_letter(b: u8) -> bool {
    is_upper(b) || is_lower(b)
}

/// Four bytes, each an ASCII letter.
pub open spec fn four_letters(s: Seq<u8>) -> bool {
    &&& s.len() == 4
    &&& forall|i: int| 0 <= i < 4 ==> is_letter(#[trigger] s[i])
}

/// Four letters of which the third is a capital: a type code that the
/// current PNG standard admits.
pub open spec fn valid_code(s: Seq<u8>) -> bool {
    four_letters(s) && is_upper(s[2])
}

/// An ASCII letter of either case, as a character.
pub open spec fn is_letter_char(c: char) -> bool {
    ('A' <= c <= 'Z') || ('a' <= c <= 'z')
}

/// What four raw bytes give as a type code: the bytes themselves when they
/// are letters and the third is a capital.
pub open spec fn code_of_bytes(b: Seq<u8>) -> Result<Seq<u8>, ChunkTypeError> {
    if !four_letters(b) {
        Err(ChunkTypeError::InvalidByte)
    } else if !is_upper(b[2]) {
        Err(ChunkTypeError::ReservedBitInvalid)
    } else {
        Ok(b)
    }
}

/// What a string gives as a type code: its four characters as bytes when it
/// has exactly four and each is a letter. The case of the third letter is not
/// looked at here.
pub open spec fn code_of_str(s: Seq<char>) -> Result<Seq<u8>, ChunkTypeError> {
    if s.len() != 4 {
        Err(ChunkTypeError::WrongLength)
    } else if !(forall|i: int| 0 <= i < 4 ==> is_letter_char(#[trigger] s[i])) {
        Err(ChunkTypeError::InvalidByte)
    } else {
        Ok(Seq::new(4, |i: int| s[i] as u8))
    }
}

/// A chunk type: four ASCII letters. The case of each letter is a property
/// bit; nothing else is stored.
#[derive(Debug, Clone, Copy, Eq)]
pub struct ChunkType {
    bytes: [u8; 4],
}

impl View for ChunkType {
    type V = Seq<u8>;

    closed spec fn view(&self) -> Seq<u8> {
        self.bytes@
    }
}

impl ChunkType {
    /// Holds of every chunk type: its code is four letters.
    #[verifier::type_invariant]
    pub open spec fn letters(self) -> bool {
        four_letters(self@)
    }

    /// Tells whether `b` is an ASCII letter.
    pub fn is_valid_byte(b: u8) -> (r: bool)
        ensures
            r == is_letter(b),
    {
        (b >= 0x41 && b <= 0x5a) || (b >= 0x61 && b <= 0x7a)
    }

    /// The four bytes of the code.
    pub fn bytes(&self) -> (r: [u8; 4])
        ensures
            r@ == self@,
            four_letters(r@),
    {
        proof {
            use_type_invariant(self);
        }
        self.bytes
    }

    /// Critical (first letter a capital) or ancillary.
    pub fn is_critical(&self) -> (r: bool)
        ensures
            r == is_upper(self@[0]),
    {
        let b: u8 = self.bytes[0];
        b >= 0x41 && b <= 0x5a
    }

    /// Public (second letter a capital) or private.
    pub fn is_public(&self) -> (r: bool)
        ensures
            r == is_upper(self@[1]),
    {
        let b: u8 = self.bytes[1];
        b >= 0x41 && b <= 0x5a
    }

    /// Whether the third letter is a capital, as the standard now asks.
    pub fn is_reserved_bit_valid(&self) -> (r: bool)
        ensures
            r == is_upper(self@[2]),
    {
        let b: u8 = self.bytes[2];
        b >= 0x41 && b <= 0x5a
    }

    /// Safe to copy (fourth letter small) by an editor that does not know
    /// the chunk.
    pub fn is_safe_to_copy(&self) -> (r: bool)
        ensures
            r == is_lower(self@[3]),
    {
        let b: u8 = self.bytes[3];
        b >= 0x61 && b <= 0x7a
    }

    /// Whether the code is made of letters and the third is a capital.
    pub fn is_valid(&self) -> (r: bool)
        ensures
            r == valid_code(self@),
            r == is_upper(self@[2]),
    {
        proof {
            use_type_invariant(self);
        }
        ChunkType::is_valid_byte(self.bytes[0]) && ChunkType::is_valid_byte(self.bytes[1])
            && ChunkType::is_valid_byte(self.bytes[2]) && ChunkType::is_valid_byte(self.bytes[3])
            && self.is_reserved_bit_valid()
    }

    /// The code as a string of four letters.
    pub fn to_string(&self) -> (r: String)
        ensures
            r@ == bytes_as_chars(self@),
            r@.len() == 4,
    {
        proof {
            use_type_invariant(self);
            lemma_ascii_decodes(self.bytes@);
        }
        let s: &str = core::str::from_utf8(self.bytes.as_slice()).unwrap();
        proof {
            encode_utf8_decode_utf8(s@);
        }
        s.to_owned()
    }
}

/// What the four case bits say is read off bit five of each byte: on a
/// letter, that bit is clear exactly when the letter is a capital.
pub proof fn lemma_case_is_bit_five(b: u8)
    requires
        is_letter(b),
    ensures
        is_upper(b) <==> b & 0x20 == 0,
        is_lower(b) <==> b & 0x20 == 0x20,
{
    assert((0x41 <= b <= 0x5a) ==> b & 0x20 == 0) by (bit_vector);
    assert((0x61 <= b <= 0x7a) ==> b & 0x20 == 0x20) by (bit_vector);
}

/// Text and code determine each other: a code of four letters reads `t`
/// exactly when `t` gives that code. So the string of a chunk type gives
/// the chunk type back, and a chunk type made of a string has that string.
pub proof fn lemma_text_of_code(code: Seq<u8>, t: Seq<char>)
    requires
        four_letters(code),
    ensures
        bytes_as_chars(code) == t <==> code_of_str(t) == Ok::<Seq<u8>, ChunkTypeError>(code),
{
    if bytes_as_chars(code) == t {
        assert forall|i: int| 0 <= i < 4 implies is_letter_char(#[trigger] t[i]) by {
            assert(is_letter(code[i]));
        }
        assert(Seq::new(4, |i: int| t[i] as u8) =~= code);
    }
    if code_of_str(t) == Ok::<Seq<u8>, ChunkTypeError>(code) {
        assert forall|i: int| 0 <= i < 4 implies bytes_as_chars(code)[i] == t[i] by {
            assert(is_letter_char(t[i]));
            assert(code[i] == t[i] as u8);
        }
        assert(bytes_as_chars(code) =~= t);
    }
}

impl PartialEq for ChunkType {
    /// Two chunk types are equal when their four bytes are.
    fn eq(&self, other: &ChunkType) -> (r: bool) {
        let r = self.bytes[0] == other.bytes[0] && self.bytes[1] == other.bytes[1]
            && self.bytes[2] == other.bytes[2] && self.bytes[3] == other.bytes[3];
        assert(r == (self@ =~= other@));
        r
    }
}

impl PartialEqSpecImpl for ChunkType {
    open spec fn obeys_eq_spec() -> bool {
        true
    }

    open spec fn eq_spec(&self, other: &ChunkType) -> bool {
        self@ == other@
    }
}

impl TryFrom<[u8; 4]> for ChunkType {
    type Error = ChunkTypeError;

    /// Makes a chunk type of four bytes, or says which rule they break.
    fn try_from(bytes: [u8; 4]) -> (r: Result<ChunkType, ChunkTypeError>)
        ensures
            match r {
                Ok(c) => code_of_bytes(bytes@) == Ok::<Seq<u8>, ChunkTypeError>(c@),
                Err(e) => code_of_bytes(bytes@) == Err::<Seq<u8>, ChunkTypeError>(e),
            },
    {
        let mut i: usize = 0;
        while i < 4
            invariant
                i <= 4,
                forall|j: int| 0 <= j < i ==> is_letter(#[trigger] bytes@[j]),
            decreases 4 - i,
        {
            if !ChunkType::is_valid_byte(bytes[i]) {
                return Err(ChunkTypeError::InvalidByte);
            }
            i += 1;
        }
        let b: u8 = bytes[2];
        if b >= 0x41 && b <= 0x5a {
            Ok(ChunkType { bytes })
        } else {
            Err(ChunkTypeError::ReservedBitInvalid)
        }
    }
}

impl TryFromSpecImpl<[u8; 4]> for ChunkType {
    open spec fn obeys_try_from_spec() -> bool {
        true
    }

    closed spec fn try_from_spec(bytes: [u8; 4]) -> Result<ChunkType, ChunkTypeError> {
        match code_of_bytes(bytes@) {
            Ok(_) => Ok(ChunkType { bytes }),
            Err(e) => Err(e),
        }
    }
}

impl FromStr for ChunkType {
    type Err = ChunkTypeError;

    /// Makes a chunk type of a four-letter string, or says which rule the
    /// string breaks.
    fn from_str(s: &str) -> (r: Result<ChunkType, ChunkTypeError>)
        ensures
            match r {
                Ok(c) => code_of_str(s@) == Ok::<Seq<u8>, ChunkTypeError>(c@),
                Err(e) => code_of_str(s@) == Err::<Seq<u8>, ChunkTypeError>(e),
            },
    {
        if s.unicode_len() != 4 {
            return Err(ChunkTypeError::WrongLength);
        }
        let mut bytes: [u8; 4] = [0u8; 4];
        let mut i: usize = 0;
        while i < 4
            invariant
                i <= 4,
                s@.len() == 4,
                forall|j: int| 0 <= j < i ==> is_letter_char(#[trigger] s@[j]),
                forall|j: int| 0 <= j < i ==> bytes@[j] == s@[j] as u8,
            decreases 4 - i,
        {
            let c: char = s.get_char(i);
            if !((c >= 'A' && c <= 'Z') || (c >= 'a' && c <= 'z')) {
                return Err(ChunkTypeError::InvalidByte);
            }
            bytes[i] = c as u8;
            i += 1;
        }
        assert(bytes@ =~= Seq::new(4, |i: int| s@[i] as u8));
        Ok(ChunkType { bytes })
    }
}

} // verus!
