use pngme::chunk::ChunkError;
use pngme::commands::{encode, remove, EncodeError};
use pngme::error::{ChunkTypeError, PNGError};
use pngme::png::Png;
use std::convert::TryFrom;

const PICTURE: [u8; 67] = [
    137, 80, 78, 71, 13, 10, 26, 10, 0, 0, 0, 13, 73, 72, 68, 82, 0, 0, 0, 1, 0, 0, 0, 1, 8, 6, 0,
    0, 0, 31, 21, 196, 137, 0, 0, 0, 10, 73, 68, 65, 84, 120, 156, 99, 0, 1, 0, 0, 5, 0, 1, 13,
    10, 45, 180, 0, 0, 0, 0, 73, 69, 78, 68, 174, 66, 96, 130,
];

#[test]
fn test_encode_appends_the_message() {
    let out = encode(&PICTURE, "ruSt", "hello").unwrap();
    assert_eq!(&out[..67], &PICTURE[..]);
    // length 5, "ruSt", "hello", and the checksum of "ruSthello"
    let mut tail = vec![0, 0, 0, 5];
    tail.extend_from_slice(b"ruSthello");
    tail.extend_from_slice(&2924514671u32.to_be_bytes());
    assert_eq!(&out[67..], &tail[..]);
    let png = Png::try_from(out.as_ref()).unwrap();
    assert_eq!(png.chunks().len(), 4);
    assert_eq!(png.chunk_by_type("ruSt").unwrap().data_as_string().unwrap(), "hello");
}

#[test]
fn test_encode_message_is_utf8() {
    let text = "gr\u{fc}\u{df}e, \u{4e16}\u{754c}";
    let out = encode(&PICTURE, "ruSt", text).unwrap();
    let png = Png::try_from(out.as_ref()).unwrap();
    let chunk = png.chunk_by_type("ruSt").unwrap();
    assert_eq!(chunk.data(), &text.as_bytes().to_vec());
    assert_eq!(chunk.length() as usize, text.len());
    assert_eq!(chunk.data_as_string().unwrap(), text);
}

#[test]
fn test_encode_errors() {
    assert_eq!(encode(&PICTURE[..5], "ruSt", "hello"), Err(EncodeError::Png(PNGError::TooSmall)));
    assert_eq!(
        encode(&PICTURE[1..], "ruSt", "hello"),
        Err(EncodeError::Png(PNGError::InvalidSignature))
    );
    assert_eq!(
        encode(&PICTURE[..66], "ruSt", "hello"),
        Err(EncodeError::Png(PNGError::Chunk(ChunkError::InputTooSmall)))
    );
    assert_eq!(
        encode(&PICTURE, "ruS", "hello"),
        Err(EncodeError::ChunkType(ChunkTypeError::WrongLength))
    );
    assert_eq!(
        encode(&PICTURE, "ru5t", "hello"),
        Err(EncodeError::ChunkType(ChunkTypeError::InvalidByte))
    );
    // the stream is read before the type is looked at
    assert_eq!(encode(&PICTURE[..5], "ru5t", "hello"), Err(EncodeError::Png(PNGError::TooSmall)));
}

#[test]
fn test_remove_undoes_encode() {
    let out = encode(&PICTURE, "ruSt", "hello").unwrap();
    assert_eq!(remove(&out, "ruSt").unwrap(), PICTURE.to_vec());
}

#[test]
fn test_remove_takes_the_first_of_two() {
    let one = encode(&PICTURE, "ruSt", "a").unwrap();
    let two = encode(&one, "ruSt", "b").unwrap();
    let left = remove(&two, "ruSt").unwrap();
    assert_eq!(left, encode(&PICTURE, "ruSt", "b").unwrap());
    assert_eq!(remove(&left, "ruSt").unwrap(), PICTURE.to_vec());
}

#[test]
fn test_remove_errors() {
    assert_eq!(remove(&PICTURE, "ruSt"), Err(PNGError::ChunkNotFound));
    assert_eq!(remove(&PICTURE, "no type"), Err(PNGError::ChunkNotFound));
    assert_eq!(remove(&PICTURE[..7], "IDAT"), Err(PNGError::TooSmall));
    assert_eq!(
        remove(&PICTURE[..60], "IDAT"),
        Err(PNGError::Chunk(ChunkError::InputTooSmall))
    );
}

#[test]
fn test_remove_a_chunk_of_the_picture() {
    let out = remove(&PICTURE, "IDAT").unwrap();
    let mut expected = PICTURE[..33].to_vec();
    expected.extend_from_slice(&PICTURE[55..]);
    assert_eq!(out, expected);
}
