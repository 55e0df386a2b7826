use pngme::chunk::{calculate_crc, Chunk, ChunkError};
use pngme::chunk_type::ChunkType;
use pngme::error::ChunkTypeError;
use std::convert::TryFrom;
use std::str::FromStr;

fn testing_chunk() -> Chunk {
    let data_length: u32 = 42;
    let chunk_type = "RuSt".as_bytes();
    let message_bytes = "This is where your secret message will be!".as_bytes();
    let crc: u32 = 2882656334;

    let chunk_data: Vec<u8> = data_length
        .to_be_bytes()
        .iter()
        .chain(chunk_type.iter())
        .chain(message_bytes.iter())
        .chain(crc.to_be_bytes().iter())
        .copied()
        .collect();

    Chunk::try_from(chunk_data.as_ref()).unwrap()
}

fn wire(length: u32, chunk_type: &[u8], data: &[u8], crc: u32) -> Vec<u8> {
    length
        .to_be_bytes()
        .iter()
        .chain(chunk_type.iter())
        .chain(data.iter())
        .chain(crc.to_be_bytes().iter())
        .copied()
        .collect()
}

#[test]
fn test_new_chunk() {
    let chunk_type = ChunkType::from_str("RuSt").unwrap();
    let data = "This is where your secret message will be!".as_bytes().to_vec();
    let chunk = Chunk::new(chunk_type, data);
    assert_eq!(chunk.length(), 42);
    assert_eq!(chunk.crc(), 2882656334);
}

#[test]
fn test_chunk_length() {
    let chunk = testing_chunk();
    assert_eq!(chunk.length(), 42);
}

#[test]
fn test_chunk_type() {
    let chunk = testing_chunk();
    assert_eq!(chunk.chunk_type().to_string(), String::from("RuSt"));
}

#[test]
fn test_chunk_string() {
    let chunk = testing_chunk();
    let chunk_string = chunk.data_as_string().unwrap();
    let expected_chunk_string = String::from("This is where your secret message will be!");
    assert_eq!(chunk_string, expected_chunk_string);
}

#[test]
fn test_chunk_crc() {
    let chunk = testing_chunk();
    assert_eq!(chunk.crc(), 2882656334);
}

#[test]
fn test_valid_chunk_from_bytes() {
    let data_length: u32 = 42;
    let chunk_type = "RuSt".as_bytes();
    let message_bytes = "This is where your secret message will be!".as_bytes();
    let crc: u32 = 2882656334;

    let chunk_data: Vec<u8> = data_length
        .to_be_bytes()
        .iter()
        .chain(chunk_type.iter())
        .chain(message_bytes.iter())
        .chain(crc.to_be_bytes().iter())
        .copied()
        .collect();

    let chunk = Chunk::try_from(chunk_data.as_ref()).unwrap();

    let chunk_string = chunk.data_as_string().unwrap();
    let expected_chunk_string = String::from("This is where your secret message will be!");

    assert_eq!(chunk.length(), 42);
    assert_eq!(chunk.chunk_type().to_string(), String::from("RuSt"));
    assert_eq!(chunk_string, expected_chunk_string);
    assert_eq!(chunk.crc(), 2882656334);
}

#[test]
fn test_invalid_chunk_from_bytes() {
    let data_length: u32 = 42;
    let chunk_type = "RuSt".as_bytes();
    let message_bytes = "This is where your secret message will be!".as_bytes();
    let crc: u32 = 2882656333;

    let chunk_data: Vec<u8> = data_length
        .to_be_bytes()
        .iter()
        .chain(chunk_type.iter())
        .chain(message_bytes.iter())
        .chain(crc.to_be_bytes().iter())
        .copied()
        .collect();

    let chunk = Chunk::try_from(chunk_data.as_ref());

    assert!(chunk.is_err());
}

#[test]
fn test_chunk_trait_impls() {
    let data_length: u32 = 42;
    let chunk_type = "RuSt".as_bytes();
    let message_bytes = "This is where your secret message will be!".as_bytes();
    let crc: u32 = 2882656334;

    let chunk_data: Vec<u8> = data_length
        .to_be_bytes()
        .iter()
        .chain(chunk_type.iter())
        .chain(message_bytes.iter())
        .chain(crc.to_be_bytes().iter())
        .copied()
        .collect();

    let chunk: Chunk = TryFrom::try_from(chunk_data.as_ref()).unwrap();

    let _chunk_string = format!("{}", chunk.to_string());
}

#[test]
fn test_crc_check_values() {
    // the check value of CRC-32/ISO-HDLC
    assert_eq!(calculate_crc(&b"123456789".to_vec()), 0xcbf43926);
    assert_eq!(calculate_crc(&Vec::new()), 0);
    // the end marker of every PNG file
    assert_eq!(calculate_crc(&b"IEND".to_vec()), 0xae426082);
}

#[test]
fn test_crc_mismatch_carries_both_values() {
    let message = "This is where your secret message will be!".as_bytes();
    let bytes = wire(42, b"RuSt", message, 2882656333);
    match Chunk::try_from(bytes.as_ref()) {
        Err(e) => assert_eq!(e, ChunkError::CrcMismatch(2882656333, 2882656334)),
        Ok(_) => panic!("a wrong checksum was accepted"),
    }
}

#[test]
fn test_as_bytes_layout() {
    let chunk = Chunk::new(ChunkType::from_str("RuSt").unwrap(), b"hello".to_vec());
    let crc = calculate_crc(&b"RuSthello".to_vec());
    assert_eq!(chunk.crc(), crc);
    let bytes = chunk.as_bytes();
    assert_eq!(bytes.len(), 17);
    assert_eq!(&bytes[0..4], &[0, 0, 0, 5]);
    assert_eq!(&bytes[4..8], b"RuSt");
    assert_eq!(&bytes[8..13], b"hello");
    assert_eq!(&bytes[13..17], &crc.to_be_bytes());
}

#[test]
fn test_big_endian_fields() {
    let data = vec![7u8; 0x0102];
    let chunk = Chunk::new(ChunkType::from_str("RuSt").unwrap(), data.clone());
    assert_eq!(chunk.length(), 0x0102);
    let bytes = chunk.as_bytes();
    assert_eq!(&bytes[0..4], &[0, 0, 1, 2]);
    let crc = chunk.crc();
    let n = bytes.len();
    assert_eq!(bytes[n - 4], (crc >> 24) as u8);
    assert_eq!(bytes[n - 3], (crc >> 16) as u8);
    assert_eq!(bytes[n - 2], (crc >> 8) as u8);
    assert_eq!(bytes[n - 1], crc as u8);
    let back = Chunk::try_from(bytes.as_ref()).unwrap();
    assert_eq!(back.length(), 0x0102);
    assert_eq!(back.data(), &data);
}

#[test]
fn test_chunk_round_trip() {
    let payloads: [&[u8]; 4] = [b"", b"a", b"hello", &[0u8, 255, 128, 10, 13]];
    for name in ["RuSt", "ruSt", "IHDR", "IEND", "tEXt"] {
        for payload in payloads {
            let c = Chunk::new(ChunkType::from_str(name).unwrap(), payload.to_vec());
            let back = Chunk::try_from(c.as_bytes().as_ref()).unwrap();
            assert_eq!(back.length(), c.length());
            assert_eq!(back.chunk_type(), c.chunk_type());
            assert_eq!(back.data(), c.data());
            assert_eq!(back.crc(), c.crc());
            assert_eq!(back.as_bytes(), c.as_bytes());
        }
    }
}

#[test]
fn test_empty_chunk() {
    let c = Chunk::new(ChunkType::from_str("IEND").unwrap(), Vec::new());
    assert_eq!(c.length(), 0);
    assert_eq!(c.crc(), 0xae426082);
    assert_eq!(c.as_bytes(), vec![0, 0, 0, 0, 73, 69, 78, 68, 0xae, 0x42, 0x60, 0x82]);
    assert_eq!(c.data_as_string().unwrap(), "");
    let back = Chunk::try_from(c.as_bytes().as_ref()).unwrap();
    assert_eq!(back.length(), 0);
    assert!(back.data().is_empty());
}

#[test]
fn test_input_too_small() {
    let whole = Chunk::new(ChunkType::from_str("IEND").unwrap(), Vec::new()).as_bytes();
    for n in 0..12 {
        match Chunk::try_from(&whole[..n]) {
            Err(e) => assert_eq!(e, ChunkError::InputTooSmall),
            Ok(_) => panic!("{} bytes were accepted", n),
        }
    }
    assert!(Chunk::try_from(&whole[..12]).is_ok());
}

#[test]
fn test_truncated_chunk_is_a_size_error() {
    let whole = Chunk::new(ChunkType::from_str("RuSt").unwrap(), b"hello".to_vec()).as_bytes();
    for n in 12..whole.len() {
        match Chunk::try_from(&whole[..n]) {
            Err(e) => assert_eq!(e, ChunkError::InputTooSmall),
            Ok(_) => panic!("{} bytes were accepted", n),
        }
    }
    // a length field far beyond the buffer
    let bytes = wire(u32::MAX, b"RuSt", b"hello", 0);
    assert_eq!(Chunk::try_from(bytes.as_ref()).err(), Some(ChunkError::InputTooSmall));
}

#[test]
fn test_bytes_after_the_chunk_are_ignored() {
    let c = Chunk::new(ChunkType::from_str("RuSt").unwrap(), b"hello".to_vec());
    let mut bytes = c.as_bytes();
    bytes.extend_from_slice(&[1, 2, 3, 4, 5]);
    let back = Chunk::try_from(bytes.as_ref()).unwrap();
    assert_eq!(back.data(), &b"hello".to_vec());
    assert_eq!(back.as_bytes(), c.as_bytes());
}

#[test]
fn test_invalid_type_in_chunk() {
    let crc = calculate_crc(&b"Rusthello".to_vec());
    let bytes = wire(5, b"Rust", b"hello", crc);
    assert_eq!(
        Chunk::try_from(bytes.as_ref()).err(),
        Some(ChunkError::ChunkType(ChunkTypeError::ReservedBitInvalid))
    );
    let crc = calculate_crc(&b"Ru1thello".to_vec());
    let bytes = wire(5, b"Ru1t", b"hello", crc);
    assert_eq!(
        Chunk::try_from(bytes.as_ref()).err(),
        Some(ChunkError::ChunkType(ChunkTypeError::InvalidByte))
    );
    // the type is looked at before the length is held against the buffer
    let bytes = wire(500, b"Ru1t", b"hello", crc);
    assert_eq!(
        Chunk::try_from(bytes.as_ref()).err(),
        Some(ChunkError::ChunkType(ChunkTypeError::InvalidByte))
    );
}

#[test]
fn test_new_accepts_any_type_of_four_letters() {
    let c = Chunk::new(ChunkType::from_str("Rust").unwrap(), b"hello".to_vec());
    assert_eq!(c.chunk_type().to_string(), "Rust");
    assert_eq!(
        Chunk::try_from(c.as_bytes().as_ref()).err(),
        Some(ChunkError::ChunkType(ChunkTypeError::ReservedBitInvalid))
    );
}

#[test]
fn test_single_bit_flips_are_detected() {
    let c = Chunk::new(ChunkType::from_str("RuSt").unwrap(), b"hello world".to_vec());
    let good = c.as_bytes();
    let stored = c.crc();
    let end_of_data = good.len() - 4;
    for at in 4..end_of_data {
        for bit in 0..8 {
            let mut bad = good.clone();
            bad[at] ^= 1 << bit;
            let r = Chunk::try_from(bad.as_ref());
            let type_still_valid = ChunkType::try_from([bad[4], bad[5], bad[6], bad[7]]).is_ok();
            match r {
                Ok(_) => panic!("bit {} of byte {} was flipped unnoticed", bit, at),
                Err(ChunkError::CrcMismatch(expected, actual)) => {
                    assert!(type_still_valid);
                    assert_eq!(expected, stored);
                    assert_ne!(actual, stored);
                    assert_eq!(actual, calculate_crc(&bad[4..end_of_data].to_vec()));
                }
                Err(e) => {
                    assert!(at < 8 && !type_still_valid);
                    assert!(matches!(e, ChunkError::ChunkType(_)));
                }
            }
        }
    }
}

#[test]
fn test_data_as_string() {
    let t = ChunkType::from_str("RuSt").unwrap();
    assert_eq!(Chunk::new(t, b"hello".to_vec()).data_as_string().unwrap(), "hello");
    let text = "gr\u{fc}\u{df}e \u{4f60}\u{597d} \u{1f600}";
    assert_eq!(Chunk::new(t, text.as_bytes().to_vec()).data_as_string().unwrap(), text);
    assert_eq!(
        Chunk::new(t, vec![0xff, 0xfe]).data_as_string(),
        Err(ChunkError::NotUtf8)
    );
    // a lone continuation byte, a cut-off sequence, an overlong form, a surrogate
    for bad in [vec![0x80u8], vec![0xe4, 0xbd], vec![0xc0, 0xaf], vec![0xed, 0xa0, 0x80]] {
        assert_eq!(Chunk::new(t, bad).data_as_string(), Err(ChunkError::NotUtf8));
    }
}

#[test]
fn test_chunk_clone() {
    let c = testing_chunk();
    let d = c.clone();
    assert_eq!(c.length(), d.length());
    assert_eq!(c.chunk_type(), d.chunk_type());
    assert_eq!(c.data(), d.data());
    assert_eq!(c.crc(), d.crc());
}

#[test]
fn test_chunk_display() {
    let c = Chunk::new(ChunkType::from_str("RuSt").unwrap(), vec![1, 20, 255]);
    let crc = c.crc();
    assert_eq!(
        c.to_string(),
        format!("length: 3, chunk type: RuSt, data: [1, 20, 255], crc{}", crc)
    );
    let e = Chunk::new(ChunkType::from_str("IEND").unwrap(), Vec::new());
    assert_eq!(e.to_string(), "length: 0, chunk type: IEND, data: [], crc2923585666");
}
