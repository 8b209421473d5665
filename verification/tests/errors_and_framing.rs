//! Error reporting on malformed input, and the LZW byte framing.

use compress_lib::{
    decode_bwt, decode_move_to_front, deserialize_byte, deserialize_lzw, deserialize_usize,
    encode_move_to_front, lz77_decode, lz78_decode, lzw_decode, lzw_encode, min_size,
    serialize_lzw, serialize_usize, CodecError, LZ77entry, LZ78entry,
};

#[test]
fn mtf_encode_rejects_symbol_outside_ordering() {
    let mut ordering = vec![b'a', b'b'];
    let before = ordering.clone();
    let r = encode_move_to_front(b"abz", &mut ordering);
    assert_eq!(r, Err(CodecError::SymbolNotInAlphabet));
    // The ordering is untouched on failure.
    assert_eq!(ordering, before);
}

#[test]
fn mtf_decode_rejects_index_out_of_bounds() {
    let mut ordering = vec![b'a', b'b'];
    let r = decode_move_to_front(&[0, 2], &mut ordering);
    assert_eq!(r, Err(CodecError::IndexOutOfRange));
    assert_eq!(ordering, vec![b'a', b'b']);
}

#[test]
fn lzw_encode_rejects_incomplete_alphabet() {
    let r = lzw_encode(b"abc", b"ab", 4);
    assert_eq!(r, Err(CodecError::SymbolNotInAlphabet));
    // A zero lookahead can match nothing at all.
    let r = lzw_encode(b"ab", b"ab", 0);
    assert_eq!(r, Err(CodecError::SymbolNotInAlphabet));
}

#[test]
fn lzw_decode_rejects_unknown_token() {
    let r = lzw_decode(&[0, 5], b"ab");
    assert_eq!(r, Err(CodecError::IndexOutOfRange));
}

#[test]
fn lz78_decode_rejects_unknown_index() {
    let entries = vec![LZ78entry {
        index: Some(0),
        next_char: Some(b'a'),
    }];
    let r = lz78_decode(&entries, 4);
    assert_eq!(r, Err(CodecError::IndexOutOfRange));
}

#[test]
fn lz77_decode_rejects_bad_offsets() {
    // A copy reaching before the start of the output.
    let entries = vec![LZ77entry {
        offset: 5,
        length: 1,
        next_char: Some(b'a'),
    }];
    assert_eq!(lz77_decode(&entries), Err(CodecError::OffsetOutOfRange));
    // A copy of positive length at offset zero.
    let entries = vec![
        LZ77entry {
            offset: 0,
            length: 0,
            next_char: Some(b'a'),
        },
        LZ77entry {
            offset: 0,
            length: 2,
            next_char: None,
        },
    ];
    assert_eq!(lz77_decode(&entries), Err(CodecError::OffsetOutOfRange));
}

#[test]
fn bwt_decode_rejects_index_out_of_bounds() {
    assert_eq!(decode_bwt(b"abc", 3), Err(CodecError::IndexOutOfRange));
}

#[test]
fn test_serialize_usize() {
    let mut buffer = Vec::new();
    serialize_usize(42, &mut buffer, 1);
    assert_eq!(buffer, vec![42]);

    buffer.clear();
    serialize_usize(300, &mut buffer, 2);
    assert_eq!(buffer, vec![44, 1]);

    buffer.clear();
    serialize_usize(70000, &mut buffer, 4);
    assert_eq!(buffer, vec![112, 17, 1, 0]);

    buffer.clear();
    serialize_usize(7000000000, &mut buffer, 8);
    assert_eq!(buffer, vec![0, 134, 59, 161, 1, 0, 0, 0]);
}

#[test]
fn test_deserialize_usize() {
    assert_eq!(deserialize_usize(&[42], 0, 1).unwrap(), (42, 1));
    assert_eq!(deserialize_usize(&[44, 1], 0, 2).unwrap(), (300, 2));
    assert_eq!(deserialize_usize(&[7, 44, 1], 1, 2).unwrap(), (300, 3));
    assert_eq!(
        deserialize_usize(&[42], 0, 2),
        Err(CodecError::UnexpectedEnd)
    );
    assert_eq!(
        deserialize_usize(&[1, 2, 3], 0, 3),
        Err(CodecError::InvalidWidth)
    );
}

#[test]
fn test_deserialize_byte() {
    assert_eq!(deserialize_byte(&[9, 8], 1).unwrap(), (8, 2));
    assert_eq!(deserialize_byte(&[9], 1), Err(CodecError::UnexpectedEnd));
}

#[test]
fn test_min_size() {
    assert_eq!(min_size(0), 1);
    assert_eq!(min_size(255), 1);
    assert_eq!(min_size(300), 2);
    assert_eq!(min_size(65535), 2);
    assert_eq!(min_size(65536), 4);
    assert_eq!(min_size(70000), 4);
    assert_eq!(min_size(usize::MAX), 8);
}

#[test]
fn lzw_frame_round_trips() {
    for tokens in [
        vec![],
        vec![0usize],
        vec![0, 1, 2, 4, 3],
        vec![255, 256, 70000, 1],
    ] {
        let frame = serialize_lzw(&tokens);
        assert_eq!(deserialize_lzw(&frame).unwrap(), tokens);
    }
}

#[test]
fn lzw_frame_layout() {
    // Token count in eight bytes, then the width byte, then the tokens.
    let frame = serialize_lzw(&[5, 300]);
    assert_eq!(
        frame,
        vec![2, 0, 0, 0, 0, 0, 0, 0, 2, 5, 0, 44, 1]
    );
}

#[test]
fn lzw_frame_rejects_malformed_bytes() {
    // Too short for the header.
    assert_eq!(
        deserialize_lzw(&[1, 0, 0, 0]),
        Err(CodecError::UnexpectedEnd)
    );
    // Width byte the framing does not understand.
    assert_eq!(
        deserialize_lzw(&[1, 0, 0, 0, 0, 0, 0, 0, 3, 1, 1, 1]),
        Err(CodecError::InvalidWidth)
    );
    // Fewer token bytes than the count promises.
    assert_eq!(
        deserialize_lzw(&[2, 0, 0, 0, 0, 0, 0, 0, 1, 9]),
        Err(CodecError::UnexpectedEnd)
    );
}

#[test]
fn codec_error_descriptions_are_distinct() {
    let errors = [
        CodecError::SymbolNotInAlphabet,
        CodecError::IndexOutOfRange,
        CodecError::OffsetOutOfRange,
        CodecError::UnexpectedEnd,
        CodecError::InvalidWidth,
        CodecError::ValueOverflow,
    ];
    for (i, a) in errors.iter().enumerate() {
        for (j, b) in errors.iter().enumerate() {
            assert_eq!(i == j, a.describe() == b.describe());
        }
    }
}
