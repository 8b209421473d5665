//! Round-trip and edge-case behavior of every codec, plus the pipeline.

use compress_lib::{
    decode_bwt, decode_move_to_front, decode_stack, encode_bwt, encode_move_to_front, encode_stack,
    lz77_decode, lz77_encode, lz78_decode, lz78_encode, lzw_decode, lzw_encode,
};

fn lz77_round_trip(input: &[u8], max_offset: usize, max_length: usize) {
    let encoded = lz77_encode(input, max_offset, max_length);
    let decoded = lz77_decode(&encoded).unwrap();
    assert_eq!(input.to_vec(), decoded);
}

#[test]
fn lz77_round_trips() {
    lz77_round_trip(b"", 4, 4);
    lz77_round_trip(b"x", 4, 4);
    lz77_round_trip(b"aaaaaaaaaaaaaaaaaaaaaaaa", 8, 8);
    lz77_round_trip(b"to be or not to be, that is the question", 16, 8);
    lz77_round_trip(b"abc", 0, 0);
    lz77_round_trip(b"mississippi", 255, 255);
}

#[test]
fn lz78_round_trips() {
    for cap in [1usize, 2, 4, 255] {
        for input in [
            b"".as_slice(),
            b"x".as_slice(),
            b"aaaaaaaaaaaaaaaaaaaaaaaa".as_slice(),
            b"TAMTARAMTAMTAMRAMTAT".as_slice(),
            b"mississippi".as_slice(),
        ] {
            let encoded = lz78_encode(input, 4, cap);
            let decoded = lz78_decode(&encoded, cap).unwrap();
            assert_eq!(input.to_vec(), decoded);
        }
    }
}

/// The dictionary wraps around: with capacity 1 every insert lands in slot 0,
/// so later entries point at a recycled slot, and decoding with the same
/// capacity still reproduces the input.
#[test]
fn lz78_dictionary_wraparound() {
    let input = b"abababababababababab";
    let encoded = lz78_encode(input, 4, 1);
    let decoded = lz78_decode(&encoded, 1).unwrap();
    assert_eq!(input.to_vec(), decoded);

    let encoded = lz78_encode(input, 4, 2);
    let decoded = lz78_decode(&encoded, 2).unwrap();
    assert_eq!(input.to_vec(), decoded);
}

#[test]
fn lzw_round_trips() {
    let alphabet: Vec<u8> = (0u8..=255).collect();
    for input in [
        b"".as_slice(),
        b"x".as_slice(),
        b"aaaaaaaaaaaaaaaaaaaaaaaa".as_slice(),
        b"to be or not to be, that is the question".as_slice(),
    ] {
        let encoded = lzw_encode(input, &alphabet, 16).unwrap();
        let decoded = lzw_decode(&encoded, &alphabet).unwrap();
        assert_eq!(input.to_vec(), decoded);
    }
}

/// The classic decoder corner: a token can name the dictionary run that is
/// only being inserted while it is decoded.
#[test]
fn lzw_self_referencing_token() {
    let input = b"aaaa";
    let initial = b"a";
    let encoded = lzw_encode(input, initial, 8).unwrap();
    let decoded = lzw_decode(&encoded, initial).unwrap();
    assert_eq!(input.to_vec(), decoded);
}

#[test]
fn mtf_round_trip_and_matching_final_orderings() {
    let input = b"lorem ipsum dolor sit amet";
    let initial: Vec<u8> = (0u8..=255).collect();

    let mut encoder_ordering = initial.clone();
    let encoded = encode_move_to_front(input, &mut encoder_ordering).unwrap();

    let mut decoder_ordering = initial.clone();
    let decoded = decode_move_to_front(&encoded, &mut decoder_ordering).unwrap();

    assert_eq!(input.to_vec(), decoded);
    // Both independently owned orderings end in the same final state.
    assert_eq!(encoder_ordering, decoder_ordering);
    assert_ne!(encoder_ordering, initial);
}

#[test]
fn bwt_banana() {
    let input = b"banana";
    let (encoded, index) = encode_bwt(input);
    assert_eq!(encoded, b"nnbaaa".to_vec());
    assert_eq!(index, 3);
    let decoded = decode_bwt(&encoded, index).unwrap();
    assert_eq!(input.to_vec(), decoded);
}

#[test]
fn bwt_round_trips_and_index_validity() {
    for input in [
        b"x".as_slice(),
        b"aaaa".as_slice(),
        b"abracadabra".as_slice(),
        b"mississippi river".as_slice(),
        b"zyxwvutsrq".as_slice(),
    ] {
        let (encoded, index) = encode_bwt(input);
        assert!(index < input.len());
        assert_eq!(encoded.len(), input.len());
        let decoded = decode_bwt(&encoded, index).unwrap();
        assert_eq!(input.to_vec(), decoded);
    }
    let (encoded, index) = encode_bwt(b"");
    assert_eq!(encoded, Vec::<u8>::new());
    assert_eq!(index, 0);
    assert_eq!(decode_bwt(&encoded, index).unwrap(), Vec::<u8>::new());
}

#[test]
fn stack_pipeline_end_to_end() {
    for input in [
        b"".as_slice(),
        b"x".as_slice(),
        b"rabarbarbar".as_slice(),
        b"she sells sea shells by the sea shore".as_slice(),
        &[0u8, 255, 0, 255, 7, 7, 7, 7, 13][..],
    ] {
        let (tokens, index) = encode_stack(input, 255).unwrap();
        let decoded = decode_stack(&tokens, index).unwrap();
        assert_eq!(input.to_vec(), decoded);
    }
}

#[test]
fn stack_pipeline_rejects_bad_index() {
    let input = b"banana";
    let (tokens, _) = encode_stack(input, 255).unwrap();
    assert!(decode_stack(&tokens, input.len()).is_err());
}

/// Compression sanity: sufficiently repetitive input compresses to fewer
/// entries than input symbols.
#[test]
fn compression_sanity_on_repetitive_input() {
    let input = b"rabarbarbar";
    assert!(lzw_encode(input, b"rab", 4).unwrap().len() < input.len());
    assert!(lz77_encode(input, 8, 8).len() < input.len());
    assert!(lz78_encode(input, 4, 8).len() < input.len());
}
