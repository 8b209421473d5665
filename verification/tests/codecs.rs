use compress_lib::{
    decode_bwt, decode_move_to_front, encode_bwt, encode_move_to_front, lz77_decode, lz77_encode,
    lz78_decode, lz78_encode, lzw_decode, lzw_encode, LZ77entry, LZ78entry,
};

#[test]
fn test_lz77() {
    let input = b"RATABARBARATABARBARAT";

    let encoded = lz77_encode(input, 4, 4);
    let decoded = lz77_decode(&encoded).unwrap();

    assert_eq!(input.to_vec(), decoded);
}

#[test]
fn lz77_test_lz77() {
    let input = b"ABABABABA";

    let encoded = lz77_encode(input, 4, 4);
    let decoded = lz77_decode(&encoded).unwrap();

    assert_eq!(input.to_vec(), decoded);
}

#[test]
fn test_lz77_empty() {
    let input: Vec<u8> = vec![];

    let encoded = lz77_encode(&input, 4, 4);
    let decoded = lz77_decode(&encoded).unwrap();

    assert_eq!(input, decoded);
}

#[test]
fn test_nasty_decode() {
    let input = vec![
        LZ77entry {
            offset: 0,
            length: 0,
            next_char: Some(1),
        },
        LZ77entry {
            offset: 1,
            length: 5,
            next_char: Some(2),
        },
    ];
    let decoded = lz77_decode(&input).unwrap();
    assert_eq!(decoded, vec![1, 1, 1, 1, 1, 1, 2]);
}

#[test]
fn test_resolve() {
    let other: Vec<u8> = b"test".to_vec();
    let dictionary: Vec<Vec<u8>> = vec![vec![b't'], vec![b't', b'e'], vec![b't', b'e', b's']];
    let target = LZ78entry {
        index: Some(2),
        next_char: Some(b't'),
    };
    assert_eq!(target.resolve(&dictionary), other);
}

#[test]
fn test_lz78_encode_decode() {
    let input = b"TAMTARAMTAMTAMRAMTAT";
    let encoded = lz78_encode(input, 4, 4);
    assert!(encoded.len() < input.len());
    let decoded = lz78_decode(&encoded, 4).unwrap();
    assert_eq!(input, decoded.as_slice());
}

#[test]
fn lz78_test_lz78_encode_decode() {
    let input = b"rabarbarbar";
    let encoded = lz78_encode(input, 4, 4);
    assert!(encoded.len() < input.len());
    let decoded = lz78_decode(&encoded, 4).unwrap();
    assert_eq!(input, decoded.as_slice());
}

#[test]
fn test_lzw() {
    let input = b"ABABABABA";
    let initial = b"AB";
    let encoded = lzw_encode(input, initial, 4).unwrap();
    assert_eq!(encoded, vec![0, 1, 2, 4, 3]);
}

#[test]
fn test_lzw_decode() {
    let input = b"ABABABABA";
    let initial = b"AB";
    let encoded = lzw_encode(input, initial, 4).unwrap();
    let decoded = lzw_decode(&encoded, initial).unwrap();
    assert_eq!(input.to_vec(), decoded);
}

#[test]
fn test_rabarbar() {
    let input = b"rabarbarbar";
    let initial = b"rab";
    let encoded = lzw_encode(input, initial, 4).unwrap();
    assert!(encoded.len() < input.len());
    let decoded = lzw_decode(&encoded, initial).unwrap();
    assert_eq!(input, decoded.as_slice());
}

#[test]
fn test_bwt() {
    let input = b"hello";
    let (encoded, index) = encode_bwt(input);
    assert_eq!(encoded, vec![b'h', b'o', b'e', b'l', b'l']);
    assert_eq!(index, 1);
}

#[test]
fn test_bwt_decode() {
    let input = vec![b'h', b'o', b'e', b'l', b'l'];
    let index = 1;
    let decoded = decode_bwt(&input, index).unwrap();
    assert_eq!(decoded, vec![b'h', b'e', b'l', b'l', b'o']);
}

#[test]
fn test_hello() {
    let mut ordering = vec![b'e', b'h', b'l', b'o'];
    let input = vec![b'h', b'e', b'l', b'l', b'o'];
    let encoded = encode_move_to_front(&input, &mut ordering).unwrap();
    assert_eq!(encoded, vec![1, 1, 2, 0, 3]);
}

#[test]
fn test_hello_decode() {
    let mut ordering = vec![b'e', b'h', b'l', b'o'];
    let input = vec![1, 1, 2, 0, 3];
    let decoded = decode_move_to_front(&input, &mut ordering).unwrap();
    assert_eq!(decoded, vec![b'h', b'e', b'l', b'l', b'o']);
}
