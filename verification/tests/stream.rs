//! Whole-stream decoding tests: the wire format end to end.
use lzhuf::CompressionError;
use lzhuf::decoder::LzhufMethod;
use lzhuf::lzss::decode_to_end;

/// Packs (value, width) fields into bytes, most significant bit first,
/// padding the last byte with zero bits.
fn pack(fields: &[(u64, u32)]) -> Vec<u8> {
    let mut bits: Vec<bool> = Vec::new();
    for &(v, w) in fields {
        for i in (0..w).rev() {
            bits.push((v >> i) & 1 == 1);
        }
    }
    while bits.len() % 8 != 0 {
        bits.push(false);
    }
    let mut out = Vec::new();
    for chunk in bits.chunks(8) {
        let mut b = 0u8;
        for (i, &bit) in chunk.iter().enumerate() {
            if bit {
                b |= 1 << (7 - i);
            }
        }
        out.push(b);
    }
    out
}

#[test]
fn clean_empty_stream() {
    // sixteen zero bits: a zero header ends the stream at once
    let method = LzhufMethod::new(5);
    assert_eq!(decode_to_end(&method, vec![0x00, 0x00]), Ok(vec![]));
}

#[test]
fn single_degenerate_literal_block() {
    // count 1; degenerate code-length table (constant 0); degenerate
    // symbol table with constant 5; degenerate offset table (toy width 1);
    // terminating zero header
    let method = LzhufMethod::new(1);
    let input = pack(&[
        (1, 16),
        (0, 5),
        (0, 5),
        (0, 9),
        (5, 9),
        (0, 1),
        (0, 1),
        (0, 16),
    ]);
    assert_eq!(decode_to_end(&method, input), Ok(vec![5]));
}

#[test]
fn malformed_run_length_overshoot() {
    // code-length table declares 3 entries; after three plain values the
    // escape reads repeat count 3, overshooting 3 + 3 > 3
    let method = LzhufMethod::new(5);
    let input = pack(&[(1, 16), (3, 5), (1, 3), (1, 3), (2, 3), (3, 2)]);
    assert_eq!(
        decode_to_end(&method, input),
        Err(CompressionError::DataError)
    );
}

#[test]
fn truncated_header() {
    // only 8 bits remain where the 16-bit header is read
    let method = LzhufMethod::new(5);
    assert_eq!(
        decode_to_end(&method, vec![0x00]),
        Err(CompressionError::UnexpectedEof)
    );
}

#[test]
fn truncated_inside_tables() {
    // header promises a block, the code-length table count is read, but
    // the degenerate constant's field runs past the end of the input
    let method = LzhufMethod::new(5);
    let input = pack(&[(1, 16), (0, 5)]);
    assert_eq!(
        decode_to_end(&method, input),
        Err(CompressionError::UnexpectedEof)
    );
}

#[test]
fn two_degenerate_blocks() {
    let method = LzhufMethod::new(1);
    let input = pack(&[
        (1, 16),
        (0, 5),
        (0, 5),
        (0, 9),
        (65, 9),
        (0, 1),
        (0, 1),
        (1, 16),
        (0, 5),
        (0, 5),
        (0, 9),
        (66, 9),
        (0, 1),
        (0, 1),
        (0, 16),
    ]);
    assert_eq!(decode_to_end(&method, input), Ok(vec![65, 66]));
}

#[test]
fn real_tables_literal_and_reference() {
    // code-length table [0, 0, 1, 1]: symbols 2 and 3 get 1-bit codes 0, 1;
    // symbol table of 258 entries with 1-bit codes for the literal 0 and
    // the match-length symbol 257 (zero run via escape symbol 2, e = 236);
    // degenerate offset table with constant 0; two codes: the literal,
    // then a 4-byte reference one byte back
    let method = LzhufMethod::new(5);
    let input = pack(&[
        (2, 16),
        (4, 5),
        (0, 3),
        (0, 3),
        (1, 3),
        (0, 2),
        (1, 3),
        (258, 9),
        (1, 1),
        (0, 1),
        (236, 9),
        (1, 1),
        (0, 5),
        (0, 5),
        (0, 1),
        (1, 1),
        (0, 16),
    ]);
    assert_eq!(decode_to_end(&method, input), Ok(vec![0, 0, 0, 0, 0]));
}

#[test]
fn reference_with_offset_extension_bits() {
    // code-length table [0, 0, 1, 2, 2]; symbol table with literals 0 and
    // 1 and match symbol 257; offset table degenerate with constant 2, so
    // each reference reads one raw extension bit: offset 2 | 1 = 3;
    // four literals 0 1 0 1 then a 4-byte reference 4 bytes back
    let method = LzhufMethod::new(5);
    let input = pack(&[
        (5, 16),
        (5, 5),
        (0, 3),
        (0, 3),
        (1, 3),
        (0, 2),
        (2, 3),
        (2, 3),
        (258, 9),
        (2, 2),
        (3, 2),
        (0, 1),
        (235, 9),
        (3, 2),
        (0, 5),
        (2, 5),
        (0, 1),
        (2, 2),
        (0, 1),
        (2, 2),
        (3, 2),
        (1, 1),
        (0, 16),
    ]);
    assert_eq!(
        decode_to_end(&method, input),
        Ok(vec![0, 1, 0, 1, 0, 1, 0, 1])
    );
}

#[test]
fn reference_before_any_history() {
    // a degenerate symbol table whose constant 260 is a match symbol and a
    // degenerate offset table: the first code is a back-reference with no
    // bytes produced yet, which the expander cannot honour
    let method = LzhufMethod::new(1);
    let input = pack(&[
        (1, 16),
        (0, 5),
        (0, 5),
        (0, 9),
        (260, 9),
        (0, 1),
        (0, 1),
        (0, 16),
    ]);
    assert_eq!(
        decode_to_end(&method, input),
        Err(CompressionError::DataError)
    );
}

#[test]
fn offset_too_wide_for_window() {
    // offset table constant 17 asks for a 17-bit offset, past the window
    let method = LzhufMethod::new(5);
    let input = pack(&[
        (1, 16),
        (0, 5),
        (0, 5),
        (0, 9),
        (300, 9),
        (0, 5),
        (17, 5),
        (0, 16),
    ]);
    assert_eq!(
        decode_to_end(&method, input),
        Err(CompressionError::DataError)
    );
}

#[test]
fn invalid_length_list_is_data_error() {
    // code-length table with a single 1-bit code is an incomplete prefix
    // code: count 1, one plain value 1
    let method = LzhufMethod::new(5);
    let input = pack(&[(1, 16), (1, 5), (1, 3)]);
    assert_eq!(
        decode_to_end(&method, input),
        Err(CompressionError::DataError)
    );
}

#[test]
fn largest_block_count_of_literals() {
    // a block of 65535 codes from degenerate tables consumes no bits per
    // code and still terminates with the declared number of bytes
    let method = LzhufMethod::new(1);
    let input = pack(&[
        (0xFFFF, 16),
        (0, 5),
        (0, 5),
        (0, 9),
        (7, 9),
        (0, 1),
        (0, 1),
        (0, 16),
    ]);
    assert_eq!(decode_to_end(&method, input), Ok(vec![7u8; 65535]));
}
