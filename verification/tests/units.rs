//! Component-level tests: the bit reader, the small-integer length
//! decoder, canonical table construction and decoding, and the pull-based
//! top-level decoder.
use lzhuf::CompressionError;
use lzhuf::bits::BitReader;
use lzhuf::decoder::LzhufDecoderInner;
use lzhuf::decoder::LzhufHuffmanDecoder;
use lzhuf::decoder::LzhufMethod;
use lzhuf::huffman::HuffmanTable;
use lzhuf::lzss::LzhufDecoder;

fn bits(fields: &[(u64, u32)]) -> Vec<u8> {
    let mut v: Vec<bool> = Vec::new();
    for &(x, w) in fields {
        for i in (0..w).rev() {
            v.push((x >> i) & 1 == 1);
        }
    }
    while v.len() % 8 != 0 {
        v.push(false);
    }
    let mut out = Vec::new();
    for chunk in v.chunks(8) {
        let mut b = 0u8;
        for (i, &bit) in chunk.iter().enumerate() {
            if bit {
                b |= 1 << (7 - i);
            }
        }
        out.push(b);
    }
    out
}

#[test]
fn bitreader_msb_first() {
    let mut r = BitReader::new(vec![0xAB, 0xCD]);
    assert_eq!(r.read_bits(4), Some(0xA));
    assert_eq!(r.read_bits(4), Some(0xB));
    assert_eq!(r.read_bits(8), Some(0xCD));
    assert_eq!(r.read_bits(1), None);
}

#[test]
fn bitreader_wide_field() {
    let mut r = BitReader::new(vec![0xAB, 0xCD]);
    assert_eq!(r.read_bits(16), Some(0xABCD));
}

#[test]
fn bitreader_short_read_leaves_position() {
    let mut r = BitReader::new(vec![0xFF]);
    assert_eq!(r.read_bits(6), Some(0x3F));
    // only 2 bits remain: a 3-bit read fails, and the 2 bits are intact
    assert_eq!(r.read_bits(3), None);
    assert_eq!(r.read_bits(2), Some(0x3));
}

#[test]
fn dec_len_plain_value() {
    let inner = LzhufDecoderInner::new(&LzhufMethod::new(5));
    let mut r = BitReader::new(bits(&[(5, 3)]));
    assert_eq!(inner.dec_len(&mut r), Ok(5));
}

#[test]
fn dec_len_unary_extension() {
    // base 7, then two 1-flags and a stopping 0-flag: 9
    let inner = LzhufDecoderInner::new(&LzhufMethod::new(5));
    let mut r = BitReader::new(bits(&[(7, 3), (1, 1), (1, 1), (0, 1)]));
    assert_eq!(inner.dec_len(&mut r), Ok(9));
}

#[test]
fn dec_len_truncated() {
    let inner = LzhufDecoderInner::new(&LzhufMethod::new(5));
    let mut r = BitReader::new(Vec::new());
    assert_eq!(inner.dec_len(&mut r), Err(CompressionError::UnexpectedEof));
}

#[test]
fn huffman_build_complete_code() {
    assert!(HuffmanTable::new(&vec![1, 1]).is_some());
    assert!(HuffmanTable::new(&vec![1, 2, 2]).is_some());
    assert!(HuffmanTable::new(&vec![2, 2, 2, 2]).is_some());
}

#[test]
fn huffman_build_rejects_incomplete_code() {
    // under-subscribed
    assert!(HuffmanTable::new(&vec![1]).is_none());
    assert!(HuffmanTable::new(&vec![0, 0]).is_none());
    // over-subscribed
    assert!(HuffmanTable::new(&vec![1, 1, 1]).is_none());
    assert!(HuffmanTable::new(&vec![1, 2, 2, 2]).is_none());
}

#[test]
fn huffman_decode_canonical_order() {
    // lengths [1, 2, 2]: codes 0, 10, 11
    let t = HuffmanTable::new(&vec![1, 2, 2]).unwrap();
    let mut r = BitReader::new(bits(&[(0, 1), (2, 2), (3, 2)]));
    assert_eq!(t.dec(&mut r), Ok(Some(0)));
    assert_eq!(t.dec(&mut r), Ok(Some(1)));
    assert_eq!(t.dec(&mut r), Ok(Some(2)));
}

#[test]
fn huffman_decode_skips_unused_symbols() {
    // lengths [0, 0, 1, 1]: symbols 2 and 3 carry the two 1-bit codes
    let t = HuffmanTable::new(&vec![0, 0, 1, 1]).unwrap();
    let mut r = BitReader::new(bits(&[(0, 1), (1, 1)]));
    assert_eq!(t.dec(&mut r), Ok(Some(2)));
    assert_eq!(t.dec(&mut r), Ok(Some(3)));
}

#[test]
fn huffman_decode_exhaustion_is_none() {
    let t = HuffmanTable::new(&vec![1, 2, 2]).unwrap();
    let mut r = BitReader::new(Vec::new());
    assert_eq!(t.dec(&mut r), Ok(None));
}

#[test]
fn degenerate_decoder_consumes_no_bits() {
    let d = LzhufHuffmanDecoder::Constant(42);
    let mut r = BitReader::new(Vec::new());
    assert_eq!(d.dec(&mut r), Ok(Some(42)));
    assert_eq!(d.dec(&mut r), Ok(Some(42)));
}

#[test]
fn pull_decoder_yields_bytes_one_by_one() {
    // the degenerate single-literal block, pulled byte by byte
    let method = LzhufMethod::new(1);
    let input = bits(&[
        (1, 16),
        (0, 5),
        (0, 5),
        (0, 9),
        (5, 9),
        (0, 1),
        (0, 1),
        (0, 16),
    ]);
    let mut d = LzhufDecoder::new(&method);
    let mut r = BitReader::new(input);
    let mut got = Vec::new();
    loop {
        match d.next(&mut r) {
            Ok(Some(b)) => got.push(b),
            Ok(None) => break,
            Err(e) => panic!("unexpected error: {:?}", e),
        }
    }
    assert_eq!(got, vec![5]);
}

#[test]
fn pull_decoder_reference_run() {
    // one literal then a reference expands to five bytes, pulled singly
    let method = LzhufMethod::new(5);
    let input = bits(&[
        (2, 16),
        (4, 5),
        (0, 3),
        (0, 3),
        (1, 3),
        (0, 2),
        (1, 3),
        (258, 9),
        (1, 1),
        (0, 1),
        (236, 9),
        (1, 1),
        (0, 5),
        (0, 5),
        (0, 1),
        (1, 1),
        (0, 16),
    ]);
    let mut d = LzhufDecoder::new(&method);
    let mut r = BitReader::new(input);
    let mut got = Vec::new();
    loop {
        match d.next(&mut r) {
            Ok(Some(b)) => got.push(b),
            Ok(None) => break,
            Err(e) => panic!("unexpected error: {:?}", e),
        }
    }
    assert_eq!(got, vec![0, 0, 0, 0, 0]);
}

#[test]
fn init_block_end_of_stream() {
    let method = LzhufMethod::new(5);
    let mut inner = LzhufDecoderInner::new(&method);
    let mut r = BitReader::new(vec![0x00, 0x00]);
    assert_eq!(inner.init_block(&mut r), Ok(false));
}
