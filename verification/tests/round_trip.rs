use dzip::decoder::deflate_block_decoding;
use dzip::deflate::{deflate_decoding, deflate_encoding, pack_bits, unpack_bits};
use dzip::encoder::deflate_block_encoding;
use dzip::error::DeflateError;
use dzip::lz77::{encoding_lz77, Lz77Element, Lz77ReferenceElement};

fn round_trip(data: &[u8]) -> Vec<u8> {
    let bits = deflate_encoding(data.to_vec());
    let bytes = pack_bits(&bits);
    deflate_decoding(bytes).expect("a stream that was just written decodes")
}

fn blocks_of(bits: &[bool]) -> Vec<(Vec<u8>, bool)> {
    let mut blocks = Vec::new();
    let mut out = Vec::new();
    let mut start = 3;
    loop {
        let before = out.len();
        let (used, last) = deflate_block_decoding(&mut out, &bits[start..]).expect("a block");
        blocks.push((out[before..].to_vec(), last));
        start += used;
        if last {
            assert_eq!(start, bits.len());
            return blocks;
        }
    }
}

fn pseudo_random(count: usize) -> Vec<u8> {
    let mut state: u64 = 0x2545_F491_4F6C_DD1D;
    let mut data = Vec::with_capacity(count);
    for _ in 0..count {
        state ^= state << 13;
        state ^= state >> 7;
        state ^= state << 17;
        data.push((state >> 24) as u8);
    }
    data
}

fn bits_of(text: &str) -> Vec<bool> {
    text.chars().filter(|c| *c == '0' || *c == '1').map(|c| c == '1').collect()
}

#[test]
fn empty_input_is_one_final_block() {
    let bits = deflate_encoding(Vec::new());
    let blocks = blocks_of(&bits);
    assert_eq!(blocks.len(), 1);
    assert!(blocks[0].1);
    assert!(blocks[0].0.is_empty());
    assert_eq!(round_trip(b""), b"".to_vec());
}

#[test]
fn empty_input_has_these_bits() {
    let expected = bits_of(
        "100 \
         1 01 00000 00000 1110 \
         000 000 001 000 000 000 000 000 000 000 000 000 000 000 000 000 000 001 \
         1 1111111 1 1101011 0 \
         0",
    );
    assert_eq!(deflate_encoding(Vec::new()), expected);
    assert_eq!(deflate_block_encoding(&[], true).unwrap(), expected[3..].to_vec());
}

#[test]
fn single_byte_round_trips() {
    assert_eq!(encoding_lz77(&b"a".to_vec()), vec![Lz77Element::SimpleValue(b'a')]);
    let bits = deflate_encoding(b"a".to_vec());
    let blocks = blocks_of(&bits);
    assert_eq!(blocks, vec![(b"a".to_vec(), true)]);
    assert_eq!(round_trip(b"a"), b"a".to_vec());
}

#[test]
fn run_of_one_byte_is_a_literal_and_a_reference() {
    let elements = encoding_lz77(&b"aaaaaa".to_vec());
    assert_eq!(
        elements,
        vec![
            Lz77Element::SimpleValue(b'a'),
            Lz77Element::ReferenceValue(Lz77ReferenceElement { offset: 1, count: 5 }),
        ]
    );
    assert_eq!(round_trip(b"aaaaaa"), b"aaaaaa".to_vec());
}

#[test]
fn repeated_triple_is_three_literals_and_a_reference() {
    let elements = encoding_lz77(&b"abcabcabcabc".to_vec());
    assert_eq!(
        elements,
        vec![
            Lz77Element::SimpleValue(b'a'),
            Lz77Element::SimpleValue(b'b'),
            Lz77Element::SimpleValue(b'c'),
            Lz77Element::ReferenceValue(Lz77ReferenceElement { offset: 3, count: 9 }),
        ]
    );
    assert_eq!(round_trip(b"abcabcabcabc"), b"abcabcabcabc".to_vec());
}

#[test]
fn random_bytes_round_trip_within_the_envelope() {
    let data = pseudo_random(100_000);
    let bits = deflate_encoding(data.clone());
    let bytes = pack_bits(&bits);
    assert!(bytes.len() <= data.len() + 1024);
    assert_eq!(deflate_decoding(bytes).unwrap(), data);
}

#[test]
fn more_elements_than_a_block_holds_give_two_blocks() {
    let data = pseudo_random(100_000);
    let elements = encoding_lz77(&data);
    assert!(elements.len() > 65535);
    assert!(elements.len() <= 2 * 65535);
    let bits = deflate_encoding(data.clone());
    let blocks = blocks_of(&bits);
    let flags: Vec<bool> = blocks.iter().map(|b| b.1).collect();
    assert_eq!(flags, vec![false, true]);
    let mut joined = Vec::new();
    for block in &blocks {
        joined.extend_from_slice(&block.0);
    }
    assert_eq!(joined, data);
}

#[test]
fn exactly_one_block_of_elements_is_one_final_block() {
    let long = pseudo_random(70_000);
    let all = encoding_lz77(&long);
    assert!(all.len() > 65535);
    let mut bytes = 0usize;
    for element in &all[..65535] {
        bytes += match element {
            Lz77Element::SimpleValue(_) => 1,
            Lz77Element::ReferenceValue(r) => r.count as usize,
        };
    }
    let mut data = long[..bytes].to_vec();
    let mut elements = encoding_lz77(&data);
    let mut tries = 0;
    while elements.len() != 65535 && tries < 8 {
        if elements.len() > 65535 {
            data.pop();
        } else {
            data.push(long[data.len()]);
        }
        elements = encoding_lz77(&data);
        tries += 1;
    }
    assert_eq!(elements.len(), 65535);
    let bits = deflate_encoding(data.clone());
    let flags: Vec<bool> = blocks_of(&bits).iter().map(|b| b.1).collect();
    assert_eq!(flags, vec![true]);
    assert_eq!(round_trip(&data), data);
}

#[test]
fn all_bytes_in_order_repeated_round_trip() {
    let mut data = Vec::new();
    for _ in 0..300 {
        for b in 0..=255u8 {
            data.push(b);
        }
    }
    assert_eq!(round_trip(&data), data);
    let elements = encoding_lz77(&data);
    assert!(elements.len() < 65535);
    assert_eq!(
        elements[256],
        Lz77Element::ReferenceValue(Lz77ReferenceElement { offset: 256, count: 258 })
    );
    let bits = deflate_encoding(data.clone());
    let flags: Vec<bool> = blocks_of(&bits).iter().map(|b| b.1).collect();
    assert_eq!(flags, vec![true]);
}

#[test]
fn varied_inputs_round_trip() {
    let mut inputs: Vec<Vec<u8>> = vec![
        b"ab".to_vec(),
        b"abc".to_vec(),
        vec![0u8; 1000],
        vec![255u8; 70000],
        b"the quick brown fox jumps over the lazy dog, the quick brown fox".to_vec(),
    ];
    let mut text = Vec::new();
    for i in 0..5000u32 {
        text.extend_from_slice(format!("line {} of {}\n", i, i % 7).as_bytes());
    }
    inputs.push(text);
    let mut far = pseudo_random(40_000);
    let head = far[..300].to_vec();
    far.extend_from_slice(&head);
    inputs.push(far);
    for data in inputs {
        assert_eq!(round_trip(&data), data);
    }
}

#[test]
fn a_stream_whose_bits_fill_its_last_byte_round_trips() {
    let mut seen_full = false;
    for len in 0..64usize {
        let data: Vec<u8> = (0..len).map(|i| (i * 37 % 251) as u8).collect();
        let bits = deflate_encoding(data.clone());
        if bits.len() % 8 == 0 {
            seen_full = true;
            assert_eq!(&bits[..3], &[false, false, false]);
        }
        assert_eq!(unpack_bits(&pack_bits(&bits)).unwrap(), bits);
        assert_eq!(round_trip(&data), data);
    }
    assert!(seen_full);
}

#[test]
fn packing_puts_the_first_bit_highest_and_pads_with_zeros() {
    let bits = bits_of("011 10000 101");
    assert_eq!(pack_bits(&bits), vec![0b0111_0000, 0b1010_0000]);
    assert_eq!(unpack_bits(&vec![0b0111_0000, 0b1010_0000]).unwrap(), bits);
    assert_eq!(pack_bits(&Vec::new()), Vec::<u8>::new());
}

#[test]
fn unpacking_refuses_what_is_no_stream() {
    assert_eq!(unpack_bits(&Vec::new()), Err(DeflateError::Truncation));
    assert_eq!(unpack_bits(&vec![0b0100_0000]), Err(DeflateError::Truncation));
    assert_eq!(unpack_bits(&vec![0b0111_0000, 0b1011_0000]), Err(DeflateError::Truncation));
    assert_eq!(unpack_bits(&vec![0b0110_0000]).unwrap(), bits_of("011"));
}

#[test]
fn decoding_refuses_a_truncated_stream() {
    let bits = deflate_encoding(b"hello hello hello".to_vec());
    let mut bytes = pack_bits(&bits);
    bytes.pop();
    assert!(deflate_decoding(bytes).is_err());
    assert_eq!(deflate_decoding(Vec::new()), Err(DeflateError::Truncation));
    let mut out = Vec::new();
    assert_eq!(
        deflate_block_decoding(&mut out, &bits[3..bits.len() - 1]),
        Err(DeflateError::Truncation)
    );
    assert_eq!(deflate_block_decoding(&mut out, &bits[3..10]), Err(DeflateError::Truncation));
    assert_eq!(deflate_block_decoding(&mut out, &[true]), Err(DeflateError::Truncation));
}

#[test]
fn decoding_refuses_bits_after_the_last_block() {
    let mut bits = deflate_encoding(b"abc".to_vec());
    bits.extend_from_slice(&[false; 8]);
    assert_eq!(deflate_decoding(pack_bits(&bits)), Err(DeflateError::Truncation));
}

#[test]
fn decoding_refuses_other_block_types() {
    let mut out = Vec::new();
    for kind in ["0 00", "1 11", "1 10"] {
        let mut bits = bits_of(kind);
        bits.extend_from_slice(&[false; 40]);
        assert_eq!(
            deflate_block_decoding(&mut out, &bits),
            Err(DeflateError::UnsupportedBlockType)
        );
    }
}

#[test]
fn decoding_refuses_a_repeat_with_nothing_to_repeat() {
    let bits = bits_of("1 01 00000 00000 0000 001 000 000 000 0 00");
    let mut out = Vec::new();
    assert_eq!(deflate_block_decoding(&mut out, &bits), Err(DeflateError::InvalidSymbol));
}

#[test]
fn decoding_refuses_a_reference_before_the_start() {
    let block = deflate_block_encoding(
        &[Lz77Element::ReferenceValue(Lz77ReferenceElement { offset: 1, count: 3 })],
        true,
    )
    .unwrap();
    let mut out = Vec::new();
    assert_eq!(deflate_block_decoding(&mut out, &block), Err(DeflateError::DistanceTooFar));
    let mut out = vec![7u8];
    assert_eq!(deflate_block_decoding(&mut out, &block), Ok((block.len(), true)));
    assert_eq!(out, vec![7u8, 7, 7, 7]);
}

#[test]
fn block_decoding_appends_to_what_is_there_and_reaches_into_it() {
    let block = deflate_block_encoding(
        &[
            Lz77Element::SimpleValue(b'x'),
            Lz77Element::ReferenceValue(Lz77ReferenceElement { offset: 4, count: 6 }),
        ],
        false,
    )
    .unwrap();
    let mut out = b"abc".to_vec();
    let mut padded = block.clone();
    padded.extend_from_slice(&[true, false, true]);
    assert_eq!(deflate_block_decoding(&mut out, &padded), Ok((block.len(), false)));
    assert_eq!(out, b"abcxabcxab".to_vec());
}

#[test]
fn block_encoding_refuses_references_that_cannot_be_written() {
    for (offset, count) in [(1u16, 2u16), (1, 259), (0, 3), (32769, 3)] {
        let elements =
            [Lz77Element::ReferenceValue(Lz77ReferenceElement { offset, count })];
        assert_eq!(
            deflate_block_encoding(&elements, true),
            Err(DeflateError::InvalidSymbol)
        );
    }
    let widest = [Lz77Element::ReferenceValue(Lz77ReferenceElement { offset: 32768, count: 258 })];
    assert!(deflate_block_encoding(&widest, true).is_ok());
}

#[test]
fn every_error_has_a_message() {
    let errors = [
        DeflateError::InfeasibleHuffman,
        DeflateError::UnsortedLengths,
        DeflateError::InvalidSymbol,
        DeflateError::UnsupportedBlockType,
        DeflateError::Truncation,
        DeflateError::DistanceTooFar,
    ];
    for e in errors {
        assert!(!e.message().is_empty());
    }
    assert_eq!(DeflateError::UnsupportedBlockType.message(), "not supported");
    assert_eq!(DeflateError::Truncation.message(), "Internal error");
}

#[test]
fn the_stream_is_no_longer_than_its_bound() {
    let mut inputs: Vec<Vec<u8>> = vec![Vec::new(), b"a".to_vec(), vec![0u8; 1000]];
    inputs.push(pseudo_random(5000));
    inputs.push((0..600u32).map(|i| (i % 256) as u8).collect());
    for data in inputs {
        let bits = deflate_encoding(data.clone());
        assert!(bits.len() <= 4516 + 49 * data.len());
        assert_eq!(pack_bits(&bits).len(), (bits.len() + 7) / 8);
    }
    assert_eq!(deflate_encoding(Vec::new()).len(), 92);
}
