use dzip::canonical::huffman_lengths_to_bin_code;
use dzip::code_lengths::encoding_sequence_length;
use dzip::coding::{huffman_encoding, sort_huffman_lengths};
use dzip::compared_element::ComparedElement;
use dzip::error::DeflateError;
use dzip::huffman::{bounded_huffman, merge_coins, Coin};
use dzip::symbols::DeflateLength;
use dzip::symbols::DeflateLength::{BigRetryZero, RetryPrevious, RetryZero, SimpleLength};

fn kraft_holds(lengths: &[i32], limit: i32) -> bool {
    let mut sum: u64 = 0;
    for l in lengths {
        if *l < 1 || *l > limit {
            return false;
        }
        sum += 1u64 << (limit - *l);
    }
    sum <= 1u64 << limit
}

#[test]
fn package_merge_on_small_weights() {
    assert_eq!(bounded_huffman(15, &[]), Ok(vec![]));
    assert_eq!(bounded_huffman(15, &[7]), Ok(vec![1]));
    assert_eq!(bounded_huffman(15, &[1, 1]), Ok(vec![1, 1]));
    assert_eq!(bounded_huffman(2, &[1, 1, 3]), Ok(vec![2, 2, 1]));
    assert_eq!(bounded_huffman(7, &[1, 2]), Ok(vec![1, 1]));
    assert_eq!(bounded_huffman(2, &[1, 1, 1, 1]), Ok(vec![2, 2, 2, 2]));
    assert_eq!(bounded_huffman(1, &[5, 9]), Ok(vec![1, 1]));
}

#[test]
fn package_merge_takes_weights_of_any_size() {
    assert_eq!(bounded_huffman(15, &[1 << 30]), Ok(vec![1]));
    assert_eq!(bounded_huffman(2, &[i32::MAX, i32::MAX, i32::MAX]), Ok(vec![2, 2, 1]));
    let heavy = vec![i32::MAX; 40];
    let lengths = bounded_huffman(31, &heavy).unwrap();
    assert!(kraft_holds(&lengths, 31));
}

#[test]
fn package_merge_refuses_too_many_symbols() {
    assert_eq!(bounded_huffman(1, &[1, 1, 1]), Err(DeflateError::InfeasibleHuffman));
    assert_eq!(bounded_huffman(2, &[1, 2, 3, 4, 5]), Err(DeflateError::InfeasibleHuffman));
    assert!(bounded_huffman(3, &[1, 2, 3, 4, 5]).is_ok());
}

#[test]
fn package_merge_keeps_the_limit_and_krafts_inequality() {
    let mut state: u32 = 12345;
    for n in 1..60usize {
        let mut weights = Vec::new();
        for _ in 0..n {
            state = state.wrapping_mul(1103515245).wrapping_add(12345);
            weights.push(((state >> 16) % 1000 + 1) as i32);
        }
        for limit in [6, 7, 9, 15] {
            let lengths = bounded_huffman(limit, &weights).unwrap();
            assert_eq!(lengths.len(), n);
            assert!(kraft_holds(&lengths, limit), "{:?} -> {:?}", weights, lengths);
        }
    }
    let skewed: Vec<i32> = (0..20).map(|i| 1 << i).collect();
    let lengths = bounded_huffman(5, &skewed).unwrap();
    assert!(kraft_holds(&lengths, 5));
    assert!(lengths.iter().all(|l| *l <= 5));
}

#[test]
fn a_package_adds_weights_and_keeps_the_deeper_level() {
    let a = Coin { weight: 3, levels: vec![0, 2, 5] };
    let b = Coin { weight: 4, levels: vec![1, 0, 3] };
    let package = merge_coins(&a, &b);
    assert_eq!(package.weight, 7);
    assert_eq!(package.levels, vec![1, 2, 5]);
}

fn keyed(pairs: &[(i32, i32)]) -> Vec<(ComparedElement<char>, i32)> {
    pairs
        .iter()
        .map(|(key, length)| (ComparedElement::new((b'a' + *key as u8) as char, *key), *length))
        .collect()
}

fn bits_of(text: &str) -> Vec<bool> {
    text.chars().map(|c| c == '1').collect()
}

#[test]
fn canonical_codes_count_up_and_shift() {
    let book = huffman_lengths_to_bin_code(keyed(&[(1, 1), (0, 2), (2, 3), (3, 3)])).unwrap();
    let codes: Vec<Vec<bool>> = book.entries.iter().map(|e| e.code.clone()).collect();
    assert_eq!(codes, vec![bits_of("0"), bits_of("10"), bits_of("110"), bits_of("111")]);
    assert_eq!(book.get(0), Some(&bits_of("10")));
    assert_eq!(book.get(3), Some(&bits_of("111")));
    assert_eq!(book.get(4), None);
    assert_eq!(book.find(&bits_of("110")).map(|s| s.value), Some('c'));
    assert_eq!(book.find(&bits_of("11")).map(|s| s.value), None);
    assert_eq!(book.find(&Vec::new()).map(|s| s.value), None);
}

#[test]
fn canonical_codes_skip_two_lengths_at_once() {
    let book = huffman_lengths_to_bin_code(keyed(&[(0, 1), (1, 3), (2, 3)])).unwrap();
    let codes: Vec<Vec<bool>> = book.entries.iter().map(|e| e.code.clone()).collect();
    assert_eq!(codes, vec![bits_of("0"), bits_of("100"), bits_of("101")]);
}

#[test]
fn symbols_of_length_zero_get_the_empty_code() {
    let book = huffman_lengths_to_bin_code(keyed(&[(0, 0), (1, 0), (2, 1), (3, 1)])).unwrap();
    let codes: Vec<Vec<bool>> = book.entries.iter().map(|e| e.code.clone()).collect();
    assert_eq!(codes, vec![bits_of(""), bits_of(""), bits_of("0"), bits_of("1")]);
    assert_eq!(book.find(&Vec::new()).map(|s| s.value), Some('b'));
    let empty = huffman_lengths_to_bin_code(keyed(&[])).unwrap();
    assert!(empty.entries.is_empty());
}

#[test]
fn a_code_that_overflows_wraps_round() {
    let book = huffman_lengths_to_bin_code(keyed(&[(0, 1), (1, 1), (2, 1)])).unwrap();
    let codes: Vec<Vec<bool>> = book.entries.iter().map(|e| e.code.clone()).collect();
    assert_eq!(codes, vec![bits_of("0"), bits_of("1"), bits_of("0")]);
    assert_eq!(book.find(&bits_of("0")).map(|s| s.value), Some('c'));
}

#[test]
fn canonical_codes_refuse_lengths_that_decrease() {
    assert_eq!(
        huffman_lengths_to_bin_code(keyed(&[(0, 2), (1, 1)])).map(|b| b.entries.len()),
        Err(DeflateError::UnsortedLengths)
    );
    assert_eq!(
        huffman_lengths_to_bin_code(keyed(&[(0, 1), (1, 2), (2, 0)])).map(|b| b.entries.len()),
        Err(DeflateError::UnsortedLengths)
    );
}

#[test]
fn lengths_are_sorted_by_length_then_key() {
    let mut pairs = keyed(&[(5, 3), (1, 2), (7, 1), (0, 3), (2, 2)]);
    sort_huffman_lengths(&mut pairs);
    let order: Vec<(i32, i32)> = pairs.iter().map(|p| (p.0.sorting_value, p.1)).collect();
    assert_eq!(order, vec![(7, 1), (1, 2), (2, 2), (0, 3), (5, 3)]);
    let mut same = vec![
        (ComparedElement::new('x', 4), 2),
        (ComparedElement::new('y', 4), 2),
        (ComparedElement::new('z', 4), 1),
    ];
    sort_huffman_lengths(&mut same);
    let values: Vec<char> = same.iter().map(|p| p.0.value).collect();
    assert_eq!(values, vec!['z', 'x', 'y']);
}

fn is_prefix(a: &[bool], b: &[bool]) -> bool {
    a.len() <= b.len() && &b[..a.len()] == a
}

#[test]
fn the_code_of_a_text_is_a_prefix_code() {
    let text = b"she sells sea shells by the sea shore";
    let data: Vec<ComparedElement<u8>> =
        text.iter().map(|b| ComparedElement::new(*b, *b as i32)).collect();
    for limit in [4, 5, 15] {
        let (book, lengths) = huffman_encoding(limit, 256, &data).unwrap();
        assert_eq!(lengths.len(), 256);
        for (i, a) in book.entries.iter().enumerate() {
            assert_eq!(a.code.len() as i32, lengths[a.symbol.sorting_value as usize]);
            assert!(a.code.len() as i32 <= limit && !a.code.is_empty());
            for (j, b) in book.entries.iter().enumerate() {
                if i != j {
                    assert!(!is_prefix(&a.code, &b.code));
                }
            }
        }
        for b in text {
            assert!(book.get(*b as i32).is_some());
            assert!(lengths[*b as usize] > 0);
        }
        assert_eq!(lengths[b'z' as usize], 0);
        assert_eq!(book.get(b'z' as i32), None);
    }
    assert_eq!(
        huffman_encoding(3, 256, &data).map(|c| c.1),
        Err(DeflateError::InfeasibleHuffman)
    );
}

#[test]
fn the_code_of_two_symbols() {
    let data = vec![
        ComparedElement::new('b', 1),
        ComparedElement::new('a', 0),
        ComparedElement::new('b', 1),
    ];
    let (book, lengths) = huffman_encoding(15, 3, &data).unwrap();
    assert_eq!(lengths, vec![1, 1, 0]);
    assert_eq!(book.get(0), Some(&vec![false]));
    assert_eq!(book.get(1), Some(&vec![true]));
    let (empty, none) = huffman_encoding(15, 3, &[] as &[ComparedElement<char>]).unwrap();
    assert!(empty.entries.is_empty());
    assert_eq!(none, vec![0, 0, 0]);
}

fn decode_lengths(symbols: &[DeflateLength]) -> Vec<i32> {
    let mut lengths: Vec<i32> = Vec::new();
    for symbol in symbols {
        match symbol {
            SimpleLength(v) => lengths.push(*v as i32),
            RetryPrevious(c) => {
                let previous = *lengths.last().unwrap();
                for _ in 0..*c {
                    lengths.push(previous);
                }
            }
            RetryZero(c) | BigRetryZero(c) => {
                for _ in 0..*c {
                    lengths.push(0);
                }
            }
        }
    }
    lengths
}

#[test]
fn runs_of_code_lengths() {
    assert_eq!(encoding_sequence_length(&[]), vec![]);
    assert_eq!(encoding_sequence_length(&[4]), vec![SimpleLength(4)]);
    assert_eq!(
        encoding_sequence_length(&[1, 0, 0, 0, 2]),
        vec![SimpleLength(1), RetryZero(3), SimpleLength(2)]
    );
    assert_eq!(
        encoding_sequence_length(&[0, 0, 5]),
        vec![SimpleLength(0), SimpleLength(0), SimpleLength(5)]
    );
    assert_eq!(encoding_sequence_length(&[3, 3, 3, 3]), vec![SimpleLength(3), RetryPrevious(3)]);
    assert_eq!(
        encoding_sequence_length(&[3, 3, 3]),
        vec![SimpleLength(3), SimpleLength(3), SimpleLength(3)]
    );
    assert_eq!(
        encoding_sequence_length(&[3; 8]),
        vec![SimpleLength(3), RetryPrevious(6), SimpleLength(3)]
    );
    assert_eq!(
        encoding_sequence_length(&[3; 14]),
        vec![SimpleLength(3), RetryPrevious(6), RetryPrevious(6), SimpleLength(3)]
    );
    let mut eleven = vec![0; 11];
    eleven.push(1);
    assert_eq!(
        encoding_sequence_length(&eleven),
        vec![RetryZero(10), SimpleLength(0), SimpleLength(1)]
    );
    let mut twelve = vec![0; 12];
    twelve.push(1);
    assert_eq!(encoding_sequence_length(&twelve), vec![BigRetryZero(12), SimpleLength(1)]);
    let mut many = vec![0; 139];
    many.push(1);
    assert_eq!(
        encoding_sequence_length(&many),
        vec![BigRetryZero(138), SimpleLength(0), SimpleLength(1)]
    );
    let mut more = vec![0; 150];
    more.push(1);
    assert_eq!(
        encoding_sequence_length(&more),
        vec![BigRetryZero(138), BigRetryZero(12), SimpleLength(1)]
    );
    let mut long = vec![0; 300];
    long.push(15);
    assert_eq!(
        encoding_sequence_length(&long),
        vec![BigRetryZero(138), BigRetryZero(138), BigRetryZero(24), SimpleLength(15)]
    );
}

#[test]
fn zeros_at_the_end_are_written_too() {
    assert_eq!(encoding_sequence_length(&[1, 0, 0, 0]), vec![SimpleLength(1), RetryZero(3)]);
    assert_eq!(encoding_sequence_length(&[0, 0, 0]), vec![RetryZero(3)]);
    assert_eq!(encoding_sequence_length(&[0]), vec![SimpleLength(0)]);
    assert_eq!(encoding_sequence_length(&[1, 0]), vec![SimpleLength(1), SimpleLength(0)]);
    assert_eq!(encoding_sequence_length(&[7, 0, 0, 0, 0, 0]), vec![SimpleLength(7), RetryZero(5)]);
    let mut tail = vec![3, 3];
    tail.extend_from_slice(&[0; 29]);
    assert_eq!(
        encoding_sequence_length(&tail),
        vec![SimpleLength(3), SimpleLength(3), BigRetryZero(29)]
    );
    for lengths in [vec![1, 0, 0, 0], vec![0; 200], vec![5, 5, 5, 5, 0, 0], vec![0, 0, 9, 0]] {
        assert_eq!(decode_lengths(&encoding_sequence_length(&lengths)), lengths);
    }
}

#[test]
fn runs_of_code_lengths_are_read_back() {
    let mut state: u32 = 99;
    for round in 0..200 {
        let mut lengths = Vec::new();
        let len = 1 + round % 60;
        while lengths.len() < len {
            state = state.wrapping_mul(1664525).wrapping_add(1013904223);
            let value = ((state >> 20) % 4) as i32 * 5;
            let run = 1 + ((state >> 8) % 20) as usize;
            for _ in 0..run {
                lengths.push(value);
            }
        }
        let symbols = encoding_sequence_length(&lengths);
        assert_eq!(decode_lengths(&symbols), lengths);
        assert!(symbols.len() <= lengths.len());
    }
}
