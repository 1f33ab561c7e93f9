use dzip::bin_num::{bin_to_num, to_bin, to_const_size_bin};
use dzip::compared_element::ComparedElement;
use dzip::error::DeflateError;
use dzip::lz77::{Lz77Element, Lz77ReferenceElement};
use dzip::symbols::{
    deflate_len_to_compared, get_deflate_copy_length, lz77_elem_to_compared_deflate_elem_type,
    to_compared_deflate_element_type, DeflateElementType, DeflateLength, DeflateOffset,
};
use std::collections::hash_map::DefaultHasher;
use std::collections::HashSet;
use std::hash::{Hash, Hasher};

#[test]
fn minimal_bits_of_small_numbers() {
    assert_eq!(to_bin(0), vec![false]);
    assert_eq!(to_bin(1), vec![true]);
    assert_eq!(to_bin(2), vec![true, false]);
    assert_eq!(to_bin(5), vec![true, false, true]);
    assert_eq!(to_bin(256), [vec![true], vec![false; 8]].concat());
    assert_eq!(to_bin(i32::MAX), vec![true; 31]);
}

#[test]
fn fixed_width_bits_are_padded_on_the_left() {
    assert_eq!(to_const_size_bin(5, 5), Some(vec![false, false, true, false, true]));
    assert_eq!(to_const_size_bin(5, 3), Some(vec![true, false, true]));
    assert_eq!(to_const_size_bin(0, 4), Some(vec![false; 4]));
    assert_eq!(to_const_size_bin(0, 1), Some(vec![false]));
}

#[test]
fn fixed_width_bits_fail_when_the_number_does_not_fit() {
    assert_eq!(to_const_size_bin(8, 3), None);
    assert_eq!(to_const_size_bin(5, 2), None);
    assert_eq!(to_const_size_bin(0, 0), None);
    assert_eq!(to_const_size_bin(1, -1), None);
}

#[test]
fn bits_are_read_most_significant_first() {
    assert_eq!(bin_to_num(&[]), 0);
    assert_eq!(bin_to_num(&[true, false, true]), 5);
    assert_eq!(bin_to_num(&[false, false, true, true]), 3);
    assert_eq!(bin_to_num(&vec![true; 31]), i32::MAX);
    for n in [0, 1, 2, 3, 17, 255, 256, 65535, 1 << 20] {
        assert_eq!(bin_to_num(&to_bin(n)), n);
        assert_eq!(bin_to_num(&to_const_size_bin(n, 24).unwrap()), n);
    }
}

fn hash_of<T: Hash>(value: &T) -> u64 {
    let mut hasher = DefaultHasher::new();
    value.hash(&mut hasher);
    hasher.finish()
}

#[test]
fn keyed_elements_compare_by_key_alone() {
    let a = ComparedElement::new("apple", 3);
    let b = ComparedElement::new("banana", 3);
    let c = ComparedElement::new("apple", 4);
    assert_eq!(a.value, "apple");
    assert_eq!(a.sorting_value, 3);
    assert!(a == b);
    assert!(a != c);
    assert!(a < c);
    assert!(c > b);
    assert!(a <= b && a >= b);
    assert_eq!(a.partial_cmp(&c), Some(std::cmp::Ordering::Less));
    assert_eq!(hash_of(&a), hash_of(&b));
    assert_eq!(hash_of(&a), hash_of(&3i32));
    let mut set = HashSet::new();
    set.insert(a);
    assert!(!set.insert(b));
    assert!(set.insert(c));
}

#[test]
fn distance_symbols_follow_the_table() {
    let cases: [(u16, u8, u16, u8); 14] = [
        (1, 0, 0, 0),
        (2, 1, 0, 0),
        (4, 3, 0, 0),
        (5, 4, 0, 1),
        (6, 4, 1, 1),
        (7, 5, 0, 1),
        (8, 5, 1, 1),
        (9, 6, 0, 2),
        (12, 6, 3, 2),
        (13, 7, 0, 2),
        (24576, 28, 8191, 13),
        (24577, 29, 0, 13),
        (16385, 28, 0, 13),
        (32768, 29, 8191, 13),
    ];
    for (distance, main, extra, width) in cases {
        let symbol = DeflateOffset::new(distance);
        assert_eq!(symbol.main_value, main, "symbol of {}", distance);
        assert_eq!(symbol.additional_bits, extra, "extra of {}", distance);
        assert_eq!(symbol.get_number_additional_bits(), width, "width of {}", distance);
    }
}

#[test]
fn distance_bases_follow_the_table() {
    let bases: [u16; 30] = [
        1, 2, 3, 4, 5, 7, 9, 13, 17, 25, 33, 49, 65, 97, 129, 193, 257, 385, 513, 769, 1025, 1537,
        2049, 3073, 4097, 6145, 8193, 12289, 16385, 24577,
    ];
    for (main, base) in bases.iter().enumerate() {
        let symbol = DeflateOffset { main_value: main as u8, additional_bits: 0 };
        assert_eq!(symbol.get_base_offset(), *base);
    }
}

#[test]
fn every_distance_is_found_again_from_its_symbol() {
    for distance in 1..=32768u32 {
        let symbol = DeflateOffset::new(distance as u16);
        assert!(symbol.main_value <= 29);
        assert!((symbol.additional_bits as u32) < (1 << symbol.get_number_additional_bits()));
        assert_eq!(
            symbol.get_base_offset() as u32 + symbol.additional_bits as u32,
            distance
        );
    }
}

fn reference(count: u16) -> Lz77Element {
    Lz77Element::ReferenceValue(Lz77ReferenceElement { offset: 1, count })
}

#[test]
fn every_length_is_found_again_from_its_symbol() {
    for count in 3..=258u16 {
        let keyed = lz77_elem_to_compared_deflate_elem_type(&reference(count)).unwrap();
        assert!(keyed.sorting_value >= 257 && keyed.sorting_value <= 285);
        assert_eq!(get_deflate_copy_length(&keyed.value), count);
        let width = keyed.value.get_number_additional_bits();
        if width != 0 {
            assert!((keyed.value.get_additional_bits() as u32) < (1 << width));
        }
    }
}

#[test]
fn length_symbols_follow_the_table() {
    let cases = [
        (3u16, DeflateElementType::LengthMatch(257), 0u8),
        (10, DeflateElementType::LengthMatch(264), 0),
        (11, DeflateElementType::LengthMatchWithAdd(265, 0), 1),
        (12, DeflateElementType::LengthMatchWithAdd(265, 1), 1),
        (18, DeflateElementType::LengthMatchWithAdd(268, 1), 1),
        (19, DeflateElementType::LengthMatchWithBinAdd(269, 0), 2),
        (34, DeflateElementType::LengthMatchWithBinAdd(272, 3), 2),
        (35, DeflateElementType::LengthMatchWithThirdAdd(273, 0), 3),
        (66, DeflateElementType::LengthMatchWithThirdAdd(276, 7), 3),
        (67, DeflateElementType::LengthMatchWithFourthAdd(277, 0), 4),
        (130, DeflateElementType::LengthMatchWithFourthAdd(280, 15), 4),
        (131, DeflateElementType::LengthMatchWithFifthAdd(281, 0), 5),
        (257, DeflateElementType::LengthMatchWithFifthAdd(284, 30), 5),
        (258, DeflateElementType::MaxMatchLength, 0),
    ];
    for (count, expected, width) in cases {
        let keyed = lz77_elem_to_compared_deflate_elem_type(&reference(count)).unwrap();
        assert_eq!(keyed.value, expected);
        assert_eq!(keyed.value.get_number_additional_bits(), width);
    }
    let literal = lz77_elem_to_compared_deflate_elem_type(&Lz77Element::SimpleValue(65)).unwrap();
    assert_eq!(literal.value, DeflateElementType::JustElement(65));
    assert_eq!(literal.sorting_value, 65);
}

#[test]
fn a_reference_of_no_match_length_is_refused() {
    for count in [0u16, 1, 2, 259, 1000, u16::MAX] {
        assert_eq!(
            lz77_elem_to_compared_deflate_elem_type(&reference(count)).map(|k| k.sorting_value),
            Err(DeflateError::InvalidSymbol)
        );
    }
}

#[test]
fn symbols_are_made_from_their_index() {
    assert_eq!(
        to_compared_deflate_element_type(0, 9).unwrap().value,
        DeflateElementType::JustElement(0)
    );
    assert_eq!(
        to_compared_deflate_element_type(255, 0).unwrap().value,
        DeflateElementType::JustElement(255)
    );
    assert_eq!(
        to_compared_deflate_element_type(256, 0).unwrap().value,
        DeflateElementType::EndBlock
    );
    assert_eq!(
        to_compared_deflate_element_type(266, 1).unwrap().value,
        DeflateElementType::LengthMatchWithAdd(266, 1)
    );
    assert_eq!(
        to_compared_deflate_element_type(284, 31).unwrap().value,
        DeflateElementType::LengthMatchWithFifthAdd(284, 31)
    );
    assert_eq!(
        to_compared_deflate_element_type(285, 0).unwrap().value,
        DeflateElementType::MaxMatchLength
    );
    for id in 0..=285 {
        assert_eq!(to_compared_deflate_element_type(id, 0).unwrap().sorting_value, id);
    }
    for id in [-1, 286, 300, i32::MAX, i32::MIN] {
        assert_eq!(
            to_compared_deflate_element_type(id, 0).map(|k| k.sorting_value),
            Err(DeflateError::InvalidSymbol)
        );
    }
}

#[test]
fn copy_lengths_follow_the_formula() {
    let cases = [
        (DeflateElementType::LengthMatch(257), 3u16),
        (DeflateElementType::LengthMatch(264), 10),
        (DeflateElementType::LengthMatchWithAdd(267, 1), 16),
        (DeflateElementType::LengthMatchWithBinAdd(270, 2), 25),
        (DeflateElementType::LengthMatchWithThirdAdd(275, 5), 56),
        (DeflateElementType::LengthMatchWithFourthAdd(278, 9), 92),
        (DeflateElementType::LengthMatchWithFifthAdd(283, 17), 212),
        (DeflateElementType::LengthMatchWithFifthAdd(284, 31), 258),
        (DeflateElementType::MaxMatchLength, 258),
    ];
    for (symbol, length) in cases {
        assert_eq!(get_deflate_copy_length(&symbol), length);
    }
}

#[test]
fn code_length_symbols_are_keyed_by_their_index() {
    assert_eq!(deflate_len_to_compared(DeflateLength::SimpleLength(0)).sorting_value, 0);
    assert_eq!(deflate_len_to_compared(DeflateLength::SimpleLength(15)).sorting_value, 15);
    assert_eq!(deflate_len_to_compared(DeflateLength::RetryPrevious(4)).sorting_value, 16);
    assert_eq!(deflate_len_to_compared(DeflateLength::RetryZero(7)).sorting_value, 17);
    assert_eq!(deflate_len_to_compared(DeflateLength::BigRetryZero(100)).sorting_value, 18);
    assert_eq!(
        deflate_len_to_compared(DeflateLength::RetryZero(7)).value,
        DeflateLength::RetryZero(7)
    );
}
