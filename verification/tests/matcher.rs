use dzip::lz77::{encoding_lz77, Lz77Element, Lz77ReferenceElement};

#[test]
fn the_matcher_looks_at_the_ten_newest_positions() {
    let mut data = Vec::new();
    data.extend_from_slice(b"abcXYZW");
    for i in 0..11u8 {
        data.extend_from_slice(b"abc");
        data.push(b'0' + i);
    }
    data.extend_from_slice(b"abcXYZW");
    let elements = encoding_lz77(&data);
    let last = elements.last().unwrap();
    assert_ne!(
        *last,
        Lz77Element::ReferenceValue(Lz77ReferenceElement { offset: 51, count: 7 })
    );
    let mut near = Vec::new();
    near.extend_from_slice(b"abcXYZW");
    for i in 0..9u8 {
        near.extend_from_slice(b"abc");
        near.push(b'0' + i);
    }
    near.extend_from_slice(b"abcXYZW");
    let elements = encoding_lz77(&near);
    assert_eq!(
        *elements.last().unwrap(),
        Lz77Element::ReferenceValue(Lz77ReferenceElement { offset: 43, count: 7 })
    );
}

#[test]
fn of_two_longest_matches_the_newer_wins() {
    let elements = encoding_lz77(&b"abcd-abcd+abcd".to_vec());
    assert_eq!(
        *elements.last().unwrap(),
        Lz77Element::ReferenceValue(Lz77ReferenceElement { offset: 5, count: 4 })
    );
}

#[test]
fn a_match_is_at_most_258_bytes_and_within_the_window() {
    let elements = encoding_lz77(&vec![9u8; 600]);
    assert_eq!(
        elements,
        vec![
            Lz77Element::SimpleValue(9),
            Lz77Element::ReferenceValue(Lz77ReferenceElement { offset: 1, count: 258 }),
            Lz77Element::ReferenceValue(Lz77ReferenceElement { offset: 258, count: 258 }),
            Lz77Element::ReferenceValue(Lz77ReferenceElement { offset: 258, count: 83 }),
        ]
    );
    let mut state: u32 = 7;
    let mut data = b"needle!".to_vec();
    while data.len() < 32768 + 7 {
        state = state.wrapping_mul(1103515245).wrapping_add(12345);
        data.push(((state >> 16) % 26) as u8 + b'A');
    }
    let mut inside = data[..32768].to_vec();
    inside.extend_from_slice(b"needle!");
    assert_eq!(
        *encoding_lz77(&inside).last().unwrap(),
        Lz77Element::ReferenceValue(Lz77ReferenceElement { offset: 32768, count: 7 })
    );
    let mut outside = data[..32769].to_vec();
    outside.extend_from_slice(b"needle!");
    let elements = encoding_lz77(&outside);
    assert_eq!(elements[elements.len() - 7..].to_vec(), b"needle!".iter().map(|b| Lz77Element::SimpleValue(*b)).collect::<Vec<_>>());
}

#[test]
fn the_last_two_bytes_are_literals() {
    let elements = encoding_lz77(&b"abcab".to_vec());
    assert_eq!(
        elements,
        b"abcab".iter().map(|b| Lz77Element::SimpleValue(*b)).collect::<Vec<_>>()
    );
}
