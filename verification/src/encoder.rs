use vstd::prelude::*;
use vstd::slice::slice_subrange;
use crate::bin_num::{fixed_bits, pow2, to_const_size_bin};
use crate::canonical::{CodeBook, CodeModel};
use crate::code_lengths::encoding_sequence_length;
use crate::coding::{
    huffman_encoding, keys_of, lemma_positive_weights, lemma_count_of, symbol_counts,
    symbols_in_use,
};
use crate::compared_element::ComparedElement;
use crate::error::DeflateError;
use crate::format::{
    block_bits, block_offsets, block_plan, block_symbols, code_word, concat_bits, element_bits,
    header_bits, keyed_element, keyed_length, keyed_lengths, keyed_offset, largest_key,
    lemma_concat_bits_push, length_order, length_symbol_bits, length_symbol_extra, order_bits,
    ordered_symbol, trimmed_count, BLOCK_SIZE, MAX_CODE_LENGTH, MAX_LENGTH_CODE_LENGTH,
};
use crate::huffman::{larger, lengths_as_ints};
use crate::lz77::Lz77Element;
use crate::symbols::{
    deflate_len_to_compared, distance_extra, distance_extra_bits, distance_main, element_type_of,
    lemma_distance_inverse, lemma_length_inverse, length_extra, length_extra_bits, length_symbol,
    lz77_elem_to_compared_deflate_elem_type, DeflateElementType, DeflateLength, DeflateOffset,
};

verus! {

/// Appends the bits.
pub fn append_bits(out: &mut Vec<bool>, bits: &Vec<bool>)
    ensures
        final(out)@ == old(out)@ + bits@,
{
    let ghost before = out@;
    let mut i: usize = 0;
    assert(before + bits@.subrange(0, 0) =~= before);
    while i < bits.len()
        invariant
            i <= bits.len(),
            out@ == before + bits@.subrange(0, i as int),
        decreases bits.len() - i,
    {
        out.push(bits[i]);
        i += 1;
        assert(out@ =~= before + bits@.subrange(0, i as int));
    }
    assert(bits@.subrange(0, i as int) =~= bits@);
}

/// Appends `value` in `width` bits, most significant first.
pub fn append_number(out: &mut Vec<bool>, value: i32, width: i32)
    requires
        0 <= width,
        0 <= value < pow2(width as nat),
    ensures
        final(out)@ == old(out)@ + fixed_bits(value as nat, width as nat),
{
    if width == 0 {
        assert(out@ + fixed_bits(value as nat, 0) =~= out@);
        return ;
    }
    match to_const_size_bin(value, width) {
        Some(bits) => {
            append_bits(out, &bits);
        },
        None => {},
    }
}

/// The largest key of the code, or `floor` where that is larger.
pub fn largest_book_key<T: Copy>(book: &CodeBook<T>, floor: i32) -> (largest: i32)
    ensures
        largest == largest_key(book.model(), floor as int),
{
    let ghost model = book.model();
    let mut largest: i32 = floor;
    let mut i: usize = 0;
    assert(model.subrange(0, 0) =~= Seq::empty());
    while i < book.entries.len()
        invariant
            i <= book.entries.len(),
            model == book.model(),
            largest == largest_key(model.subrange(0, i as int), floor as int),
        decreases book.entries.len() - i,
    {
        proof {
            let head = model.subrange(0, i + 1);
            assert(head.drop_last() =~= model.subrange(0, i as int));
            assert(head.last() == model[i as int]);
        }
        let key: i32 = book.entries[i].symbol.sorting_value;
        if key > largest {
            largest = key;
        }
        i += 1;
    }
    assert(model.subrange(0, i as int) =~= model);
    largest
}

/// The largest key lies between the floor and any bound on the keys.
pub proof fn lemma_largest_key(model: CodeModel, floor: int, bound: int)
    requires
        forall|i: int| 0 <= i < model.len() ==> (#[trigger] model[i]).0 < bound,
        floor < bound,
    ensures
        floor <= largest_key(model, floor) < bound,
    decreases model.len(),
{
    if model.len() > 0 {
        let front = model.drop_last();
        assert forall|i: int| 0 <= i < front.len() implies (#[trigger] front[i]).0 < bound by {
            assert(front[i] == model[i]);
        }
        lemma_largest_key(front, floor, bound);
        assert(model.last() == model[model.len() - 1]);
    }
}

/// How many code lengths of the code-length alphabet are sent, less four.
pub fn trim_length_count(cl_lengths: &Vec<i32>) -> (count: usize)
    requires
        cl_lengths.len() == 19,
    ensures
        count == trimmed_count(lengths_as_ints(cl_lengths@), 15),
        count <= 15,
{
    let ghost lengths = lengths_as_ints(cl_lengths@);
    let mut count: usize = 15;
    while count > 0 && cl_lengths[ordered_symbol(count + 3)] == 0
        invariant
            count <= 15,
            cl_lengths.len() == 19,
            lengths == lengths_as_ints(cl_lengths@),
            trimmed_count(lengths, 15) == trimmed_count(lengths, count as int),
        decreases count,
    {
        proof {
            let symbol = length_order()[count + 3];
            assert(lengths[symbol] == cl_lengths[symbol]);
        }
        count -= 1;
    }
    proof {
        if count > 0 {
            let symbol = length_order()[count + 3];
            assert(lengths[symbol] == cl_lengths[symbol]);
        }
    }
    count
}

/// Appends the first `count` code lengths of the code-length alphabet, in
/// the order in which they are sent.
pub fn write_order(out: &mut Vec<bool>, cl_lengths: &Vec<i32>, count: usize)
    requires
        cl_lengths.len() == 19,
        count <= 19,
        forall|s: int| 0 <= s < 19 ==> 0 <= #[trigger] cl_lengths[s] <= 7,
    ensures
        final(out)@ == old(out)@ + order_bits(lengths_as_ints(cl_lengths@), count as int),
{
    let ghost before = out@;
    let ghost lengths = lengths_as_ints(cl_lengths@);
    let mut k: usize = 0;
    assert(before + order_bits(lengths, 0) =~= before);
    while k < count
        invariant
            k <= count <= 19,
            cl_lengths.len() == 19,
            lengths == lengths_as_ints(cl_lengths@),
            forall|s: int| 0 <= s < 19 ==> 0 <= #[trigger] cl_lengths[s] <= 7,
            out@ == before + order_bits(lengths, k as int),
        decreases count - k,
    {
        let symbol = ordered_symbol(k);
        let length: i32 = cl_lengths[symbol];
        proof {
            assert(lengths[symbol as int] == length);
            assert(pow2(3) == 8) by {
                reveal_with_fuel(pow2, 4);
            }
            assert(before + (order_bits(lengths, k as int) + fixed_bits(length as nat, 3)) =~= (
            before + order_bits(lengths, k as int)) + fixed_bits(length as nat, 3));
        }
        append_number(out, length, 3);
        k += 1;
    }
}

/// Appends the code-length symbols: for each its code word and its extra
/// bits.
pub fn write_stream(
    out: &mut Vec<bool>,
    cl_book: &CodeBook<DeflateLength>,
    stream: &Vec<DeflateLength>,
)
    requires
        forall|k: int| 0 <= k < stream.len() ==> (#[trigger] stream[k]).well_formed(),
        forall|k: int|
            0 <= k < stream.len() ==> cl_book.code_of((#[trigger] stream[k]).symbol()) is Some,
    ensures
        final(out)@ == old(out)@ + concat_bits(stream@, length_symbol_bits(cl_book.model())),
{
    let ghost before = out@;
    let ghost bits_of = length_symbol_bits(cl_book.model());
    let mut k: usize = 0;
    assert(stream@.subrange(0, 0) =~= Seq::<DeflateLength>::empty());
    assert(before + concat_bits(stream@.subrange(0, 0), bits_of) =~= before);
    while k < stream.len()
        invariant
            k <= stream.len(),
            bits_of == length_symbol_bits(cl_book.model()),
            forall|j: int| 0 <= j < stream.len() ==> (#[trigger] stream[j]).well_formed(),
            forall|j: int|
                0 <= j < stream.len() ==> cl_book.code_of((#[trigger] stream[j]).symbol()) is Some,
            out@ == before + concat_bits(stream@.subrange(0, k as int), bits_of),
        decreases stream.len() - k,
    {
        let symbol = stream[k];
        let keyed = deflate_len_to_compared(symbol);
        let ghost head = stream@.subrange(0, k as int);
        let ghost written = out@;
        proof {
            assert(stream@.subrange(0, k + 1) =~= head.push(symbol));
            lemma_concat_bits_push(head, symbol, bits_of);
            assert(symbol.well_formed());
            assert(cl_book.code_of(symbol.symbol()) is Some);
            reveal_with_fuel(pow2, 8);
        }
        match cl_book.get(keyed.sorting_value) {
            Some(code) => {
                append_bits(out, code);
            },
            None => {},
        }
        assert(out@ == written + code_word(cl_book.model(), symbol.symbol()));
        match symbol {
            DeflateLength::RetryPrevious(c) => {
                append_number(out, c as i32 - 3, 2);
            },
            DeflateLength::RetryZero(c) => {
                append_number(out, c as i32 - 3, 3);
            },
            DeflateLength::BigRetryZero(c) => {
                append_number(out, c as i32 - 11, 7);
            },
            DeflateLength::SimpleLength(_) => {},
        }
        proof {
            let word = code_word(cl_book.model(), symbol.symbol());
            let extra = length_symbol_extra(symbol);
            assert(out@ =~= written + (word + extra));
            assert(before + (concat_bits(head, bits_of) + (word + extra)) =~= (before
                + concat_bits(head, bits_of)) + (word + extra));
        }
        k += 1;
    }
    assert(stream@.subrange(0, k as int) =~= stream@);
}

/// Every reference of the block has its distance symbol among the block's
/// distance symbols.
pub proof fn lemma_block_offsets(elements: Seq<Lz77Element>, k: int)
    requires
        0 <= k < elements.len(),
        elements[k] is ReferenceValue,
    ensures
        exists|j: int|
            0 <= j < block_offsets(elements).len() && #[trigger] block_offsets(elements)[j]
                == keyed_offset(elements[k]->ReferenceValue_0.offset as int),
    decreases elements.len(),
{
    let front = elements.drop_last();
    let all = block_offsets(elements);
    if k < elements.len() - 1 {
        lemma_block_offsets(front, k);
        let j = choose|j: int|
            0 <= j < block_offsets(front).len() && #[trigger] block_offsets(front)[j]
                == keyed_offset(front[k]->ReferenceValue_0.offset as int);
        assert(all[j] == block_offsets(front)[j]);
    } else {
        assert(elements.last() == elements[k]);
        assert(all[all.len() - 1] == keyed_offset(elements[k]->ReferenceValue_0.offset as int));
    }
}

/// The block's distance symbols are symbols of the distance alphabet, and
/// there are no more of them than elements.
pub proof fn lemma_block_offsets_range(elements: Seq<Lz77Element>)
    requires
        forall|k: int| 0 <= k < elements.len() ==> (#[trigger] elements[k]).well_formed(),
    ensures
        block_offsets(elements).len() <= elements.len(),
        forall|j: int|
            0 <= j < block_offsets(elements).len() ==> 0 <= (#[trigger] block_offsets(
                elements,
            )[j]).sorting_value < 30,
    decreases elements.len(),
{
    if elements.len() > 0 {
        let front = elements.drop_last();
        assert forall|k: int| 0 <= k < front.len() implies (#[trigger] front[k]).well_formed() by {
            assert(front[k] == elements[k]);
        }
        lemma_block_offsets_range(front);
        let last = elements.last();
        assert(last == elements[elements.len() - 1]);
        assert(last.well_formed());
        match last {
            Lz77Element::SimpleValue(_) => {},
            Lz77Element::ReferenceValue(r) => {
                lemma_distance_inverse(r.offset as int);
            },
        }
        let all = block_offsets(elements);
        assert forall|j: int| 0 <= j < all.len() implies 0 <= (#[trigger] all[j]).sorting_value
            < 30 by {
            if j < block_offsets(front).len() {
                assert(all[j] == block_offsets(front)[j]);
            }
        }
    }
}

/// The literal/length symbols and the distance symbols of a block;
/// `Err(InvalidSymbol)` exactly when an element is not well formed.
pub fn collect_symbols(lz77_data: &[Lz77Element]) -> (collected: Result<
    (Vec<ComparedElement<DeflateElementType>>, Vec<ComparedElement<DeflateOffset>>),
    DeflateError,
>)
    requires
        lz77_data.len() < usize::MAX,
    ensures
        collected is Ok <==> forall|k: int|
            0 <= k < lz77_data.len() ==> (#[trigger] lz77_data[k]).well_formed(),
        collected matches Err(e) ==> e == DeflateError::InvalidSymbol,
        collected matches Ok(c) ==> c.0@ == block_symbols(lz77_data@) && c.1@ == block_offsets(
            lz77_data@,
        ),
{
    let mut symbols: Vec<ComparedElement<DeflateElementType>> = Vec::new();
    let mut offsets: Vec<ComparedElement<DeflateOffset>> = Vec::new();
    let mut k: usize = 0;
    assert(lz77_data@.subrange(0, 0) =~= Seq::<Lz77Element>::empty());
    while k < lz77_data.len()
        invariant
            k <= lz77_data.len(),
            forall|j: int| 0 <= j < k ==> (#[trigger] lz77_data[j]).well_formed(),
            symbols.len() == k,
            forall|j: int|
                0 <= j < k ==> #[trigger] symbols[j] == keyed_element(element_type_of(lz77_data[j])),
            offsets@ == block_offsets(lz77_data@.subrange(0, k as int)),
        decreases lz77_data.len() - k,
    {
        let element = lz77_data[k];
        proof {
            let head = lz77_data@.subrange(0, k + 1);
            assert(head.drop_last() =~= lz77_data@.subrange(0, k as int));
            assert(head.last() == element);
        }
        let keyed = match lz77_elem_to_compared_deflate_elem_type(&element) {
            Ok(keyed) => keyed,
            Err(e) => {
                assert(!lz77_data[k as int].well_formed());
                return Err(e);
            },
        };
        match element {
            Lz77Element::SimpleValue(_) => {},
            Lz77Element::ReferenceValue(r) => {
                if r.offset < 1 || r.offset > 32768 {
                    assert(!lz77_data[k as int].well_formed());
                    return Err(DeflateError::InvalidSymbol);
                }
                proof {
                    lemma_distance_inverse(r.offset as int);
                }
                let offset = DeflateOffset::new(r.offset);
                let key: i32 = offset.main_value as i32;
                offsets.push(ComparedElement::new(offset, key));
            },
        }
        symbols.push(keyed);
        k += 1;
    }
    symbols.push(ComparedElement::new(DeflateElementType::EndBlock, 256));
    proof {
        assert(lz77_data@.subrange(0, k as int) =~= lz77_data@);
        assert(symbols@ =~= block_symbols(lz77_data@));
    }
    Ok((symbols, offsets))
}

/// Appends the elements: for a literal its code word; for a reference the
/// code word and extra bits of its length, then those of its distance.
pub fn write_elements(
    out: &mut Vec<bool>,
    lit_book: &CodeBook<DeflateElementType>,
    dist_book: &CodeBook<DeflateOffset>,
    lz77_data: &[Lz77Element],
)
    requires
        forall|k: int| 0 <= k < lz77_data.len() ==> (#[trigger] lz77_data[k]).well_formed(),
        forall|k: int|
            0 <= k < lz77_data.len() ==> lit_book.code_of(
                element_type_of(#[trigger] lz77_data[k]).symbol(),
            ) is Some,
        forall|k: int|
            0 <= k < lz77_data.len() ==> ((#[trigger] lz77_data[k]) matches Lz77Element::ReferenceValue(
                r,
            ) ==> dist_book.code_of(distance_main(r.offset as int)) is Some),
    ensures
        final(out)@ == old(out)@ + concat_bits(
            lz77_data@,
            element_bits(lit_book.model(), dist_book.model()),
        ),
{
    let ghost before = out@;
    let ghost bits_of = element_bits(lit_book.model(), dist_book.model());
    let mut k: usize = 0;
    assert(lz77_data@.subrange(0, 0) =~= Seq::<Lz77Element>::empty());
    assert(before + concat_bits(lz77_data@.subrange(0, 0), bits_of) =~= before);
    while k < lz77_data.len()
        invariant
            k <= lz77_data.len(),
            bits_of == element_bits(lit_book.model(), dist_book.model()),
            forall|j: int| 0 <= j < lz77_data.len() ==> (#[trigger] lz77_data[j]).well_formed(),
            forall|j: int|
                0 <= j < lz77_data.len() ==> lit_book.code_of(
                    element_type_of(#[trigger] lz77_data[j]).symbol(),
                ) is Some,
            forall|j: int|
                0 <= j < lz77_data.len() ==> ((
                #[trigger] lz77_data[j]) matches Lz77Element::ReferenceValue(r)
                    ==> dist_book.code_of(distance_main(r.offset as int)) is Some),
            out@ == before + concat_bits(lz77_data@.subrange(0, k as int), bits_of),
        decreases lz77_data.len() - k,
    {
        let element = lz77_data[k];
        let ghost head = lz77_data@.subrange(0, k as int);
        let ghost written = out@;
        proof {
            assert(lz77_data@.subrange(0, k + 1) =~= head.push(element));
            lemma_concat_bits_push(head, element, bits_of);
            assert(element.well_formed());
            assert(lit_book.code_of(element_type_of(element).symbol()) is Some);
            assert(before + (concat_bits(head, bits_of) + bits_of(element)) =~= (before
                + concat_bits(head, bits_of)) + bits_of(element));
        }
        write_element(out, lit_book, dist_book, &element);
        k += 1;
    }
    assert(lz77_data@.subrange(0, k as int) =~= lz77_data@);
}

/// Appends one element.
pub fn write_element(
    out: &mut Vec<bool>,
    lit_book: &CodeBook<DeflateElementType>,
    dist_book: &CodeBook<DeflateOffset>,
    element: &Lz77Element,
)
    requires
        element.well_formed(),
        lit_book.code_of(element_type_of(*element).symbol()) is Some,
        element matches Lz77Element::ReferenceValue(r) ==> dist_book.code_of(
            distance_main(r.offset as int),
        ) is Some,
    ensures
        final(out)@ == old(out)@ + element_bits(lit_book.model(), dist_book.model())(*element),
{
    let ghost before = out@;
    let keyed = match lz77_elem_to_compared_deflate_elem_type(element) {
        Ok(keyed) => keyed,
        Err(_) => {
            return ;
        },
    };
    match lit_book.get(keyed.sorting_value) {
        Some(code) => {
            append_bits(out, code);
        },
        None => {},
    }
    let ghost word = code_word(lit_book.model(), keyed.sorting_value as int);
    assert(out@ == before + word);
    match element {
        Lz77Element::SimpleValue(_) => {},
        Lz77Element::ReferenceValue(r) => {
            proof {
                lemma_length_inverse(r.count as int);
                lemma_distance_inverse(r.offset as int);
                reveal_with_fuel(pow2, 6);
            }
            let length_bits: u8 = keyed.value.get_number_additional_bits();
            let ghost length_extra_part = fixed_bits(
                length_extra(r.count as int) as nat,
                length_extra_bits(length_symbol(r.count as int)) as nat,
            );
            if length_bits != 0 {
                append_number(out, keyed.value.get_additional_bits() as i32, length_bits as i32);
            } else {
                assert(length_extra_part =~= Seq::<bool>::empty());
                assert(out@ + length_extra_part =~= out@);
            }
            assert(out@ == before + word + length_extra_part);
            let offset = DeflateOffset::new(r.offset);
            let key: i32 = offset.main_value as i32;
            let extra: i32 = offset.additional_bits as i32;
            let offset_bits: u8 = offset.get_number_additional_bits();
            match dist_book.get(key) {
                Some(code) => {
                    append_bits(out, code);
                },
                None => {},
            }
            let ghost offset_word = code_word(dist_book.model(), distance_main(r.offset as int));
            assert(out@ == before + word + length_extra_part + offset_word);
            let ghost offset_extra_part = fixed_bits(
                distance_extra(r.offset as int) as nat,
                distance_extra_bits(distance_main(r.offset as int)) as nat,
            );
            if offset_bits != 0 {
                append_number(out, extra, offset_bits as i32);
            } else {
                assert(offset_extra_part =~= Seq::<bool>::empty());
                assert(out@ + offset_extra_part =~= out@);
            }
            assert(out@ == before + word + length_extra_part + offset_word + offset_extra_part);
        },
    }
}

/// No more different symbols occur than the alphabet has.
pub proof fn lemma_symbols_in_use(keys: Seq<int>, size: nat)
    ensures
        symbols_in_use(keys, size) <= size,
{
    let counts = symbol_counts(keys, size);
    assert forall|s: int| 0 <= s < counts.len() implies #[trigger] counts[s] >= 0 by {
        lemma_count_of(keys, s);
    }
    lemma_positive_weights(counts);
}

/// The code-length symbols under their indices.
fn key_lengths(stream: &Vec<DeflateLength>) -> (keyed: Vec<ComparedElement<DeflateLength>>)
    ensures
        keyed@ == keyed_lengths(stream@),
{
    let mut keyed: Vec<ComparedElement<DeflateLength>> = Vec::new();
    let mut k: usize = 0;
    while k < stream.len()
        invariant
            k <= stream.len(),
            keyed.len() == k,
            forall|j: int| 0 <= j < k ==> #[trigger] keyed[j] == keyed_length(stream[j]),
        decreases stream.len() - k,
    {
        keyed.push(deflate_len_to_compared(stream[k]));
        k += 1;
    }
    assert(keyed@ =~= keyed_lengths(stream@));
    keyed
}

/// Appends the symbols.
fn append_symbols(stream: &mut Vec<DeflateLength>, more: &Vec<DeflateLength>)
    ensures
        final(stream)@ == old(stream)@ + more@,
{
    let ghost before = stream@;
    let mut i: usize = 0;
    assert(before + more@.subrange(0, 0) =~= before);
    while i < more.len()
        invariant
            i <= more.len(),
            stream@ == before + more@.subrange(0, i as int),
        decreases more.len() - i,
    {
        stream.push(more[i]);
        i += 1;
        assert(stream@ =~= before + more@.subrange(0, i as int));
    }
    assert(more@.subrange(0, i as int) =~= more@);
}

/// The codes of a block's elements: the literal/length code with its code
/// lengths, and the distance code with its code lengths.
pub struct ElementCodes {
    pub lit_book: CodeBook<DeflateElementType>,
    pub lit_lengths: Vec<i32>,
    pub dist_book: CodeBook<DeflateOffset>,
    pub dist_lengths: Vec<i32>,
}

impl ElementCodes {
    /// The codes are those that the plan of the block names, and have a code
    /// word for every symbol that the block writes.
    pub open spec fn holds(self, elements: Seq<Lz77Element>) -> bool {
        let plan = block_plan(elements);
        &&& self.lit_book.model() == plan.lit_model
        &&& self.dist_book.model() == plan.dist_model
        &&& lengths_as_ints(self.lit_lengths@) == plan.lit_lengths
        &&& lengths_as_ints(self.dist_lengths@) == plan.dist_lengths
        &&& self.lit_lengths.len() == 286
        &&& self.dist_lengths.len() == 30
        &&& forall|s: int| 0 <= s < 286 ==> 0 <= #[trigger] self.lit_lengths[s] <= 15
        &&& forall|s: int| 0 <= s < 30 ==> 0 <= #[trigger] self.dist_lengths[s] <= 15
        &&& forall|i: int|
            0 <= i < self.lit_book.model().len() ==> (#[trigger] self.lit_book.model()[i]).0 < 286
        &&& forall|i: int|
            0 <= i < self.dist_book.model().len() ==> (#[trigger] self.dist_book.model()[i]).0 < 30
        &&& self.lit_book.code_of(256) is Some
        &&& forall|k: int|
            0 <= k < elements.len() ==> self.lit_book.code_of(
                element_type_of(#[trigger] elements[k]).symbol(),
            ) is Some
        &&& forall|k: int|
            0 <= k < elements.len() ==> ((
            #[trigger] elements[k]) matches Lz77Element::ReferenceValue(r)
                ==> self.dist_book.code_of(distance_main(r.offset as int)) is Some)
    }
}

/// The code of a block's code-length symbols: the symbols, their code, and
/// its code lengths.
pub struct LengthCodes {
    pub stream: Vec<DeflateLength>,
    pub cl_book: CodeBook<DeflateLength>,
    pub cl_lengths: Vec<i32>,
}

impl LengthCodes {
    /// The code is the one that the plan of the block names, and has a code
    /// word for every code-length symbol that the block writes.
    pub open spec fn holds(self, elements: Seq<Lz77Element>) -> bool {
        let plan = block_plan(elements);
        &&& self.stream@ == plan.stream
        &&& self.cl_book.model() == plan.cl_model
        &&& lengths_as_ints(self.cl_lengths@) == plan.cl_lengths
        &&& self.cl_lengths.len() == 19
        &&& forall|s: int| 0 <= s < 19 ==> 0 <= #[trigger] self.cl_lengths[s] <= 7
        &&& forall|k: int| 0 <= k < self.stream.len() ==> (#[trigger] self.stream[k]).well_formed()
        &&& forall|k: int|
            0 <= k < self.stream.len() ==> self.cl_book.code_of(
                (#[trigger] self.stream[k]).symbol(),
            ) is Some
    }
}

/// Builds the literal/length code and the distance code of a block;
/// `Err(InvalidSymbol)` exactly when an element is not well formed.
pub fn code_elements(lz77_data: &[Lz77Element]) -> (codes: Result<ElementCodes, DeflateError>)
    requires
        lz77_data.len() <= BLOCK_SIZE,
    ensures
        codes is Ok <==> forall|k: int|
            0 <= k < lz77_data.len() ==> (#[trigger] lz77_data[k]).well_formed(),
        codes matches Err(e) ==> e == DeflateError::InvalidSymbol,
        codes matches Ok(c) ==> c.holds(lz77_data@),
{
    let ghost elements = lz77_data@;
    let (deflate_elements, offset_elements) = match collect_symbols(lz77_data) {
        Ok(collected) => collected,
        Err(e) => {
            return Err(e);
        },
    };
    proof {
        reveal_with_fuel(pow2, 16);
        lemma_symbols_in_use(keys_of(deflate_elements@), 286);
        lemma_symbols_in_use(keys_of(offset_elements@), 30);
        lemma_block_offsets_range(elements);
        assert forall|k: int| 0 <= k < deflate_elements.len() implies 0 <= (
        #[trigger] deflate_elements[k]).sorting_value < 286 by {
            if k < elements.len() {
                assert(elements[k].well_formed());
                match elements[k] {
                    Lz77Element::SimpleValue(_) => {},
                    Lz77Element::ReferenceValue(r) => {
                        lemma_length_inverse(r.count as int);
                    },
                }
            }
        }
    }
    let (lit_book, lit_lengths) = match huffman_encoding(
        MAX_CODE_LENGTH,
        286,
        deflate_elements.as_slice(),
    ) {
        Ok(coded) => coded,
        Err(e) => {
            return Err(e);
        },
    };
    let (dist_book, dist_lengths) = match huffman_encoding(
        MAX_CODE_LENGTH,
        30,
        offset_elements.as_slice(),
    ) {
        Ok(coded) => coded,
        Err(e) => {
            return Err(e);
        },
    };
    proof {
        assert forall|k: int| 0 <= k < lz77_data.len() implies lit_book.code_of(
            element_type_of(#[trigger] lz77_data[k]).symbol(),
        ) is Some by {
            assert(deflate_elements[k] == keyed_element(element_type_of(lz77_data[k])));
            assert(lit_book.code_of(deflate_elements[k].sorting_value as int) is Some);
            assert(elements[k].well_formed());
            match elements[k] {
                Lz77Element::SimpleValue(_) => {},
                Lz77Element::ReferenceValue(r) => {
                    lemma_length_inverse(r.count as int);
                },
            }
        }
        assert forall|k: int| 0 <= k < lz77_data.len() implies ((
        #[trigger] lz77_data[k]) matches Lz77Element::ReferenceValue(r) ==> dist_book.code_of(
            distance_main(r.offset as int),
        ) is Some) by {
            if lz77_data[k] is ReferenceValue {
                let r = lz77_data[k]->ReferenceValue_0;
                lemma_block_offsets(elements, k);
                let j = choose|j: int|
                    0 <= j < block_offsets(elements).len() && #[trigger] block_offsets(elements)[j]
                        == keyed_offset(r.offset as int);
                assert(offset_elements[j] == keyed_offset(r.offset as int));
                assert(dist_book.code_of(offset_elements[j].sorting_value as int) is Some);
                assert(elements[k].well_formed());
                lemma_distance_inverse(r.offset as int);
            }
        }
        let last = deflate_elements[deflate_elements.len() - 1];
        assert(last == keyed_element(DeflateElementType::EndBlock));
        assert(lit_book.code_of(last.sorting_value as int) is Some);
    }
    Ok(ElementCodes { lit_book, lit_lengths, dist_book, dist_lengths })
}

/// Run-length encodes the code lengths that are sent for a block's two
/// codes, up to the last symbol in use of each, and builds the code of the
/// code-length symbols.
fn code_lengths(codes: &ElementCodes, Ghost(elements): Ghost<Seq<Lz77Element>>) -> (coded:
    Result<LengthCodes, DeflateError>)
    requires
        codes.holds(elements),
    ensures
        coded matches Ok(c) && c.holds(elements),
{
    let ghost plan = block_plan(elements);
    proof {
        lemma_largest_key(codes.lit_book.model(), 256, 286);
        lemma_largest_key(codes.dist_book.model(), -1, 30);
    }
    let lit_count: usize = (largest_book_key(&codes.lit_book, 256) + 1) as usize;
    let dist_count: usize = (largest_book_key(&codes.dist_book, -1) + 1) as usize;
    let lit_sent = slice_subrange(codes.lit_lengths.as_slice(), 0, lit_count);
    let dist_sent = slice_subrange(codes.dist_lengths.as_slice(), 0, dist_count);
    proof {
        assert(lengths_as_ints(lit_sent@) =~= plan.lit_sent);
        assert(lengths_as_ints(dist_sent@) =~= plan.dist_sent);
        assert forall|k: int| 0 <= k < lit_sent.len() implies 0 <= #[trigger] lit_sent[k] <= 15 by {
            assert(lit_sent[k] == codes.lit_lengths[k]);
        }
        assert forall|k: int| 0 <= k < dist_sent.len() implies 0 <= #[trigger] dist_sent[k]
            <= 15 by {
            assert(dist_sent[k] == codes.dist_lengths[k]);
        }
    }
    let mut stream = encoding_sequence_length(lit_sent);
    let offset_stream = encoding_sequence_length(dist_sent);
    append_symbols(&mut stream, &offset_stream);
    assert(stream@ == plan.stream);
    let keyed = key_lengths(&stream);
    proof {
        lemma_symbols_in_use(keys_of(keyed@), 19);
        assert forall|k: int| 0 <= k < stream.len() implies (#[trigger] stream[k]).well_formed() by {
            if k >= stream.len() - offset_stream.len() {
                assert(stream[k] == offset_stream[k - (stream.len() - offset_stream.len())]);
            }
        }
        assert forall|k: int| 0 <= k < keyed.len() implies 0 <= (#[trigger] keyed[k]).sorting_value
            < 19 by {
            assert(stream[k].well_formed());
        }
        reveal_with_fuel(pow2, 8);
    }
    let (cl_book, cl_lengths) = match huffman_encoding(MAX_LENGTH_CODE_LENGTH, 19, keyed.as_slice()) {
        Ok(coded) => coded,
        Err(e) => {
            return Err(e);
        },
    };
    proof {
        assert forall|k: int| 0 <= k < stream.len() implies cl_book.code_of(
            (#[trigger] stream[k]).symbol(),
        ) is Some by {
            assert(keyed[k] == keyed_length(stream[k]));
            assert(cl_book.code_of(keyed[k].sorting_value as int) is Some);
        }
    }
    Ok(LengthCodes { stream, cl_book, cl_lengths })
}

/// Writes the header of a block and the code lengths of the code-length
/// alphabet.
fn write_header(
    out: &mut Vec<bool>,
    codes: &ElementCodes,
    lengths: &LengthCodes,
    is_end_block: bool,
    Ghost(elements): Ghost<Seq<Lz77Element>>,
)
    requires
        codes.holds(elements),
        lengths.holds(elements),
    ensures
        final(out)@ == old(out)@ + header_bits(
            is_end_block,
            block_plan(elements).hlit,
            block_plan(elements).hdist,
            block_plan(elements).hclen,
        ) + order_bits(block_plan(elements).cl_lengths, block_plan(elements).hclen + 4),
{
    let ghost plan = block_plan(elements);
    let ghost before = out@;
    proof {
        lemma_largest_key(codes.lit_book.model(), 256, 286);
        lemma_largest_key(codes.dist_book.model(), -1, 30);
        reveal_with_fuel(pow2, 6);
    }
    let hlit: i32 = largest_book_key(&codes.lit_book, 256) - 256;
    let hdist: i32 = largest_book_key(&codes.dist_book, -1) + 1;
    let hclen: usize = trim_length_count(&lengths.cl_lengths);
    out.push(is_end_block);
    out.push(false);
    out.push(true);
    assert(out@ =~= before + seq![is_end_block, false, true]);
    append_number(out, hlit, 5);
    append_number(out, hdist, 5);
    append_number(out, hclen as i32, 4);
    assert(out@ =~= before + header_bits(is_end_block, plan.hlit, plan.hdist, plan.hclen));
    write_order(out, &lengths.cl_lengths, hclen + 4);
}

/// Writes one dynamic-Huffman block that holds the elements: the header, the
/// code lengths of the code-length alphabet, the code-length symbols that
/// write the literal/length and distance code lengths, the elements, and the
/// end-of-block symbol. `Err(InvalidSymbol)` exactly when a reference has a
/// length outside `3..=258` or a distance outside `1..=32768`.
pub fn deflate_block_encoding(lz77_data: &[Lz77Element], is_end_block: bool) -> (block: Result<
    Vec<bool>,
    DeflateError,
>)
    requires
        lz77_data.len() <= BLOCK_SIZE,
    ensures
        block is Ok <==> forall|k: int|
            0 <= k < lz77_data.len() ==> (#[trigger] lz77_data[k]).well_formed(),
        block matches Err(e) ==> e == DeflateError::InvalidSymbol,
        block matches Ok(bits) ==> bits@ == block_bits(lz77_data@, is_end_block),
{
    let codes = match code_elements(lz77_data) {
        Ok(codes) => codes,
        Err(e) => {
            return Err(e);
        },
    };
    let lengths = match code_lengths(&codes, Ghost(lz77_data@)) {
        Ok(lengths) => lengths,
        Err(e) => {
            return Err(e);
        },
    };
    let mut bin_result: Vec<bool> = Vec::new();
    write_header(&mut bin_result, &codes, &lengths, is_end_block, Ghost(lz77_data@));
    write_stream(&mut bin_result, &lengths.cl_book, &lengths.stream);
    write_elements(&mut bin_result, &codes.lit_book, &codes.dist_book, lz77_data);
    match codes.lit_book.get(256) {
        Some(code) => {
            append_bits(&mut bin_result, code);
        },
        None => {},
    }
    assert(bin_result@ =~= block_bits(lz77_data@, is_end_block));
    Ok(bin_result)
}

} // verus!
