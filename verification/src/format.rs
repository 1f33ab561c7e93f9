use vstd::prelude::*;
use crate::bin_num::fixed_bits;
use crate::canonical::{canonical_model, model_code, CodeModel};
use crate::code_lengths::rle_encode;
use crate::coding::{alphabet_lengths, coded_symbols, keys_of, symbol_counts};
use crate::compared_element::ComparedElement;
use crate::huffman::larger;
use crate::lz77::Lz77Element;
use crate::symbols::{
    distance_extra, distance_extra_bits, distance_main, element_type_of, length_extra,
    length_extra_bits, length_symbol, DeflateElementType, DeflateLength, DeflateOffset,
};

verus! {

/// The order in which the code lengths of the code-length alphabet are sent.
pub const SEQUENCE_LENGTH_COMMAND: [i32; 19] = [
    16,
    17,
    18,
    0,
    8,
    7,
    9,
    6,
    10,
    5,
    11,
    4,
    12,
    3,
    13,
    2,
    14,
    1,
    15,
];

/// The order in which the code lengths of the code-length alphabet are sent.
pub open spec fn length_order() -> Seq<int> {
    seq![16, 17, 18, 0, 8, 7, 9, 6, 10, 5, 11, 4, 12, 3, 13, 2, 14, 1, 15]
}

/// The symbol of the code-length alphabet whose code length is sent at
/// position `k`.
pub fn ordered_symbol(k: usize) -> (symbol: usize)
    requires
        k < 19,
    ensures
        symbol == length_order()[k as int],
        symbol < 19,
{
    SEQUENCE_LENGTH_COMMAND[k] as usize
}

/// The longest code of the literal/length and distance alphabets.
pub const MAX_CODE_LENGTH: i32 = 15;

/// The longest code of the code-length alphabet.
pub const MAX_LENGTH_CODE_LENGTH: i32 = 7;

/// The most elements that one block holds.
pub const BLOCK_SIZE: usize = 65535;

/// A literal/length symbol under its index in the alphabet.
pub open spec fn keyed_element(value: DeflateElementType) -> ComparedElement<DeflateElementType> {
    ComparedElement { value, sorting_value: value.symbol() as i32 }
}

/// The distance symbol of a distance, under its index in the alphabet.
pub open spec fn keyed_offset(distance: int) -> ComparedElement<DeflateOffset> {
    ComparedElement {
        value: DeflateOffset {
            main_value: distance_main(distance) as u8,
            additional_bits: distance_extra(distance) as u16,
        },
        sorting_value: distance_main(distance) as i32,
    }
}

/// A code-length symbol under its index in the alphabet.
pub open spec fn keyed_length(value: DeflateLength) -> ComparedElement<DeflateLength> {
    ComparedElement { value, sorting_value: value.symbol() as i32 }
}

/// The literal/length symbols of a block: one for every element, and the
/// end-of-block symbol after them.
pub open spec fn block_symbols(elements: Seq<Lz77Element>) -> Seq<
    ComparedElement<DeflateElementType>,
> {
    Seq::new(
        elements.len() + 1,
        |k: int|
            if k < elements.len() {
                keyed_element(element_type_of(elements[k]))
            } else {
                keyed_element(DeflateElementType::EndBlock)
            },
    )
}

/// The distance symbols of a block: one for every reference.
pub open spec fn block_offsets(elements: Seq<Lz77Element>) -> Seq<ComparedElement<DeflateOffset>>
    decreases elements.len(),
{
    if elements.len() == 0 {
        Seq::empty()
    } else {
        let earlier = block_offsets(elements.drop_last());
        match elements.last() {
            Lz77Element::SimpleValue(_) => earlier,
            Lz77Element::ReferenceValue(r) => earlier.push(keyed_offset(r.offset as int)),
        }
    }
}

/// The code-length symbols under their indices.
pub open spec fn keyed_lengths(stream: Seq<DeflateLength>) -> Seq<ComparedElement<DeflateLength>> {
    Seq::new(stream.len(), |k: int| keyed_length(stream[k]))
}

/// The largest key of the code, or `floor` where that is larger.
pub open spec fn largest_key(model: CodeModel, floor: int) -> int
    decreases model.len(),
{
    if model.len() == 0 {
        floor
    } else {
        larger(largest_key(model.drop_last(), floor), model.last().0)
    }
}

/// How many code lengths of the code-length alphabet are sent, less four:
/// from `count` down while the last one sent would be zero.
pub open spec fn trimmed_count(lengths: Seq<int>, count: int) -> int
    decreases count,
{
    if count > 0 && lengths[length_order()[count + 3]] == 0 {
        trimmed_count(lengths, count - 1)
    } else {
        count
    }
}

/// Everything that the encoder settles before it writes a block.
pub struct BlockPlan {
    /// The code lengths of the literal/length alphabet.
    pub lit_lengths: Seq<int>,
    /// The code lengths of the distance alphabet.
    pub dist_lengths: Seq<int>,
    /// The literal/length code lengths that are sent: the first `hlit + 257`.
    pub lit_sent: Seq<int>,
    /// The distance code lengths that are sent: the first `hdist`.
    pub dist_sent: Seq<int>,
    /// The code-length symbols that write the lengths that are sent: the
    /// run-length encoding of the one, then that of the other.
    pub stream: Seq<DeflateLength>,
    /// The code lengths of the code-length alphabet.
    pub cl_lengths: Seq<int>,
    /// The literal/length code.
    pub lit_model: CodeModel,
    /// The distance code.
    pub dist_model: CodeModel,
    /// The code of the code-length symbols.
    pub cl_model: CodeModel,
    /// The largest length symbol in use, less 256.
    pub hlit: int,
    /// The largest distance symbol in use, plus one.
    pub hdist: int,
    /// The number of code lengths sent for the code-length alphabet, less four.
    pub hclen: int,
}

/// What the encoder settles for a block of these elements.
pub open spec fn block_plan(elements: Seq<Lz77Element>) -> BlockPlan {
    let symbols = block_symbols(elements);
    let offsets = block_offsets(elements);
    let lit_lengths = alphabet_lengths(
        symbol_counts(keys_of(symbols), 286),
        MAX_CODE_LENGTH as int,
    );
    let dist_lengths = alphabet_lengths(
        symbol_counts(keys_of(offsets), 30),
        MAX_CODE_LENGTH as int,
    );
    let lit_model = canonical_model(coded_symbols(symbols, 286, MAX_CODE_LENGTH as int));
    let dist_model = canonical_model(coded_symbols(offsets, 30, MAX_CODE_LENGTH as int));
    let hlit = largest_key(lit_model, 256) - 256;
    let hdist = largest_key(dist_model, -1) + 1;
    let lit_sent = lit_lengths.subrange(0, hlit + 257);
    let dist_sent = dist_lengths.subrange(0, hdist);
    let stream = rle_encode(lit_sent) + rle_encode(dist_sent);
    let keyed = keyed_lengths(stream);
    let cl_lengths = alphabet_lengths(
        symbol_counts(keys_of(keyed), 19),
        MAX_LENGTH_CODE_LENGTH as int,
    );
    let cl_model = canonical_model(coded_symbols(keyed, 19, MAX_LENGTH_CODE_LENGTH as int));
    BlockPlan {
        lit_lengths,
        dist_lengths,
        lit_sent,
        dist_sent,
        stream,
        cl_lengths,
        lit_model,
        dist_model,
        cl_model,
        hlit,
        hdist,
        hclen: trimmed_count(cl_lengths, 15),
    }
}

/// The bits of the symbol with this key; no bits where the code lacks it.
pub open spec fn code_word(model: CodeModel, key: int) -> Seq<bool> {
    match model_code(model, key) {
        Some(bits) => bits,
        None => Seq::empty(),
    }
}

/// The bits that `bits_of` gives for the items, one after the other.
pub open spec fn concat_bits<A>(items: Seq<A>, bits_of: spec_fn(A) -> Seq<bool>) -> Seq<bool>
    decreases items.len(),
{
    if items.len() == 0 {
        Seq::empty()
    } else {
        concat_bits(items.drop_last(), bits_of) + bits_of(items.last())
    }
}

/// The header of a block: the last-block flag, the block type, and the three
/// counts in five, five and four bits.
pub open spec fn header_bits(is_end_block: bool, hlit: int, hdist: int, hclen: int) -> Seq<bool> {
    seq![is_end_block, false, true] + fixed_bits(hlit as nat, 5) + fixed_bits(hdist as nat, 5)
        + fixed_bits(hclen as nat, 4)
}

/// The first `count` code lengths of the code-length alphabet in the order
/// in which they are sent, three bits each.
pub open spec fn order_bits(cl_lengths: Seq<int>, count: int) -> Seq<bool>
    decreases count,
{
    if count <= 0 {
        Seq::empty()
    } else {
        order_bits(cl_lengths, count - 1) + fixed_bits(
            cl_lengths[length_order()[count - 1]] as nat,
            3,
        )
    }
}

/// The extra bits of a code-length symbol: the count of a repeat, less the
/// smallest count that the symbol can carry.
pub open spec fn length_symbol_extra(symbol: DeflateLength) -> Seq<bool> {
    match symbol {
        DeflateLength::SimpleLength(_) => Seq::empty(),
        DeflateLength::RetryPrevious(c) => fixed_bits((c - 3) as nat, 2),
        DeflateLength::RetryZero(c) => fixed_bits((c - 3) as nat, 3),
        DeflateLength::BigRetryZero(c) => fixed_bits((c - 11) as nat, 7),
    }
}

/// The bits of a code-length symbol: its code word and its extra bits.
pub open spec fn length_symbol_bits(cl_model: CodeModel) -> spec_fn(DeflateLength) -> Seq<bool> {
    |symbol: DeflateLength| code_word(cl_model, symbol.symbol()) + length_symbol_extra(symbol)
}

/// The bits of an element: a literal's code word; for a reference the code
/// word of its length symbol, the extra bits of the length, the code word of
/// its distance symbol, and the extra bits of the distance.
pub open spec fn element_bits(lit_model: CodeModel, dist_model: CodeModel) -> spec_fn(
    Lz77Element,
) -> Seq<bool> {
    |element: Lz77Element|
        match element {
            Lz77Element::SimpleValue(v) => code_word(lit_model, v as int),
            Lz77Element::ReferenceValue(r) => code_word(lit_model, length_symbol(r.count as int))
                + fixed_bits(
                length_extra(r.count as int) as nat,
                length_extra_bits(length_symbol(r.count as int)) as nat,
            ) + code_word(dist_model, distance_main(r.offset as int)) + fixed_bits(
                distance_extra(r.offset as int) as nat,
                distance_extra_bits(distance_main(r.offset as int)) as nat,
            ),
        }
}

/// The bits of one dynamic-Huffman block that holds the elements.
pub open spec fn block_bits(elements: Seq<Lz77Element>, is_end_block: bool) -> Seq<bool> {
    let plan = block_plan(elements);
    header_bits(is_end_block, plan.hlit, plan.hdist, plan.hclen) + order_bits(
        plan.cl_lengths,
        plan.hclen + 4,
    ) + concat_bits(plan.stream, length_symbol_bits(plan.cl_model)) + concat_bits(
        elements,
        element_bits(plan.lit_model, plan.dist_model),
    ) + code_word(plan.lit_model, 256)
}

/// One more item adds its bits at the end.
pub proof fn lemma_concat_bits_push<A>(items: Seq<A>, item: A, bits_of: spec_fn(A) -> Seq<bool>)
    ensures
        concat_bits(items.push(item), bits_of) == concat_bits(items, bits_of) + bits_of(item),
{
    assert(items.push(item).drop_last() =~= items);
}

} // verus!
