use vstd::prelude::*;
use crate::bin_num::{lemma_fixed_bits, pow2};
use crate::block_round_trip::{
    lemma_block_layout, lemma_plan_distances, lemma_plan_lengths, lemma_plan_literals,
    payload_bits, payload_position,
};
use crate::canonical::{last_index_of_key, lemma_last_index_of_key, CodeModel};
use crate::code_lengths::{lemma_rle_len, lemma_rle_round_trip, rle_encode};
use crate::deflate::{block_count, block_elements, blocks_bits, deflate_bits, stream_bits};
use crate::format::{
    block_bits, block_plan, code_word, concat_bits, element_bits, length_symbol_bits, BLOCK_SIZE,
};
use crate::lz77::{
    lemma_lz77_round_trip, lemma_lz77_step, lz77_from, lz77_parse, lz77_step, Lz77Element,
};
use crate::round_trip::elements_before;
use crate::symbols::{lemma_distance_inverse, lemma_length_inverse, DeflateLength};

verus! {

/// The most bits that a block takes beside 48 for each of its elements: its
/// header, the code lengths of the code-length alphabet, 316 code-length
/// symbols of at most fourteen bits, and the end-of-block symbol.
pub const BLOCK_OVERHEAD: usize = 4513;

/// The most bits that an element takes: two code words of at most fifteen
/// bits, and five and thirteen extra bits.
pub const ELEMENT_BITS: usize = 48;

/// The matcher emits no more elements than there are bytes.
pub proof fn lemma_lz77_len(data: Seq<u8>, starts: Seq<usize>, i: int)
    requires
        0 <= i <= data.len(),
        forall|k: int| 0 <= k < starts.len() ==> #[trigger] starts[k] < i,
    ensures
        lz77_from(data, starts, i).len() <= data.len() - i,
    decreases data.len() - i,
{
    if i < data.len() {
        lemma_lz77_step(data, starts, i);
        let element = lz77_step(data, starts, i);
        let next = starts.push(i as usize);
        assert forall|k: int| 0 <= k < next.len() implies #[trigger] next[k] < i + element.span() by {
            if k < starts.len() {
                assert(next[k] == starts[k]);
            }
        }
        lemma_lz77_len(data, next, i + element.span());
    }
}

/// A code word is no longer than the longest word of its code.
pub proof fn lemma_code_word_len(model: CodeModel, key: int, bound: int)
    requires
        0 <= bound,
        forall|i: int| 0 <= i < model.len() ==> (#[trigger] model[i]).1.len() <= bound,
    ensures
        code_word(model, key).len() <= bound,
{
    lemma_last_index_of_key(model, key);
    let at = last_index_of_key(model, key);
    if at >= 0 {
        assert(model[at].1.len() <= bound);
    }
}

/// Items of at most `bound` bits each take at most `bound` bits apiece.
pub proof fn lemma_concat_bits_len<A>(items: Seq<A>, bits_of: spec_fn(A) -> Seq<bool>, bound: int)
    requires
        forall|k: int| 0 <= k < items.len() ==> bits_of(#[trigger] items[k]).len() <= bound,
    ensures
        concat_bits(items, bits_of).len() <= items.len() * bound,
    decreases items.len(),
{
    if items.len() > 0 {
        let front = items.drop_last();
        assert forall|k: int| 0 <= k < front.len() implies bits_of(#[trigger] front[k]).len()
            <= bound by {
            assert(front[k] == items[k]);
        }
        lemma_concat_bits_len(front, bits_of, bound);
        assert(bits_of(items[items.len() - 1]).len() <= bound);
        assert((items.len() - 1) * bound + bound == items.len() * bound) by (nonlinear_arith);
    } else {
        assert(0 * bound == 0);
    }
}

/// The code-length symbols of a block take at most 316 times fourteen bits.
pub proof fn lemma_stream_bits_len(elements: Seq<Lz77Element>)
    requires
        forall|k: int| 0 <= k < elements.len() ==> (#[trigger] elements[k]).well_formed(),
    ensures
        concat_bits(
            block_plan(elements).stream,
            length_symbol_bits(block_plan(elements).cl_model),
        ).len() <= 316 * 14,
{
    let plan = block_plan(elements);
    let bits_of = length_symbol_bits(plan.cl_model);
    lemma_plan_literals(elements);
    lemma_plan_distances(elements);
    lemma_plan_lengths(elements);
    lemma_rle_len(plan.lit_sent, 0);
    lemma_rle_len(plan.dist_sent, 0);
    lemma_rle_round_trip(plan.lit_sent);
    lemma_rle_round_trip(plan.dist_sent);
    let first = rle_encode(plan.lit_sent);
    let second = rle_encode(plan.dist_sent);
    assert(plan.stream.len() <= 316);
    assert forall|k: int| 0 <= k < plan.stream.len() implies bits_of(
        #[trigger] plan.stream[k],
    ).len() <= 14 by {
        let symbol = plan.stream[k];
        if k < first.len() {
            assert(symbol == first[k]);
        } else {
            assert(symbol == second[k - first.len()]);
        }
        assert(symbol.well_formed());
        lemma_code_word_len(plan.cl_model, symbol.symbol(), 7);
        match symbol {
            DeflateLength::SimpleLength(_) => {},
            DeflateLength::RetryPrevious(c) => {
                lemma_fixed_bits((c - 3) as nat, 2);
            },
            DeflateLength::RetryZero(c) => {
                lemma_fixed_bits((c - 3) as nat, 3);
            },
            DeflateLength::BigRetryZero(c) => {
                lemma_fixed_bits((c - 11) as nat, 7);
            },
        }
    }
    lemma_concat_bits_len(plan.stream, bits_of, 14);
    assert(plan.stream.len() * 14 <= 316 * 14);
}

/// The elements of a block take at most 48 bits each.
pub proof fn lemma_element_bits_len(elements: Seq<Lz77Element>)
    requires
        forall|k: int| 0 <= k < elements.len() ==> (#[trigger] elements[k]).well_formed(),
    ensures
        payload_bits(elements).len() <= ELEMENT_BITS * elements.len() + 15,
{
    let plan = block_plan(elements);
    let bits_of = element_bits(plan.lit_model, plan.dist_model);
    lemma_plan_literals(elements);
    lemma_plan_distances(elements);
    assert forall|k: int| 0 <= k < elements.len() implies bits_of(#[trigger] elements[k]).len()
        <= 48 by {
        let element = elements[k];
        assert(element.well_formed());
        match element {
            Lz77Element::SimpleValue(v) => {
                lemma_code_word_len(plan.lit_model, v as int, 15);
            },
            Lz77Element::ReferenceValue(r) => {
                lemma_length_inverse(r.count as int);
                lemma_distance_inverse(r.offset as int);
                let symbol = crate::symbols::length_symbol(r.count as int);
                let far = crate::symbols::distance_main(r.offset as int);
                lemma_code_word_len(plan.lit_model, symbol, 15);
                lemma_code_word_len(plan.dist_model, far, 15);
                lemma_fixed_bits(
                    crate::symbols::length_extra(r.count as int) as nat,
                    crate::symbols::length_extra_bits(symbol) as nat,
                );
                lemma_fixed_bits(
                    crate::symbols::distance_extra(r.offset as int) as nat,
                    crate::symbols::distance_extra_bits(far) as nat,
                );
            },
        }
    }
    lemma_concat_bits_len(elements, bits_of, 48);
    lemma_code_word_len(plan.lit_model, 256, 15);
    assert(elements.len() * 48 == 48 * elements.len()) by (nonlinear_arith);
}

/// A block takes at most `BLOCK_OVERHEAD` bits and `ELEMENT_BITS` for each
/// of its elements.
pub proof fn lemma_block_bits_len(elements: Seq<Lz77Element>, is_end_block: bool)
    requires
        forall|k: int| 0 <= k < elements.len() ==> (#[trigger] elements[k]).well_formed(),
    ensures
        block_bits(elements, is_end_block).len() <= BLOCK_OVERHEAD + ELEMENT_BITS * elements.len(),
{
    let block = block_bits(elements, is_end_block);
    assert(block.subrange(0, block.len() as int) =~= block);
    lemma_block_layout(elements, is_end_block, block);
    lemma_plan_lengths(elements);
    lemma_stream_bits_len(elements);
    lemma_element_bits_len(elements);
}

/// The first blocks take at most `BLOCK_OVERHEAD` bits each and
/// `ELEMENT_BITS` for each of their elements.
pub proof fn lemma_blocks_bits_len(elements: Seq<Lz77Element>, count: int)
    requires
        forall|k: int| 0 <= k < elements.len() ==> (#[trigger] elements[k]).well_formed(),
        0 <= count <= block_count(elements.len() as int),
    ensures
        blocks_bits(elements, count).len() <= BLOCK_OVERHEAD * count + ELEMENT_BITS
            * elements_before(elements, count).len(),
    decreases count,
{
    if count > 0 {
        lemma_blocks_bits_len(elements, count - 1);
        let chunk = block_elements(elements, count - 1);
        let before = elements_before(elements, count - 1);
        let after = elements_before(elements, count);
        assert(after =~= before + chunk);
        assert forall|j: int| 0 <= j < chunk.len() implies (#[trigger] chunk[j]).well_formed() by {
            assert(chunk[j] == elements[(count - 1) * BLOCK_SIZE + j]);
        }
        lemma_block_bits_len(chunk, count == block_count(elements.len() as int));
    }
}

/// The compressed bit stream of the data takes at most 4516 bits and 49 for
/// every byte of the data.
pub proof fn lemma_deflate_bits_len(data: Seq<u8>)
    ensures
        deflate_bits(data).len() <= 3 + BLOCK_OVERHEAD + (ELEMENT_BITS + 1) * data.len(),
{
    let elements = lz77_parse(data);
    lemma_lz77_round_trip(data);
    lemma_lz77_len(data, Seq::empty(), 0);
    let count = block_count(elements.len() as int);
    lemma_blocks_bits_len(elements, count);
    let body = stream_bits(elements);
    lemma_fixed_bits(((3 + body.len()) % 8) as nat, 3);
    assert(elements_before(elements, count).len() <= elements.len());
    assert(BLOCK_OVERHEAD * count <= BLOCK_OVERHEAD + elements.len());
}

} // verus!
