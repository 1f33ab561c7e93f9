use vstd::prelude::*;
use crate::alphabet::{
    content_end, lemma_content_end, lemma_largest_key_is_end, lemma_lengths_for, lemma_model_for,
    lengths_for, model_for,
};
use crate::bin_num::{fixed_bits, lemma_fixed_bits, pow2};
use crate::canonical::{model_code, CodeModel};
use crate::code_lengths::{lemma_rle_round_trip, rle_encode};
use crate::coding::keys_of;
use crate::decoder::{
    alphabet_fits, decode_block, decode_payload, decoding_model, ordered_lengths, read_codes,
    read_header, read_lengths, BlockCodes, BlockHeader,
};
use crate::encoder::{lemma_block_offsets, lemma_block_offsets_range};
use crate::error::DeflateError;
use crate::format::{
    block_bits, block_offsets, block_plan, block_symbols, code_word, concat_bits, element_bits,
    header_bits, keyed_element, keyed_lengths, keyed_offset, length_order, length_symbol_bits,
    order_bits, trimmed_count,
};
use crate::length_reading::lemma_read_rle;
use crate::lz77::{lz77_expand, Lz77Element};
use crate::payload_reading::{has_codes, lemma_read_payload, references_reach};
use crate::reading::{has_at, lemma_concat_bits_concat, lemma_has_at_split, lemma_read_fixed};
use crate::symbols::{
    distance_main, element_type_of, lemma_distance_inverse, lemma_length_inverse,
    DeflateElementType, DeflateLength, DeflateOffset,
};
use crate::tables::prefix_free;

verus! {

/// The position at which the code length of a symbol of the code-length
/// alphabet is sent.
pub open spec fn order_position(symbol: int) -> int {
    if symbol == 16 {
        0
    } else if symbol == 17 {
        1
    } else if symbol == 18 {
        2
    } else if symbol == 0 {
        3
    } else if symbol <= 7 {
        19 - 2 * symbol
    } else {
        2 * symbol - 12
    }
}

/// The order in which the code lengths are sent names every symbol of the
/// code-length alphabet once.
pub proof fn lemma_length_order()
    ensures
        length_order().len() == 19,
        forall|k: int| 0 <= k < 19 ==> 0 <= #[trigger] length_order()[k] < 19,
        forall|j: int, k: int|
            0 <= j < 19 && 0 <= k < 19 && j != k ==> #[trigger] length_order()[j]
                != #[trigger] length_order()[k],
        forall|s: int|
            0 <= s < 19 ==> 0 <= #[trigger] order_position(s) < 19 && length_order()[order_position(
                s,
            )] == s,
{
    let order = length_order();
    assert(order[0] == 16 && order[1] == 17 && order[2] == 18 && order[3] == 0 && order[4] == 8
        && order[5] == 7 && order[6] == 9 && order[7] == 6 && order[8] == 10 && order[9] == 5
        && order[10] == 11 && order[11] == 4 && order[12] == 12 && order[13] == 3 && order[14]
        == 13 && order[15] == 2 && order[16] == 14 && order[17] == 1 && order[18] == 15);
}

/// The code lengths that are not sent are zero.
pub proof fn lemma_trimmed_count(lengths: Seq<int>, count: int)
    requires
        0 <= count <= 15,
    ensures
        0 <= trimmed_count(lengths, count) <= count,
        forall|k: int|
            trimmed_count(lengths, count) + 3 < k <= count + 3 ==> lengths[#[trigger] length_order()[k]]
                == 0,
    decreases count,
{
    if count > 0 && lengths[length_order()[count + 3]] == 0 {
        lemma_trimmed_count(lengths, count - 1);
    }
}

/// The code lengths of the code-length alphabet are read back from the
/// numbers that were sent for them.
pub proof fn lemma_ordered_lengths(bits: Seq<bool>, pos: int, lengths: Seq<int>, count: int)
    requires
        0 <= count <= 19,
        lengths.len() == 19,
        forall|s: int| 0 <= s < 19 ==> 0 <= #[trigger] lengths[s] <= 7,
        has_at(bits, pos, order_bits(lengths, count)),
    ensures
        order_bits(lengths, count).len() == 3 * count,
        ordered_lengths(bits, pos, count).len() == 19,
        forall|k: int|
            0 <= k < count ==> ordered_lengths(bits, pos, count)[#[trigger] length_order()[k]]
                == lengths[length_order()[k]],
        forall|k: int|
            count <= k < 19 ==> ordered_lengths(bits, pos, count)[#[trigger] length_order()[k]] == 0,
    decreases count,
{
    lemma_length_order();
    if count > 0 {
        let symbol = length_order()[count - 1];
        let earlier = order_bits(lengths, count - 1);
        let number = fixed_bits(lengths[symbol] as nat, 3);
        lemma_fixed_bits(lengths[symbol] as nat, 3);
        lemma_has_at_split(bits, pos, earlier, number);
        lemma_ordered_lengths(bits, pos, lengths, count - 1);
        assert(pow2(3) == 8) by {
            reveal_with_fuel(pow2, 4);
        }
        lemma_read_fixed(bits, pos + 3 * (count - 1), lengths[symbol] as nat, 3);
        let before = ordered_lengths(bits, pos, count - 1);
        let after = ordered_lengths(bits, pos, count);
        assert(after == before.update(symbol, lengths[symbol]));
        assert forall|k: int| 0 <= k < count implies after[#[trigger] length_order()[k]]
            == lengths[length_order()[k]] by {
            if k < count - 1 {
                assert(length_order()[k] != length_order()[count - 1]);
                assert(before[length_order()[k]] == lengths[length_order()[k]]);
            }
        }
        assert forall|k: int| count <= k < 19 implies after[#[trigger] length_order()[k]] == 0 by {
            assert(length_order()[k] != length_order()[count - 1]);
            assert(before[length_order()[k]] == 0);
        }
    }
}

/// The header that was written is read back.
pub proof fn lemma_read_header(
    bits: Seq<bool>,
    is_end_block: bool,
    hlit: int,
    hdist: int,
    hclen: int,
)
    requires
        0 <= hlit < 32,
        0 <= hdist < 32,
        0 <= hclen < 16,
        has_at(bits, 0, header_bits(is_end_block, hlit, hdist, hclen)),
    ensures
        header_bits(is_end_block, hlit, hdist, hclen).len() == 17,
        read_header(bits) == Ok::<BlockHeader, DeflateError>(
            BlockHeader { is_end_block, hlit, hdist, hclen },
        ),
{
    let flags = seq![is_end_block, false, true];
    let lit = fixed_bits(hlit as nat, 5);
    let dist = fixed_bits(hdist as nat, 5);
    let clen = fixed_bits(hclen as nat, 4);
    lemma_fixed_bits(hlit as nat, 5);
    lemma_fixed_bits(hdist as nat, 5);
    lemma_fixed_bits(hclen as nat, 4);
    reveal_with_fuel(pow2, 6);
    lemma_has_at_split(bits, 0, flags + lit + dist, clen);
    lemma_has_at_split(bits, 0, flags + lit, dist);
    lemma_has_at_split(bits, 0, flags, lit);
    lemma_read_fixed(bits, 3, hlit as nat, 5);
    lemma_read_fixed(bits, 8, hdist as nat, 5);
    lemma_read_fixed(bits, 13, hclen as nat, 4);
    let held = bits.subrange(0, 3);
    assert(held[0] == bits[0] && held[1] == bits[1] && held[2] == bits[2]);
    assert(flags[0] == is_end_block && flags[1] == false && flags[2] == true);
}

/// What holds of the literal/length code of a block.
pub proof fn lemma_plan_literals(elements: Seq<Lz77Element>)
    requires
        forall|k: int| 0 <= k < elements.len() ==> (#[trigger] elements[k]).well_formed(),
    ensures
        block_plan(elements).lit_lengths.len() == 286,
        forall|k: int|
            0 <= k < 286 ==> 0 <= #[trigger] block_plan(elements).lit_lengths[k] <= 15,
        prefix_free(block_plan(elements).lit_model),
        forall|i: int|
            0 <= i < block_plan(elements).lit_model.len() ==> (#[trigger] block_plan(
                elements,
            ).lit_model[i]).1.len() <= 15,
        block_plan(elements).lit_model == decoding_model::<DeflateElementType>(
            block_plan(elements).lit_sent,
        ),
        block_plan(elements).hlit + 257 == content_end(block_plan(elements).lit_lengths),
        block_plan(elements).lit_sent.len() == block_plan(elements).hlit + 257,
        forall|k: int|
            0 <= k < block_plan(elements).lit_sent.len() ==> 0 <= #[trigger] block_plan(
                elements,
            ).lit_sent[k] <= 15,
        0 <= block_plan(elements).hlit <= 29,
        model_code(block_plan(elements).lit_model, 256) is Some,
        forall|k: int|
            0 <= k < elements.len() ==> model_code(
                block_plan(elements).lit_model,
                element_type_of(#[trigger] elements[k]).symbol(),
            ) is Some,
{
    let plan = block_plan(elements);
    let data = block_symbols(elements);
    reveal_with_fuel(pow2, 16);
    assert forall|k: int| 0 <= k < data.len() implies 0 <= (#[trigger] data[k]).sorting_value
        < 286 by {
        if k < elements.len() {
            assert(elements[k].well_formed());
            match elements[k] {
                Lz77Element::SimpleValue(_) => {},
                Lz77Element::ReferenceValue(r) => {
                    lemma_length_inverse(r.count as int);
                },
            }
        }
    }
    crate::encoder::lemma_symbols_in_use(keys_of(data), 286);
    lemma_lengths_for(data, 286, 15);
    lemma_model_for::<DeflateElementType, DeflateElementType>(data, 286, 15);
    assert(plan.lit_lengths == lengths_for(data, 286, 15));
    assert(plan.lit_model == model_for(data, 286, 15));
    let last = data[data.len() - 1];
    assert(last.sorting_value == 256);
    assert(model_code(plan.lit_model, last.sorting_value as int) is Some);
    crate::coding::lemma_count_of(keys_of(data), 256);
    assert(keys_of(data)[data.len() - 1] == 256);
    assert(plan.lit_lengths[256] > 0);
    lemma_largest_key_is_end(plan.lit_model, plan.lit_lengths, 256);
    lemma_content_end(plan.lit_lengths);
    crate::alphabet::lemma_largest_key_bounds(plan.lit_model, 256);
    assert(plan.lit_sent == plan.lit_lengths.subrange(0, content_end(plan.lit_lengths)));
    assert forall|k: int| 0 <= k < plan.lit_sent.len() implies 0 <= #[trigger] plan.lit_sent[k]
        <= 15 by {
        assert(plan.lit_sent[k] == plan.lit_lengths[k]);
    }
    assert forall|k: int| 0 <= k < elements.len() implies model_code(
        plan.lit_model,
        element_type_of(#[trigger] elements[k]).symbol(),
    ) is Some by {
        assert(data[k] == keyed_element(element_type_of(elements[k])));
        assert(0 <= data[k].sorting_value < 286);
        assert(model_code(plan.lit_model, data[k].sorting_value as int) is Some);
        assert(elements[k].well_formed());
        match elements[k] {
            Lz77Element::SimpleValue(_) => {},
            Lz77Element::ReferenceValue(r) => {
                lemma_length_inverse(r.count as int);
            },
        }
    }
}

/// What holds of the distance code of a block.
pub proof fn lemma_plan_distances(elements: Seq<Lz77Element>)
    requires
        forall|k: int| 0 <= k < elements.len() ==> (#[trigger] elements[k]).well_formed(),
    ensures
        block_plan(elements).dist_lengths.len() == 30,
        forall|k: int|
            0 <= k < 30 ==> 0 <= #[trigger] block_plan(elements).dist_lengths[k] <= 15,
        prefix_free(block_plan(elements).dist_model),
        forall|i: int|
            0 <= i < block_plan(elements).dist_model.len() ==> (#[trigger] block_plan(
                elements,
            ).dist_model[i]).1.len() <= 15,
        block_plan(elements).dist_model == decoding_model::<DeflateOffset>(
            block_plan(elements).dist_sent,
        ),
        block_plan(elements).hdist == content_end(block_plan(elements).dist_lengths),
        block_plan(elements).dist_sent.len() == block_plan(elements).hdist,
        forall|k: int|
            0 <= k < block_plan(elements).dist_sent.len() ==> 0 <= #[trigger] block_plan(
                elements,
            ).dist_sent[k] <= 15,
        0 <= block_plan(elements).hdist <= 30,
        forall|k: int|
            0 <= k < elements.len() ==> ((
            #[trigger] elements[k]) matches Lz77Element::ReferenceValue(r) ==> model_code(
                block_plan(elements).dist_model,
                distance_main(r.offset as int),
            ) is Some),
{
    let plan = block_plan(elements);
    let data = block_offsets(elements);
    reveal_with_fuel(pow2, 16);
    lemma_block_offsets_range(elements);
    crate::encoder::lemma_symbols_in_use(keys_of(data), 30);
    lemma_lengths_for(data, 30, 15);
    lemma_model_for::<DeflateOffset, DeflateOffset>(data, 30, 15);
    assert(plan.dist_lengths == lengths_for(data, 30, 15));
    assert(plan.dist_model == model_for(data, 30, 15));
    lemma_largest_key_is_end(plan.dist_model, plan.dist_lengths, -1);
    lemma_content_end(plan.dist_lengths);
    assert(plan.dist_sent == plan.dist_lengths.subrange(0, content_end(plan.dist_lengths)));
    assert forall|k: int| 0 <= k < plan.dist_sent.len() implies 0 <= #[trigger] plan.dist_sent[k]
        <= 15 by {
        assert(plan.dist_sent[k] == plan.dist_lengths[k]);
    }
    assert forall|k: int| 0 <= k < elements.len() implies ((
    #[trigger] elements[k]) matches Lz77Element::ReferenceValue(r) ==> model_code(
        plan.dist_model,
        distance_main(r.offset as int),
    ) is Some) by {
        if elements[k] is ReferenceValue {
            let r = elements[k]->ReferenceValue_0;
            lemma_block_offsets(elements, k);
            let j = choose|j: int|
                0 <= j < block_offsets(elements).len() && #[trigger] block_offsets(elements)[j]
                    == keyed_offset(r.offset as int);
            assert(elements[k].well_formed());
            lemma_distance_inverse(r.offset as int);
            assert(model_code(plan.dist_model, data[j].sorting_value as int) is Some);
        }
    }
}

/// What holds of the code of the code-length symbols of a block.
pub proof fn lemma_plan_lengths(elements: Seq<Lz77Element>)
    requires
        forall|k: int| 0 <= k < elements.len() ==> (#[trigger] elements[k]).well_formed(),
    ensures
        block_plan(elements).cl_lengths.len() == 19,
        forall|k: int| 0 <= k < 19 ==> 0 <= #[trigger] block_plan(elements).cl_lengths[k] <= 7,
        prefix_free(block_plan(elements).cl_model),
        forall|i: int|
            0 <= i < block_plan(elements).cl_model.len() ==> (#[trigger] block_plan(
                elements,
            ).cl_model[i]).1.len() <= 7,
        block_plan(elements).cl_model == decoding_model::<DeflateLength>(
            block_plan(elements).cl_lengths,
        ),
        0 <= block_plan(elements).hclen <= 15,
        block_plan(elements).stream == rle_encode(block_plan(elements).lit_sent) + rle_encode(
            block_plan(elements).dist_sent,
        ),
        forall|k: int|
            0 <= k < block_plan(elements).stream.len() ==> model_code(
                block_plan(elements).cl_model,
                (#[trigger] block_plan(elements).stream[k]).symbol(),
            ) is Some,
{
    let plan = block_plan(elements);
    lemma_plan_literals(elements);
    lemma_plan_distances(elements);
    lemma_rle_round_trip(plan.lit_sent);
    lemma_rle_round_trip(plan.dist_sent);
    let first = rle_encode(plan.lit_sent);
    let second = rle_encode(plan.dist_sent);
    let stream = plan.stream;
    assert forall|k: int| 0 <= k < stream.len() implies (#[trigger] stream[k]).well_formed() by {
        if k < first.len() {
            assert(stream[k] == first[k]);
        } else {
            assert(stream[k] == second[k - first.len()]);
        }
    }
    let data = keyed_lengths(stream);
    assert forall|k: int| 0 <= k < data.len() implies 0 <= (#[trigger] data[k]).sorting_value
        < 19 by {
        assert(stream[k].well_formed());
    }
    reveal_with_fuel(pow2, 8);
    crate::encoder::lemma_symbols_in_use(keys_of(data), 19);
    lemma_lengths_for(data, 19, 7);
    lemma_model_for::<DeflateLength, DeflateLength>(data, 19, 7);
    assert(plan.cl_lengths == lengths_for(data, 19, 7));
    assert(plan.cl_model == model_for(data, 19, 7));
    lemma_trimmed_count(plan.cl_lengths, 15);
    assert forall|k: int| 0 <= k < stream.len() implies model_code(
        plan.cl_model,
        (#[trigger] stream[k]).symbol(),
    ) is Some by {
        assert(stream[k].well_formed());
        assert(data[k].sorting_value == stream[k].symbol());
        assert(model_code(plan.cl_model, data[k].sorting_value as int) is Some);
    }
}

/// The code lengths of the code-length alphabet are read back from a block.
pub proof fn lemma_read_order(bits: Seq<bool>, lengths: Seq<int>, hclen: int)
    requires
        lengths.len() == 19,
        forall|s: int| 0 <= s < 19 ==> 0 <= #[trigger] lengths[s] <= 7,
        hclen == trimmed_count(lengths, 15),
        has_at(bits, 17, order_bits(lengths, hclen + 4)),
    ensures
        order_bits(lengths, hclen + 4).len() == 3 * (hclen + 4),
        ordered_lengths(bits, 17, hclen + 4) == lengths,
{
    lemma_length_order();
    lemma_trimmed_count(lengths, 15);
    lemma_ordered_lengths(bits, 17, lengths, hclen + 4);
    let read = ordered_lengths(bits, 17, hclen + 4);
    assert forall|s: int| 0 <= s < 19 implies read[s] == lengths[s] by {
        let k = order_position(s);
        assert(length_order()[k] == s);
        if k < hclen + 4 {
            assert(read[length_order()[k]] == lengths[length_order()[k]]);
        } else {
            assert(read[length_order()[k]] == 0);
            assert(lengths[length_order()[k]] == 0);
        }
    }
    assert(read =~= lengths);
}

/// The two runs of code lengths of a block are read back from its
/// code-length symbols.
pub proof fn lemma_read_stream(
    model: CodeModel,
    bits: Seq<bool>,
    pos: int,
    first: Seq<int>,
    second: Seq<int>,
)
    requires
        prefix_free(model),
        forall|k: int| 0 <= k < first.len() ==> 0 <= #[trigger] first[k] <= 15,
        forall|k: int| 0 <= k < second.len() ==> 0 <= #[trigger] second[k] <= 15,
        forall|k: int|
            0 <= k < (rle_encode(first) + rle_encode(second)).len() ==> model_code(
                model,
                (#[trigger] (rle_encode(first) + rle_encode(second))[k]).symbol(),
            ) is Some,
        has_at(
            bits,
            pos,
            concat_bits(rle_encode(first) + rle_encode(second), length_symbol_bits(model)),
        ),
    ensures
        read_lengths(model, bits, pos, first.len() as int, Seq::empty()) == Ok::<
            (Seq<int>, int),
            DeflateError,
        >((first, pos + concat_bits(rle_encode(first), length_symbol_bits(model)).len())),
        read_lengths(
            model,
            bits,
            pos + concat_bits(rle_encode(first), length_symbol_bits(model)).len(),
            second.len() as int,
            Seq::empty(),
        ) == Ok::<(Seq<int>, int), DeflateError>(
            (
                second,
                pos + concat_bits(
                    rle_encode(first) + rle_encode(second),
                    length_symbol_bits(model),
                ).len(),
            ),
        ),
{
    let bits_of = length_symbol_bits(model);
    let a = rle_encode(first);
    let b = rle_encode(second);
    lemma_concat_bits_concat(a, b, bits_of);
    lemma_has_at_split(bits, pos, concat_bits(a, bits_of), concat_bits(b, bits_of));
    assert forall|k: int| 0 <= k < a.len() implies model_code(model, (#[trigger] a[k]).symbol()) is Some by {
        assert((a + b)[k] == a[k]);
    }
    assert forall|k: int| 0 <= k < b.len() implies model_code(model, (#[trigger] b[k]).symbol()) is Some by {
        assert((a + b)[k + a.len()] == b[k]);
    }
    lemma_read_rle(model, bits, pos, first, 0);
    lemma_read_rle(model, bits, pos + concat_bits(a, bits_of).len(), second, 0);
    assert(first.subrange(0, 0) =~= Seq::<int>::empty());
    assert(second.subrange(0, 0) =~= Seq::<int>::empty());
}

/// Where the elements of a block begin.
pub open spec fn payload_position(elements: Seq<Lz77Element>) -> int {
    let plan = block_plan(elements);
    17 + 3 * (plan.hclen + 4) + concat_bits(plan.stream, length_symbol_bits(plan.cl_model)).len()
}

/// The bits of the elements of a block and of its end-of-block symbol.
pub open spec fn payload_bits(elements: Seq<Lz77Element>) -> Seq<bool> {
    let plan = block_plan(elements);
    concat_bits(elements, element_bits(plan.lit_model, plan.dist_model)) + code_word(
        plan.lit_model,
        256,
    )
}

/// Where the parts of a block lie in bits that begin with the block.
pub proof fn lemma_block_layout(elements: Seq<Lz77Element>, is_end_block: bool, bits: Seq<bool>)
    requires
        forall|k: int| 0 <= k < elements.len() ==> (#[trigger] elements[k]).well_formed(),
        has_at(bits, 0, block_bits(elements, is_end_block)),
    ensures
        has_at(
            bits,
            0,
            header_bits(
                is_end_block,
                block_plan(elements).hlit,
                block_plan(elements).hdist,
                block_plan(elements).hclen,
            ),
        ),
        has_at(
            bits,
            17,
            order_bits(block_plan(elements).cl_lengths, block_plan(elements).hclen + 4),
        ),
        has_at(
            bits,
            17 + 3 * (block_plan(elements).hclen + 4),
            concat_bits(
                block_plan(elements).stream,
                length_symbol_bits(block_plan(elements).cl_model),
            ),
        ),
        has_at(bits, payload_position(elements), payload_bits(elements)),
        block_bits(elements, is_end_block).len() == payload_position(elements) + payload_bits(
            elements,
        ).len(),
{
    let plan = block_plan(elements);
    let block = block_bits(elements, is_end_block);
    lemma_plan_lengths(elements);
    lemma_plan_literals(elements);
    lemma_plan_distances(elements);
    let header = header_bits(is_end_block, plan.hlit, plan.hdist, plan.hclen);
    let order = order_bits(plan.cl_lengths, plan.hclen + 4);
    let stream = concat_bits(plan.stream, length_symbol_bits(plan.cl_model));
    let payload = concat_bits(elements, element_bits(plan.lit_model, plan.dist_model));
    let end = code_word(plan.lit_model, 256);
    assert(block == header + order + stream + payload + end);
    lemma_has_at_split(bits, 0, header + order + stream + payload, end);
    lemma_has_at_split(bits, 0, header + order + stream, payload);
    lemma_has_at_split(bits, 0, header + order, stream);
    lemma_has_at_split(bits, 0, header, order);
    lemma_fixed_bits(plan.hlit as nat, 5);
    lemma_fixed_bits(plan.hdist as nat, 5);
    lemma_fixed_bits(plan.hclen as nat, 4);
    assert(header.len() == 17);
    lemma_order_bits_len(plan.cl_lengths, plan.hclen + 4);
    crate::reading::lemma_has_at_join(bits, payload_position(elements), payload, end);
}

/// Every code length that is sent takes three bits.
proof fn lemma_order_bits_len(lengths: Seq<int>, count: int)
    requires
        0 <= count,
    ensures
        order_bits(lengths, count).len() == 3 * count,
    decreases count,
{
    if count > 0 {
        lemma_order_bits_len(lengths, count - 1);
        lemma_fixed_bits(lengths[length_order()[count - 1]] as nat, 3);
    }
}

/// The header and the codes of a block that the encoder wrote are read back.
pub proof fn lemma_block_codes(elements: Seq<Lz77Element>, is_end_block: bool, bits: Seq<bool>)
    requires
        forall|k: int| 0 <= k < elements.len() ==> (#[trigger] elements[k]).well_formed(),
        has_at(bits, 0, block_bits(elements, is_end_block)),
    ensures
        read_header(bits) == Ok::<BlockHeader, DeflateError>(
            BlockHeader {
                is_end_block,
                hlit: block_plan(elements).hlit,
                hdist: block_plan(elements).hdist,
                hclen: block_plan(elements).hclen,
            },
        ),
        read_codes(
            bits,
            BlockHeader {
                is_end_block,
                hlit: block_plan(elements).hlit,
                hdist: block_plan(elements).hdist,
                hclen: block_plan(elements).hclen,
            },
        ) == Ok::<BlockCodes, DeflateError>(
            BlockCodes {
                lit_model: block_plan(elements).lit_model,
                dist_model: block_plan(elements).dist_model,
                payload_at: payload_position(elements),
            },
        ),
{
    let plan = block_plan(elements);
    lemma_block_layout(elements, is_end_block, bits);
    lemma_plan_literals(elements);
    lemma_plan_distances(elements);
    lemma_plan_lengths(elements);
    lemma_read_header(bits, is_end_block, plan.hlit, plan.hdist, plan.hclen);
    lemma_read_order(bits, plan.cl_lengths, plan.hclen);
    let after_order = 17 + 3 * (plan.hclen + 4);
    lemma_read_stream(plan.cl_model, bits, after_order, plan.lit_sent, plan.dist_sent);
    assert(alphabet_fits(plan.lit_sent, 286));
    assert(alphabet_fits(plan.dist_sent, 30));
}

/// The elements of a block that the encoder wrote are read back.
pub proof fn lemma_block_payload(
    elements: Seq<Lz77Element>,
    is_end_block: bool,
    bits: Seq<bool>,
    out: Seq<u8>,
)
    requires
        forall|k: int| 0 <= k < elements.len() ==> (#[trigger] elements[k]).well_formed(),
        references_reach(out, elements),
        has_at(bits, 0, block_bits(elements, is_end_block)),
    ensures
        decode_payload(
            block_plan(elements).lit_model,
            block_plan(elements).dist_model,
            bits,
            payload_position(elements),
            out,
        ) == Ok::<(Seq<u8>, int), DeflateError>(
            (lz77_expand(out, elements), block_bits(elements, is_end_block).len() as int),
        ),
{
    let plan = block_plan(elements);
    lemma_block_layout(elements, is_end_block, bits);
    lemma_plan_literals(elements);
    lemma_plan_distances(elements);
    assert forall|k: int| 0 <= k < elements.len() implies has_codes(
        plan.lit_model,
        plan.dist_model,
        #[trigger] elements[k],
    ) by {}
    lemma_read_payload(
        plan.lit_model,
        plan.dist_model,
        bits,
        payload_position(elements),
        elements,
        out,
    );
}

/// Decoding a block that the encoder wrote carries out its elements, takes
/// the block's bits and no more, and tells whether the block was marked as the
/// last — whatever follows the block.
pub proof fn lemma_block_round_trip(
    elements: Seq<Lz77Element>,
    is_end_block: bool,
    rest: Seq<bool>,
    out: Seq<u8>,
)
    requires
        forall|k: int| 0 <= k < elements.len() ==> (#[trigger] elements[k]).well_formed(),
        references_reach(out, elements),
    ensures
        decode_block(block_bits(elements, is_end_block) + rest, out) == Ok::<
            (Seq<u8>, int, bool),
            DeflateError,
        >(
            (
                lz77_expand(out, elements),
                block_bits(elements, is_end_block).len() as int,
                is_end_block,
            ),
        ),
{
    let block = block_bits(elements, is_end_block);
    let bits = block + rest;
    assert(bits.subrange(0, block.len() as int) =~= block);
    lemma_block_codes(elements, is_end_block, bits);
    lemma_block_payload(elements, is_end_block, bits, out);
}

} // verus!
