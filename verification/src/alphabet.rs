use vstd::prelude::*;
use crate::bin_num::pow2;
use crate::canonical::{
    canonical_model, last_index_of_key, lemma_last_index_of_key, model_code, CodeModel,
};
use crate::coding::{
    alphabet_lengths, coded_symbols, count_of, keys_of, lemma_count_of, lemma_positive_weights,
    symbol_counts, symbols_in_use,
};
use crate::compared_element::ComparedElement;
use crate::decoder::{decoding_model, SymbolPayload};
use crate::format::largest_key;
use crate::tables::{
    lemma_alphabet_kraft, lemma_decoding_model, lemma_decoding_model_has, lemma_models_agree,
    masked_kraft, prefix_free,
};

verus! {

/// The position after the last code length that is not zero: the number of
/// code lengths that are sent for an alphabet.
pub open spec fn content_end(lengths: Seq<int>) -> int
    decreases lengths.len(),
{
    if lengths.len() == 0 {
        0
    } else if lengths.last() != 0 {
        lengths.len() as int
    } else {
        content_end(lengths.drop_last())
    }
}

/// The lengths end in zeros from `content_end` on, and not before it.
pub proof fn lemma_content_end(lengths: Seq<int>)
    ensures
        0 <= content_end(lengths) <= lengths.len(),
        content_end(lengths) > 0 ==> lengths[content_end(lengths) - 1] != 0,
        forall|k: int| content_end(lengths) <= k < lengths.len() ==> #[trigger] lengths[k] == 0,
    decreases lengths.len(),
{
    if lengths.len() > 0 && lengths.last() == 0 {
        let front = lengths.drop_last();
        lemma_content_end(front);
        assert forall|k: int| content_end(lengths) <= k < lengths.len() implies #[trigger] lengths[k]
            == 0 by {
            if k < front.len() {
                assert(front[k] == lengths[k]);
            }
        }
        if content_end(lengths) > 0 {
            assert(front[content_end(front) - 1] == lengths[content_end(lengths) - 1]);
        }
    }
}

/// The code lengths that the encoder gives to the alphabet of the data.
pub open spec fn lengths_for<T>(data: Seq<ComparedElement<T>>, size: nat, depth: int) -> Seq<int> {
    alphabet_lengths(symbol_counts(keys_of(data), size), depth)
}

/// The code that the encoder builds for the data.
pub open spec fn model_for<T>(data: Seq<ComparedElement<T>>, size: nat, depth: int) -> CodeModel {
    canonical_model(coded_symbols(data, size, depth))
}

/// The code lengths of the data's alphabet are zero for the symbols that do
/// not occur and between one and the limit for the others, and satisfy
/// Kraft's inequality.
pub proof fn lemma_lengths_for<T>(data: Seq<ComparedElement<T>>, size: nat, depth: int)
    requires
        1 <= depth,
        symbols_in_use(keys_of(data), size) <= pow2(depth as nat),
    ensures
        lengths_for(data, size, depth).len() == size,
        forall|k: int| 0 <= k < size ==> 0 <= #[trigger] lengths_for(data, size, depth)[k] <= depth,
        forall|k: int|
            0 <= k < size ==> (#[trigger] lengths_for(data, size, depth)[k] > 0 <==> count_of(
                keys_of(data),
                k,
            ) > 0),
        masked_kraft(lengths_for(data, size, depth), depth) <= pow2(depth as nat),
{
    let keys = keys_of(data);
    let counts = symbol_counts(keys, size);
    assert forall|s: int| 0 <= s < counts.len() implies #[trigger] counts[s] >= 0 by {
        lemma_count_of(keys, s);
    }
    lemma_positive_weights(counts);
    lemma_alphabet_kraft(counts, depth);
    let lengths = lengths_for(data, size, depth);
    assert forall|k: int| 0 <= k < size implies (#[trigger] lengths[k] > 0 <==> count_of(keys, k)
        > 0) by {
        assert(counts[k] == count_of(keys, k));
    }
}

/// The code that the encoder builds for the data is the code that the
/// decoder builds from the code lengths, with or without the zeros at their
/// end; it is a prefix code, and has a code word for every symbol of the
/// data and no other.
pub proof fn lemma_model_for<T, U: SymbolPayload>(
    data: Seq<ComparedElement<T>>,
    size: nat,
    depth: int,
)
    requires
        1 <= depth <= i32::MAX,
        symbols_in_use(keys_of(data), size) <= pow2(depth as nat),
        size <= i32::MAX,
        forall|k: int| 0 <= k < data.len() ==> 0 <= (#[trigger] data[k]).sorting_value < size,
    ensures
        model_for(data, size, depth) == decoding_model::<U>(lengths_for(data, size, depth)),
        model_for(data, size, depth) == decoding_model::<U>(
            lengths_for(data, size, depth).subrange(
                0,
                content_end(lengths_for(data, size, depth)),
            ),
        ),
        prefix_free(model_for(data, size, depth)),
        forall|i: int|
            0 <= i < model_for(data, size, depth).len() ==> (#[trigger] model_for(
                data,
                size,
                depth,
            )[i]).1.len() <= depth,
        forall|k: int|
            0 <= k < data.len() ==> model_code(
                model_for(data, size, depth),
                (#[trigger] data[k]).sorting_value as int,
            ) is Some,
        forall|i: int|
            0 <= i < model_for(data, size, depth).len() ==> 0 <= (#[trigger] model_for(
                data,
                size,
                depth,
            )[i]).0 < size && lengths_for(data, size, depth)[model_for(data, size, depth)[i].0]
                != 0,
        forall|k: int|
            0 <= k < size && lengths_for(data, size, depth)[k] != 0 ==> model_code(
                model_for(data, size, depth),
                k,
            ) is Some,
{
    let lengths = lengths_for(data, size, depth);
    let model = model_for(data, size, depth);
    lemma_lengths_for(data, size, depth);
    lemma_content_end(lengths);
    let end = content_end(lengths);
    let read = lengths.subrange(0, end);
    lemma_models_agree::<T, U>(data, lengths, lengths);
    lemma_models_agree::<T, U>(data, lengths, read);
    lemma_decoding_model::<U>(lengths, depth);
    assert forall|k: int| 0 <= k < size && lengths[k] != 0 implies model_code(model, k) is Some by {
        lemma_decoding_model_has::<U>(lengths, k);
        let i = choose|i: int|
            0 <= i < decoding_model::<U>(lengths).len() && (#[trigger] decoding_model::<U>(
                lengths,
            )[i]).0 == k;
        lemma_last_index_of_key(model, k);
    }
    assert forall|k: int| 0 <= k < data.len() implies model_code(
        model,
        (#[trigger] data[k]).sorting_value as int,
    ) is Some by {
        let key = data[k].sorting_value as int;
        lemma_count_of(keys_of(data), key);
        assert(keys_of(data)[k] == key);
        assert(lengths[key] > 0);
    }
}

/// The largest key is no less than the floor and than any key of the code,
/// and is the floor or a key of the code.
pub proof fn lemma_largest_key_bounds(model: CodeModel, floor: int)
    ensures
        floor <= largest_key(model, floor),
        forall|i: int| 0 <= i < model.len() ==> (#[trigger] model[i]).0 <= largest_key(model, floor),
        largest_key(model, floor) == floor || exists|i: int|
            0 <= i < model.len() && (#[trigger] model[i]).0 == largest_key(model, floor),
    decreases model.len(),
{
    if model.len() > 0 {
        let front = model.drop_last();
        lemma_largest_key_bounds(front, floor);
        assert forall|i: int| 0 <= i < model.len() implies (#[trigger] model[i]).0 <= largest_key(
            model,
            floor,
        ) by {
            if i < front.len() {
                assert(front[i] == model[i]);
            }
        }
        let largest = largest_key(model, floor);
        if largest != floor {
            if largest == model.last().0 {
                assert(model[model.len() - 1].0 == largest);
            } else {
                let i = choose|i: int|
                    0 <= i < front.len() && (#[trigger] front[i]).0 == largest_key(front, floor);
                assert(model[i].0 == largest);
            }
        }
    }
}

/// The largest key of a code that has a word for exactly the symbols with a
/// code length lies just before the zeros at the end of the code lengths.
pub proof fn lemma_largest_key_is_end(model: CodeModel, lengths: Seq<int>, floor: int)
    requires
        forall|i: int|
            0 <= i < model.len() ==> 0 <= (#[trigger] model[i]).0 < lengths.len()
                && lengths[model[i].0] != 0,
        forall|k: int|
            0 <= k < lengths.len() && #[trigger] lengths[k] != 0 ==> model_code(model, k) is Some,
        floor == -1 || (0 <= floor < lengths.len() && lengths[floor] != 0),
    ensures
        largest_key(model, floor) + 1 == content_end(lengths),
{
    lemma_largest_key_bounds(model, floor);
    lemma_content_end(lengths);
    let largest = largest_key(model, floor);
    let end = content_end(lengths);
    if largest >= 0 {
        if largest != floor {
            let i = choose|i: int| 0 <= i < model.len() && (#[trigger] model[i]).0 == largest;
            assert(lengths[model[i].0] != 0);
        }
        assert(lengths[largest] != 0);
        if largest >= end {
            assert(lengths[largest] == 0);
        }
    }
    if end > 0 {
        assert(lengths[end - 1] != 0);
        assert(model_code(model, end - 1) is Some);
        lemma_last_index_of_key(model, end - 1);
        let i = last_index_of_key(model, end - 1);
        assert(model[i].0 == end - 1);
    }
}

} // verus!
