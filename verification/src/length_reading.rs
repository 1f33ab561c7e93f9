use vstd::prelude::*;
use crate::bin_num::pow2;
use crate::canonical::{model_code, CodeModel};
use crate::code_lengths::{
    apply_length_symbol, constant_lengths, last_nonzero,
    lemma_last_nonzero_push, lemma_rle_advance, lemma_rle_stops, lemma_rle_unfold, repeated,
    rle_advance, rle_from, rle_head, zero_symbols, BIG_ZERO_RUN, SHORTEST_RUN, ZERO_RUN,
};
use crate::decoder::{apply_run, read_lengths};
use crate::error::DeflateError;
use crate::format::{code_word, concat_bits, length_symbol_bits, length_symbol_extra};
use crate::reading::{
    has_at, lemma_concat_bits_concat, lemma_concat_bits_front, lemma_has_at_split,
    lemma_read_code_word, lemma_read_fixed,
};
use crate::symbols::DeflateLength;
use crate::tables::prefix_free;

verus! {

/// Reading one code-length symbol that is written at `pos` carries the code
/// lengths on as the symbol says.
pub proof fn lemma_read_one_length(
    model: CodeModel,
    bits: Seq<bool>,
    pos: int,
    symbol: DeflateLength,
    count: int,
    acc: Seq<int>,
)
    requires
        prefix_free(model),
        symbol.well_formed(),
        model_code(model, symbol.symbol()) is Some,
        has_at(bits, pos, length_symbol_bits(model)(symbol)),
        acc.len() < count,
        symbol is RetryPrevious ==> last_nonzero(acc) != 0,
    ensures
        read_lengths(model, bits, pos, count, acc) == read_lengths(
            model,
            bits,
            pos + length_symbol_bits(model)(symbol).len(),
            count,
            apply_length_symbol(acc, symbol),
        ),
{
    let word = code_word(model, symbol.symbol());
    let extra = length_symbol_extra(symbol);
    lemma_has_at_split(bits, pos, word, extra);
    lemma_read_code_word(model, bits, pos, symbol.symbol());
    let next = pos + word.len();
    reveal_with_fuel(pow2, 8);
    match symbol {
        DeflateLength::SimpleLength(v) => {
            assert(extra.len() == 0);
        },
        DeflateLength::RetryPrevious(c) => {
            lemma_read_fixed(bits, next, (c - 3) as nat, 2);
            crate::bin_num::lemma_fixed_bits((c - 3) as nat, 2);
            assert(apply_run(acc, 16, c - 3) == Some(apply_length_symbol(acc, symbol)));
        },
        DeflateLength::RetryZero(c) => {
            lemma_read_fixed(bits, next, (c - 3) as nat, 3);
            crate::bin_num::lemma_fixed_bits((c - 3) as nat, 3);
            assert(apply_run(acc, 17, c - 3) == Some(apply_length_symbol(acc, symbol)));
        },
        DeflateLength::BigRetryZero(c) => {
            lemma_read_fixed(bits, next, (c - 11) as nat, 7);
            crate::bin_num::lemma_fixed_bits((c - 11) as nat, 7);
            assert(apply_run(acc, 18, c - 11) == Some(apply_length_symbol(acc, symbol)));
        },
    }
}

/// Reading the same plain length several times.
pub proof fn lemma_read_repeated_simple(
    model: CodeModel,
    bits: Seq<bool>,
    pos: int,
    value: u8,
    times: int,
    count: int,
    acc: Seq<int>,
)
    requires
        prefix_free(model),
        value <= 15,
        0 <= times,
        times > 0 ==> model_code(model, value as int) is Some,
        has_at(
            bits,
            pos,
            concat_bits(
                repeated(DeflateLength::SimpleLength(value), times),
                length_symbol_bits(model),
            ),
        ),
        acc.len() + times <= count,
    ensures
        read_lengths(model, bits, pos, count, acc) == read_lengths(
            model,
            bits,
            pos + concat_bits(
                repeated(DeflateLength::SimpleLength(value), times),
                length_symbol_bits(model),
            ).len(),
            count,
            acc + constant_lengths(value as int, times),
        ),
    decreases times,
{
    let symbol = DeflateLength::SimpleLength(value);
    let all = repeated(symbol, times);
    let bits_of = length_symbol_bits(model);
    if times == 0 {
        assert(all =~= Seq::<DeflateLength>::empty());
        assert(acc + constant_lengths(value as int, 0) =~= acc);
    } else {
        lemma_concat_bits_front(all, bits_of);
        assert(all[0] == symbol);
        assert(all.drop_first() =~= repeated(symbol, times - 1));
        let first = bits_of(symbol);
        let rest = concat_bits(repeated(symbol, times - 1), bits_of);
        lemma_has_at_split(bits, pos, first, rest);
        lemma_read_one_length(model, bits, pos, symbol, count, acc);
        lemma_read_repeated_simple(
            model,
            bits,
            pos + first.len(),
            value,
            times - 1,
            count,
            acc.push(value as int),
        );
        assert(acc.push(value as int) + constant_lengths(value as int, times - 1) =~= acc
            + constant_lengths(value as int, times));
    }
}

/// Reading the symbols of a run of zeros.
pub proof fn lemma_read_zero_symbols(
    model: CodeModel,
    bits: Seq<bool>,
    pos: int,
    zeros: int,
    count: int,
    acc: Seq<int>,
)
    requires
        prefix_free(model),
        0 <= zeros,
        forall|k: int|
            0 <= k < zero_symbols(zeros).len() ==> model_code(
                model,
                (#[trigger] zero_symbols(zeros)[k]).symbol(),
            ) is Some,
        has_at(bits, pos, concat_bits(zero_symbols(zeros), length_symbol_bits(model))),
        acc.len() + zeros <= count,
    ensures
        read_lengths(model, bits, pos, count, acc) == read_lengths(
            model,
            bits,
            pos + concat_bits(zero_symbols(zeros), length_symbol_bits(model)).len(),
            count,
            acc + constant_lengths(0, zeros),
        ),
    decreases zeros,
{
    let all = zero_symbols(zeros);
    let bits_of = length_symbol_bits(model);
    if zeros >= SHORTEST_RUN {
        let run = if zeros > 11 {
            if zeros < BIG_ZERO_RUN {
                zeros
            } else {
                BIG_ZERO_RUN as int
            }
        } else {
            if zeros < ZERO_RUN {
                zeros
            } else {
                ZERO_RUN as int
            }
        };
        let symbol = if zeros > 11 {
            DeflateLength::BigRetryZero(run as u8)
        } else {
            DeflateLength::RetryZero(run as u8)
        };
        let others = zero_symbols(zeros - run);
        assert(all == seq![symbol] + others);
        assert(all[0] == symbol);
        assert(all.drop_first() =~= others);
        lemma_concat_bits_front(all, bits_of);
        let first = bits_of(symbol);
        let rest = concat_bits(others, bits_of);
        lemma_has_at_split(bits, pos, first, rest);
        assert(model_code(model, all[0].symbol()) is Some);
        lemma_read_one_length(model, bits, pos, symbol, count, acc);
        assert forall|k: int| 0 <= k < others.len() implies model_code(
            model,
            (#[trigger] others[k]).symbol(),
        ) is Some by {
            assert(all[k + 1] == others[k]);
        }
        lemma_read_zero_symbols(
            model,
            bits,
            pos + first.len(),
            zeros - run,
            count,
            acc + constant_lengths(0, run),
        );
        assert((acc + constant_lengths(0, run)) + constant_lengths(0, zeros - run) =~= acc
            + constant_lengths(0, zeros));
    } else {
        if zeros > 0 {
            assert(all[0] == DeflateLength::SimpleLength(0));
            assert(model_code(model, all[0].symbol()) is Some);
        }
        lemma_read_repeated_simple(model, bits, pos, 0, zeros, count, acc);
    }
}

/// Reading the symbols that were written at one position of the code
/// lengths.
pub proof fn lemma_read_head(
    model: CodeModel,
    bits: Seq<bool>,
    pos: int,
    lengths: Seq<int>,
    i: int,
    count: int,
)
    requires
        prefix_free(model),
        0 <= i < lengths.len(),
        forall|k: int| 0 <= k < lengths.len() ==> 0 <= #[trigger] lengths[k] <= 15,
        rle_advance(lengths, i) > 0,
        i + rle_advance(lengths, i) <= count,
        forall|k: int|
            0 <= k < rle_head(lengths, i).len() ==> model_code(
                model,
                (#[trigger] rle_head(lengths, i)[k]).symbol(),
            ) is Some,
        has_at(bits, pos, concat_bits(rle_head(lengths, i), length_symbol_bits(model))),
    ensures
        read_lengths(model, bits, pos, count, lengths.subrange(0, i)) == read_lengths(
            model,
            bits,
            pos + concat_bits(rle_head(lengths, i), length_symbol_bits(model)).len(),
            count,
            lengths.subrange(0, i + rle_advance(lengths, i)),
        ),
{
    let step = rle_advance(lengths, i);
    let head = rle_head(lengths, i);
    let bits_of = length_symbol_bits(model);
    let acc = lengths.subrange(0, i);
    lemma_rle_advance(lengths, i);
    assert(acc + constant_lengths(lengths[i], step) =~= lengths.subrange(0, i + step));
    if lengths[i] == 0 {
        lemma_read_zero_symbols(model, bits, pos, step, count, acc);
    } else if i > 0 && lengths[i] == lengths[i - 1] {
        let value = lengths[i];
        if step >= SHORTEST_RUN {
            let symbol = DeflateLength::RetryPrevious(step as u8);
            assert(head == seq![symbol]);
            assert(head[0] == symbol);
            lemma_concat_bits_front(head, bits_of);
            assert(head.drop_first() =~= Seq::<DeflateLength>::empty());
            assert(concat_bits(head, bits_of) =~= bits_of(symbol));
            lemma_last_nonzero_push(lengths, i);
            crate::code_lengths::lemma_run_length(lengths, i, value, 6);
            assert(model_code(model, head[0].symbol()) is Some);
            lemma_read_one_length(model, bits, pos, symbol, count, acc);
        } else {
            assert(head[0] == DeflateLength::SimpleLength(value as u8));
            assert(model_code(model, head[0].symbol()) is Some);
            lemma_read_repeated_simple(model, bits, pos, value as u8, step, count, acc);
        }
    } else {
        let symbol = DeflateLength::SimpleLength(lengths[i] as u8);
        assert(head == seq![symbol]);
        assert(head[0] == symbol);
        lemma_concat_bits_front(head, bits_of);
        assert(head.drop_first() =~= Seq::<DeflateLength>::empty());
        assert(concat_bits(head, bits_of) =~= bits_of(symbol));
        assert(model_code(model, head[0].symbol()) is Some);
        lemma_read_one_length(model, bits, pos, symbol, count, acc);
        assert(acc.push(lengths[i]) =~= lengths.subrange(0, i + 1));
    }
}

/// Reading the run-length encoding of code lengths from position `i` on
/// completes the lengths before `i` to all the lengths, and ends after the
/// encoding.
pub proof fn lemma_read_rle(
    model: CodeModel,
    bits: Seq<bool>,
    pos: int,
    lengths: Seq<int>,
    i: int,
)
    requires
        prefix_free(model),
        0 <= i <= lengths.len(),
        forall|k: int| 0 <= k < lengths.len() ==> 0 <= #[trigger] lengths[k] <= 15,
        forall|k: int|
            0 <= k < rle_from(lengths, i).len() ==> model_code(
                model,
                (#[trigger] rle_from(lengths, i)[k]).symbol(),
            ) is Some,
        has_at(bits, pos, concat_bits(rle_from(lengths, i), length_symbol_bits(model))),
    ensures
        read_lengths(model, bits, pos, lengths.len() as int, lengths.subrange(0, i)) == Ok::<
            (Seq<int>, int),
            DeflateError,
        >((lengths, pos + concat_bits(rle_from(lengths, i), length_symbol_bits(model)).len())),
    decreases lengths.len() - i,
{
    lemma_rle_unfold(lengths, i);
    let count = lengths.len() as int;
    let step = rle_advance(lengths, i);
    let bits_of = length_symbol_bits(model);
    if step == 0 {
        lemma_rle_stops(lengths, i);
        assert(concat_bits(rle_from(lengths, i), bits_of).len() == 0);
        assert(lengths.subrange(0, i) =~= lengths);
    } else {
        let head = rle_head(lengths, i);
        let rest = rle_from(lengths, i + step);
        lemma_rle_advance(lengths, i);
        lemma_concat_bits_concat(head, rest, bits_of);
        lemma_has_at_split(bits, pos, concat_bits(head, bits_of), concat_bits(rest, bits_of));
        assert forall|k: int| 0 <= k < head.len() implies model_code(
            model,
            (#[trigger] head[k]).symbol(),
        ) is Some by {
            assert((head + rest)[k] == head[k]);
        }
        assert forall|k: int| 0 <= k < rest.len() implies model_code(
            model,
            (#[trigger] rest[k]).symbol(),
        ) is Some by {
            assert((head + rest)[k + head.len()] == rest[k]);
        }
        lemma_read_head(model, bits, pos, lengths, i, count);
        lemma_read_rle(model, bits, pos + concat_bits(head, bits_of).len(), lengths, i + step);
    }
}

} // verus!
