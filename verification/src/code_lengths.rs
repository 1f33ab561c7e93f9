use vstd::prelude::*;
use crate::huffman::lengths_as_ints;
use crate::symbols::DeflateLength;

verus! {

/// The largest count that one long run of zeros may carry.
pub const BIG_ZERO_RUN: usize = 138;

/// The largest count that one short run of zeros may carry.
pub const ZERO_RUN: usize = 10;

/// The largest count that one repeat of the previous length may carry.
pub const REPEAT_RUN: usize = 6;

/// The smallest count that is written as a run.
pub const SHORTEST_RUN: usize = 3;

/// How many elements from `i` on equal `value`, counted up to `cap`.
pub open spec fn run_length(lengths: Seq<int>, i: int, value: int, cap: int) -> int
    decreases cap,
{
    if cap <= 0 || i < 0 || i >= lengths.len() || lengths[i] != value {
        0
    } else {
        1 + run_length(lengths, i + 1, value, cap - 1)
    }
}

/// `count` times the same symbol.
pub open spec fn repeated(symbol: DeflateLength, count: int) -> Seq<DeflateLength> {
    Seq::new(count as nat, |k: int| symbol)
}

/// The symbols that write a run of `zeros` zeros: long runs of at most 138
/// while more than eleven are left, short runs of at most ten while at least
/// three are left, and single zeros for the rest.
pub open spec fn zero_symbols(zeros: int) -> Seq<DeflateLength>
    decreases zeros,
{
    if zeros >= SHORTEST_RUN {
        if zeros > 11 {
            let count = if zeros < BIG_ZERO_RUN {
                zeros
            } else {
                BIG_ZERO_RUN as int
            };
            seq![DeflateLength::BigRetryZero(count as u8)] + zero_symbols(zeros - count)
        } else {
            let count = if zeros < ZERO_RUN {
                zeros
            } else {
                ZERO_RUN as int
            };
            seq![DeflateLength::RetryZero(count as u8)] + zero_symbols(zeros - count)
        }
    } else {
        repeated(DeflateLength::SimpleLength(0), zeros)
    }
}

/// The symbols that write a run of `count` further lengths equal to the one
/// before them: one repeat where the run has at least three, else the
/// lengths themselves.
pub open spec fn repeat_symbols(value: int, count: int) -> Seq<DeflateLength> {
    if count >= SHORTEST_RUN {
        seq![DeflateLength::RetryPrevious(count as u8)]
    } else {
        repeated(DeflateLength::SimpleLength(value as u8), count)
    }
}

/// The symbols that write the code lengths from position `i` on: a run of
/// zeros is written where it ends, be that at a length that is not zero or at
/// the end of the sequence.
pub open spec fn rle_from(lengths: Seq<int>, i: int) -> Seq<DeflateLength>
    decreases lengths.len() - i,
{
    if i < 0 || i >= lengths.len() {
        Seq::empty()
    } else if lengths[i] == 0 {
        let zeros = run_length(lengths, i, 0, lengths.len() - i);
        if zeros <= 0 || i + zeros > lengths.len() {
            Seq::empty()
        } else {
            zero_symbols(zeros) + rle_from(lengths, i + zeros)
        }
    } else if i > 0 && lengths[i] == lengths[i - 1] {
        let count = run_length(lengths, i, lengths[i], REPEAT_RUN as int);
        if count <= 0 || i + count > lengths.len() {
            Seq::empty()
        } else {
            repeat_symbols(lengths[i], count) + rle_from(lengths, i + count)
        }
    } else {
        seq![DeflateLength::SimpleLength(lengths[i] as u8)] + rle_from(lengths, i + 1)
    }
}

/// The run-length encoding of a sequence of code lengths.
pub open spec fn rle_encode(lengths: Seq<int>) -> Seq<DeflateLength> {
    rle_from(lengths, 0)
}

/// The last length that is not zero, or zero where there is none.
pub open spec fn last_nonzero(lengths: Seq<int>) -> int
    decreases lengths.len(),
{
    if lengths.len() == 0 {
        0
    } else if lengths.last() != 0 {
        lengths.last()
    } else {
        last_nonzero(lengths.drop_last())
    }
}

/// `count` times the same length.
pub open spec fn constant_lengths(value: int, count: int) -> Seq<int> {
    Seq::new(count as nat, |k: int| value)
}

/// The code lengths after one more symbol was read: a length is appended; a
/// repeat appends the last length that is not zero, as often as it says; a
/// run of zeros appends zeros.
pub open spec fn apply_length_symbol(lengths: Seq<int>, symbol: DeflateLength) -> Seq<int> {
    match symbol {
        DeflateLength::SimpleLength(v) => lengths.push(v as int),
        DeflateLength::RetryPrevious(c) => lengths + constant_lengths(
            last_nonzero(lengths),
            c as int,
        ),
        DeflateLength::RetryZero(c) => lengths + constant_lengths(0, c as int),
        DeflateLength::BigRetryZero(c) => lengths + constant_lengths(0, c as int),
    }
}

/// The code lengths that a sequence of symbols writes.
pub open spec fn rle_decode(symbols: Seq<DeflateLength>) -> Seq<int>
    decreases symbols.len(),
{
    if symbols.len() == 0 {
        Seq::empty()
    } else {
        apply_length_symbol(rle_decode(symbols.drop_last()), symbols.last())
    }
}

/// A run lies within the sequence and within its cap, holds the value
/// throughout, and ends where the value changes.
pub proof fn lemma_run_length(lengths: Seq<int>, i: int, value: int, cap: int)
    requires
        0 <= i <= lengths.len(),
        0 <= cap,
    ensures
        0 <= run_length(lengths, i, value, cap) <= cap,
        i + run_length(lengths, i, value, cap) <= lengths.len(),
        forall|k: int|
            i <= k < i + run_length(lengths, i, value, cap) ==> #[trigger] lengths[k] == value,
        run_length(lengths, i, value, cap) < cap && i + run_length(lengths, i, value, cap)
            < lengths.len() ==> lengths[i + run_length(lengths, i, value, cap)] != value,
    decreases cap,
{
    if !(cap <= 0 || i >= lengths.len() || lengths[i] != value) {
        lemma_run_length(lengths, i + 1, value, cap - 1);
    }
}

/// Reading one more symbol applies it to what was read.
proof fn lemma_rle_decode_push(symbols: Seq<DeflateLength>, symbol: DeflateLength)
    ensures
        rle_decode(symbols.push(symbol)) == apply_length_symbol(rle_decode(symbols), symbol),
{
    assert(symbols.push(symbol).drop_last() =~= symbols);
}

/// Reading the same plain length several times appends it that often.
proof fn lemma_rle_decode_repeated_simple(before: Seq<DeflateLength>, value: u8, count: int)
    requires
        count >= 0,
    ensures
        rle_decode(before + repeated(DeflateLength::SimpleLength(value), count)) == rle_decode(
            before,
        ) + constant_lengths(value as int, count),
    decreases count,
{
    let symbol = DeflateLength::SimpleLength(value);
    if count == 0 {
        assert(before + repeated(symbol, count) =~= before);
        assert(rle_decode(before) + constant_lengths(value as int, count) =~= rle_decode(before));
    } else {
        lemma_rle_decode_repeated_simple(before, value, count - 1);
        assert(before + repeated(symbol, count) =~= (before + repeated(symbol, count - 1)).push(
            symbol,
        ));
        lemma_rle_decode_push(before + repeated(symbol, count - 1), symbol);
        assert((rle_decode(before) + constant_lengths(value as int, count - 1)).push(value as int)
            =~= rle_decode(before) + constant_lengths(value as int, count));
    }
}

/// The symbols of a run of zeros are well formed and write that many zeros.
pub proof fn lemma_zero_symbols(before: Seq<DeflateLength>, zeros: int)
    requires
        zeros >= 0,
    ensures
        rle_decode(before + zero_symbols(zeros)) == rle_decode(before) + constant_lengths(0, zeros),
        forall|k: int|
            0 <= k < zero_symbols(zeros).len() ==> (#[trigger] zero_symbols(zeros)[k]).well_formed(),
    decreases zeros,
{
    if zeros >= SHORTEST_RUN {
        let count = if zeros > 11 {
            if zeros < BIG_ZERO_RUN {
                zeros
            } else {
                BIG_ZERO_RUN as int
            }
        } else {
            if zeros < ZERO_RUN {
                zeros
            } else {
                ZERO_RUN as int
            }
        };
        let symbol = if zeros > 11 {
            DeflateLength::BigRetryZero(count as u8)
        } else {
            DeflateLength::RetryZero(count as u8)
        };
        let rest = zero_symbols(zeros - count);
        assert(zero_symbols(zeros) == seq![symbol] + rest);
        lemma_zero_symbols(before.push(symbol), zeros - count);
        lemma_rle_decode_push(before, symbol);
        assert(before + (seq![symbol] + rest) =~= before.push(symbol) + rest);
        assert((rle_decode(before) + constant_lengths(0, count)) + constant_lengths(
            0,
            zeros - count,
        ) =~= rle_decode(before) + constant_lengths(0, zeros));
        assert forall|k: int| 0 <= k < zero_symbols(zeros).len() implies (#[trigger] zero_symbols(
            zeros,
        )[k]).well_formed() by {
            if k > 0 {
                assert(zero_symbols(zeros)[k] == rest[k - 1]);
            }
        }
    } else {
        lemma_rle_decode_repeated_simple(before, 0, zeros);
    }
}

/// After a length that is not zero, that length is the last one that is not
/// zero.
pub proof fn lemma_last_nonzero_push(lengths: Seq<int>, i: int)
    requires
        0 < i <= lengths.len(),
        lengths[i - 1] != 0,
    ensures
        last_nonzero(lengths.subrange(0, i)) == lengths[i - 1],
{
    assert(lengths.subrange(0, i).last() == lengths[i - 1]);
}

/// How many lengths the symbols written at position `i` cover: zero where
/// nothing more is written.
pub open spec fn rle_advance(lengths: Seq<int>, i: int) -> int {
    if i < 0 || i >= lengths.len() {
        0
    } else if lengths[i] == 0 {
        let zeros = run_length(lengths, i, 0, lengths.len() - i);
        if zeros <= 0 || i + zeros > lengths.len() {
            0
        } else {
            zeros
        }
    } else if i > 0 && lengths[i] == lengths[i - 1] {
        let count = run_length(lengths, i, lengths[i], REPEAT_RUN as int);
        if count <= 0 || i + count > lengths.len() {
            0
        } else {
            count
        }
    } else {
        1
    }
}

/// The symbols written at position `i`.
pub open spec fn rle_head(lengths: Seq<int>, i: int) -> Seq<DeflateLength> {
    if rle_advance(lengths, i) == 0 {
        Seq::empty()
    } else if lengths[i] == 0 {
        zero_symbols(rle_advance(lengths, i))
    } else if i > 0 && lengths[i] == lengths[i - 1] {
        repeat_symbols(lengths[i], rle_advance(lengths, i))
    } else {
        seq![DeflateLength::SimpleLength(lengths[i] as u8)]
    }
}

/// What is written from a position on is what is written at it, then what
/// follows.
pub proof fn lemma_rle_unfold(lengths: Seq<int>, i: int)
    requires
        0 <= i <= lengths.len(),
    ensures
        rle_advance(lengths, i) == 0 ==> rle_from(lengths, i) == Seq::<DeflateLength>::empty(),
        rle_advance(lengths, i) > 0 ==> rle_from(lengths, i) == rle_head(lengths, i) + rle_from(
            lengths,
            i + rle_advance(lengths, i),
        ),
{
}

/// A run of at least one element that begins with the value has at least
/// one element.
proof fn lemma_run_begins(lengths: Seq<int>, i: int, cap: int)
    requires
        0 <= i < lengths.len(),
        0 < cap,
    ensures
        run_length(lengths, i, lengths[i], cap) >= 1,
{
    lemma_run_length(lengths, i + 1, lengths[i], cap - 1);
}

/// The symbols written at one position cover a run of equal lengths within
/// the sequence.
pub proof fn lemma_rle_advance(lengths: Seq<int>, i: int)
    requires
        0 <= i < lengths.len(),
    ensures
        1 <= rle_advance(lengths, i),
        i + rle_advance(lengths, i) <= lengths.len(),
        forall|k: int| i <= k < i + rle_advance(lengths, i) ==> #[trigger] lengths[k] == lengths[i],
{
    let n = lengths.len() as int;
    if lengths[i] == 0 {
        lemma_run_length(lengths, i, 0, n - i);
        lemma_run_begins(lengths, i, n - i);
    } else if i > 0 && lengths[i] == lengths[i - 1] {
        lemma_run_length(lengths, i, lengths[i], REPEAT_RUN as int);
        lemma_run_begins(lengths, i, REPEAT_RUN as int);
    }
}

/// Nothing more is written exactly at the end of the sequence.
pub proof fn lemma_rle_stops(lengths: Seq<int>, i: int)
    requires
        0 <= i <= lengths.len(),
        rle_advance(lengths, i) == 0,
    ensures
        i == lengths.len(),
{
    if i < lengths.len() {
        lemma_rle_advance(lengths, i);
    }
}

/// What the symbols written at one position do to the code lengths read so
/// far.
proof fn lemma_rle_head(lengths: Seq<int>, i: int, before: Seq<DeflateLength>)
    requires
        0 <= i < lengths.len(),
        forall|k: int| 0 <= k < lengths.len() ==> 0 <= #[trigger] lengths[k] <= 15,
        rle_decode(before) == lengths.subrange(0, i),
    ensures
        rle_decode(before + rle_head(lengths, i)) == lengths.subrange(
            0,
            i + rle_advance(lengths, i),
        ),
        forall|k: int|
            0 <= k < rle_head(lengths, i).len() ==> (#[trigger] rle_head(lengths, i)[k]).well_formed(),
{
    let step = rle_advance(lengths, i);
    lemma_rle_advance(lengths, i);
    assert(lengths.subrange(0, i) + constant_lengths(lengths[i], step) =~= lengths.subrange(
        0,
        i + step,
    ));
    if lengths[i] == 0 {
        lemma_zero_symbols(before, step);
    } else if i > 0 && lengths[i] == lengths[i - 1] {
        let value = lengths[i];
        lemma_run_length(lengths, i, value, REPEAT_RUN as int);
        if step >= SHORTEST_RUN {
            let symbol = DeflateLength::RetryPrevious(step as u8);
            lemma_last_nonzero_push(lengths, i);
            lemma_rle_decode_push(before, symbol);
            assert(before + rle_head(lengths, i) =~= before.push(symbol));
        } else {
            lemma_rle_decode_repeated_simple(before, value as u8, step);
        }
    } else {
        let symbol = DeflateLength::SimpleLength(lengths[i] as u8);
        lemma_rle_decode_push(before, symbol);
        assert(before + rle_head(lengths, i) =~= before.push(symbol));
        assert(lengths.subrange(0, i).push(lengths[i]) =~= lengths.subrange(0, i + 1));
    }
}

/// Reading back what was written from position `i` on completes the code
/// lengths before `i` to the whole sequence.
proof fn lemma_rle_from(lengths: Seq<int>, i: int, before: Seq<DeflateLength>)
    requires
        0 <= i <= lengths.len(),
        forall|k: int| 0 <= k < lengths.len() ==> 0 <= #[trigger] lengths[k] <= 15,
        rle_decode(before) == lengths.subrange(0, i),
    ensures
        rle_decode(before + rle_from(lengths, i)) == lengths,
        forall|k: int|
            0 <= k < rle_from(lengths, i).len() ==> (#[trigger] rle_from(lengths, i)[k]).well_formed(),
    decreases lengths.len() - i,
{
    lemma_rle_unfold(lengths, i);
    let step = rle_advance(lengths, i);
    if step == 0 {
        lemma_rle_stops(lengths, i);
        assert(before + rle_from(lengths, i) =~= before);
        assert(lengths.subrange(0, i) =~= lengths);
    } else {
        lemma_rle_advance(lengths, i);
        lemma_rle_head(lengths, i, before);
        let head = rle_head(lengths, i);
        let rest = rle_from(lengths, i + step);
        lemma_rle_from(lengths, i + step, before + head);
        assert(before + (head + rest) =~= (before + head) + rest);
        assert forall|k: int| 0 <= k < (head + rest).len() implies (#[trigger] (head
            + rest)[k]).well_formed() by {
            if k < head.len() {
                assert((head + rest)[k] == head[k]);
            } else {
                assert((head + rest)[k] == rest[k - head.len()]);
            }
        }
    }
}

/// A run of zeros is written in no more symbols than it has zeros.
proof fn lemma_zero_symbols_len(zeros: int)
    requires
        zeros >= 0,
    ensures
        zero_symbols(zeros).len() <= zeros,
    decreases zeros,
{
    if zeros >= SHORTEST_RUN {
        if zeros > 11 {
            let count = if zeros < BIG_ZERO_RUN {
                zeros
            } else {
                BIG_ZERO_RUN as int
            };
            lemma_zero_symbols_len(zeros - count);
        } else {
            let count = if zeros < ZERO_RUN {
                zeros
            } else {
                ZERO_RUN as int
            };
            lemma_zero_symbols_len(zeros - count);
        }
    }
}

/// The run-length encoding has no more symbols than there are lengths.
pub proof fn lemma_rle_len(lengths: Seq<int>, i: int)
    requires
        0 <= i <= lengths.len(),
    ensures
        rle_from(lengths, i).len() <= lengths.len() - i,
    decreases lengths.len() - i,
{
    lemma_rle_unfold(lengths, i);
    let step = rle_advance(lengths, i);
    if step > 0 {
        if lengths[i] == 0 {
            lemma_zero_symbols_len(step);
        }
        lemma_run_length(lengths, i, lengths[i], REPEAT_RUN as int);
        lemma_run_length(lengths, i, 0, lengths.len() - i);
        lemma_rle_len(lengths, i + step);
    }
}

/// Reading back the run-length encoding of code lengths gives the same
/// lengths, and every symbol of the encoding is well formed.
pub proof fn lemma_rle_round_trip(lengths: Seq<int>)
    requires
        forall|k: int| 0 <= k < lengths.len() ==> 0 <= #[trigger] lengths[k] <= 15,
    ensures
        rle_decode(rle_encode(lengths)) == lengths,
        forall|k: int|
            0 <= k < rle_encode(lengths).len() ==> (#[trigger] rle_encode(lengths)[k]).well_formed(),
{
    assert(lengths.subrange(0, 0) =~= Seq::<int>::empty());
    lemma_rle_from(lengths, 0, Seq::empty());
    assert(Seq::<DeflateLength>::empty() + rle_from(lengths, 0) =~= rle_from(lengths, 0));
}

/// Appends the symbols that write a run of `zeros` zeros.
fn push_zero_symbols(answer: &mut Vec<DeflateLength>, zeros: usize)
    ensures
        final(answer)@ == old(answer)@ + zero_symbols(zeros as int),
{
    let ghost before = answer@;
    let mut left: usize = zeros;
    assert(zero_symbols(left as int) + Seq::<DeflateLength>::empty() =~= zero_symbols(left as int));
    assert(before + Seq::<DeflateLength>::empty() =~= before);
    while left >= SHORTEST_RUN
        invariant
            left <= zeros,
            answer@ + zero_symbols(left as int) == before + zero_symbols(zeros as int),
        decreases left,
    {
        let ghost rest = zero_symbols(left as int);
        if left > 11 {
            let count: usize = if left < BIG_ZERO_RUN {
                left
            } else {
                BIG_ZERO_RUN
            };
            let symbol = DeflateLength::BigRetryZero(count as u8);
            assert(answer@ + (seq![symbol] + zero_symbols(left - count)) =~= answer@.push(symbol)
                + zero_symbols(left - count));
            answer.push(symbol);
            left -= count;
        } else {
            let count: usize = if left < ZERO_RUN {
                left
            } else {
                ZERO_RUN
            };
            let symbol = DeflateLength::RetryZero(count as u8);
            assert(answer@ + (seq![symbol] + zero_symbols(left - count)) =~= answer@.push(symbol)
                + zero_symbols(left - count));
            answer.push(symbol);
            left -= count;
        }
    }
    push_repeated(answer, DeflateLength::SimpleLength(0), left);
}

/// Appends `count` times the same symbol.
fn push_repeated(answer: &mut Vec<DeflateLength>, symbol: DeflateLength, count: usize)
    ensures
        final(answer)@ == old(answer)@ + repeated(symbol, count as int),
{
    let ghost before = answer@;
    let mut k: usize = 0;
    assert(before + repeated(symbol, 0) =~= before);
    while k < count
        invariant
            k <= count,
            answer@ == before + repeated(symbol, k as int),
        decreases count - k,
    {
        answer.push(symbol);
        k += 1;
        assert(answer@ =~= before + repeated(symbol, k as int));
    }
}

/// Run-length encodes a sequence of code lengths: runs of zeros become zero
/// runs, and a length followed by copies of itself becomes the length and
/// repeats of it. Reading the symbols back gives the same lengths.
pub fn encoding_sequence_length(sequence_of_length: &[i32]) -> (symbols: Vec<DeflateLength>)
    requires
        forall|k: int|
            0 <= k < sequence_of_length.len() ==> 0 <= #[trigger] sequence_of_length[k] <= 15,
    ensures
        symbols@ == rle_encode(lengths_as_ints(sequence_of_length@)),
        rle_decode(symbols@) == lengths_as_ints(sequence_of_length@),
        forall|k: int| 0 <= k < symbols.len() ==> (#[trigger] symbols[k]).well_formed(),
        symbols.len() <= sequence_of_length.len(),
{
    let ghost lengths = lengths_as_ints(sequence_of_length@);
    let n: usize = sequence_of_length.len();
    let mut answer: Vec<DeflateLength> = Vec::new();
    let mut i: usize = 0;
    assert(answer@ + rle_from(lengths, 0) =~= rle_encode(lengths));
    while i < n
        invariant
            i <= n,
            n == sequence_of_length.len(),
            lengths == lengths_as_ints(sequence_of_length@),
            forall|k: int|
                0 <= k < sequence_of_length.len() ==> 0 <= #[trigger] sequence_of_length[k] <= 15,
            answer@ + rle_from(lengths, i as int) == rle_encode(lengths),
        decreases n - i,
    {
        let value: i32 = sequence_of_length[i];
        assert(lengths[i as int] == value);
        if value == 0 {
            let mut zeros: usize = 0;
            while i + zeros < n && sequence_of_length[i + zeros] == 0
                invariant
                    i + zeros <= n,
                    n == sequence_of_length.len(),
                    lengths == lengths_as_ints(sequence_of_length@),
                    run_length(lengths, i as int, 0, n - i) == zeros + run_length(
                        lengths,
                        i + zeros,
                        0,
                        n - i - zeros,
                    ),
                decreases n - i - zeros,
            {
                assert(lengths[i + zeros] == 0);
                zeros += 1;
            }
            proof {
                if i + zeros < n {
                    assert(lengths[i + zeros] == sequence_of_length[i + zeros]);
                }
            }
            proof {
                let rest = rle_from(lengths, i + zeros);
                assert(answer@ + (zero_symbols(zeros as int) + rest) =~= (answer@ + zero_symbols(
                    zeros as int,
                )) + rest);
            }
            push_zero_symbols(&mut answer, zeros);
            i += zeros;
        } else if i > 0 && value == sequence_of_length[i - 1] {
            assert(lengths[i - 1] == sequence_of_length[i - 1]);
            let mut count: usize = 0;
            while count < REPEAT_RUN && i + count < n && sequence_of_length[i + count] == value
                invariant
                    count <= REPEAT_RUN,
                    i + count <= n,
                    n == sequence_of_length.len(),
                    lengths == lengths_as_ints(sequence_of_length@),
                    run_length(lengths, i as int, value as int, REPEAT_RUN as int) == count
                        + run_length(lengths, i + count, value as int, REPEAT_RUN - count),
                decreases REPEAT_RUN - count,
            {
                assert(lengths[i + count] == value);
                count += 1;
            }
            proof {
                if i + count < n {
                    assert(lengths[i + count] == sequence_of_length[i + count]);
                }
                let rest = rle_from(lengths, i + count);
                assert(answer@ + (repeat_symbols(value as int, count as int) + rest) =~= (answer@
                    + repeat_symbols(value as int, count as int)) + rest);
            }
            if count >= SHORTEST_RUN {
                proof {
                    assert(answer@ + seq![DeflateLength::RetryPrevious(count as u8)]
                        =~= answer@.push(DeflateLength::RetryPrevious(count as u8)));
                }
                answer.push(DeflateLength::RetryPrevious(count as u8));
            } else {
                push_repeated(&mut answer, DeflateLength::SimpleLength(value as u8), count);
            }
            i += count;
        } else {
            proof {
                let symbol = DeflateLength::SimpleLength(value as u8);
                let rest = rle_from(lengths, i + 1);
                assert(answer@ + (seq![symbol] + rest) =~= answer@.push(symbol) + rest);
            }
            answer.push(DeflateLength::SimpleLength(value as u8));
            i += 1;
        }
    }
    proof {
        assert(answer@ + rle_from(lengths, n as int) =~= answer@);
        assert forall|k: int| 0 <= k < lengths.len() implies 0 <= #[trigger] lengths[k] <= 15 by {
            assert(lengths[k] == sequence_of_length[k]);
        }
        lemma_rle_round_trip(lengths);
        lemma_rle_len(lengths, 0);
    }
    answer
}

} // verus!
