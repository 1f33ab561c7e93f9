use vstd::prelude::*;
use crate::bin_num::{lemma_fixed_bits, pow2};
use crate::canonical::{
    canonical_model, is_prefix, kraft_sum, lemma_canonical_codes_prefix_free, lengths_of,
    non_decreasing, CodeModel,
};
use crate::coding::{
    alphabet_lengths, count_of, keys_of, length_then_key, lemma_count_of, lemma_positive_weights,
    positive_weights, rank_of, symbols_with_lengths,
};
use crate::decoder::{decoding_model, lemma_length_pairs, length_pairs, SymbolPayload};
use crate::huffman::{lemma_package_merge_lengths, package_merge_lengths};
use crate::compared_element::ComparedElement;
use crate::sorting::{lemma_stable_sorted, lemma_sum_by_push, stable_sorted, sum_by, SortKey};

verus! {

/// The keys by which symbols with their code lengths are sorted.
pub open spec fn sort_keys<T>(pairs: Seq<(ComparedElement<T>, i32)>) -> Seq<int> {
    Seq::new(pairs.len(), |i: int| pairs[i].sort_key())
}

/// One for a pair with this sort key, zero for another.
pub open spec fn has_sort_key<T>(key: int) -> spec_fn((ComparedElement<T>, i32)) -> int {
    |p: (ComparedElement<T>, i32)|
        if p.sort_key() == key {
            1int
        } else {
            0int
        }
}

/// How often a sort key occurs among the pairs.
pub open spec fn sort_key_count<T>(pairs: Seq<(ComparedElement<T>, i32)>, key: int) -> int {
    sum_by(pairs, has_sort_key::<T>(key))
}

/// Counting a sort key among the pairs is counting it among their sort keys.
pub proof fn lemma_sort_key_count<T>(pairs: Seq<(ComparedElement<T>, i32)>, key: int)
    ensures
        sort_key_count(pairs, key) == count_of(sort_keys(pairs), key),
    decreases pairs.len(),
{
    if pairs.len() > 0 {
        lemma_sort_key_count(pairs.drop_last(), key);
        assert(sort_keys(pairs).drop_last() =~= sort_keys(pairs.drop_last()));
    }
}

/// Two ascending sequences in which every number occurs equally often, and
/// none twice, are the same sequence.
pub proof fn lemma_sorted_unique(a: Seq<int>, b: Seq<int>)
    requires
        forall|i: int, j: int| 0 <= i <= j < a.len() ==> a[i] <= a[j],
        forall|i: int, j: int| 0 <= i <= j < b.len() ==> b[i] <= b[j],
        forall|x: int| #[trigger] count_of(a, x) == count_of(b, x),
        forall|x: int| #[trigger] count_of(a, x) <= 1,
    ensures
        a == b,
    decreases a.len(),
{
    if a.len() == 0 {
        if b.len() > 0 {
            lemma_count_of(b, b[0]);
            assert(count_of(a, b[0]) == count_of(b, b[0]));
        }
        assert(a =~= b);
    } else {
        let m = a.last();
        lemma_count_of(a, m);
        assert(a[a.len() - 1] == m);
        assert(count_of(a, m) == count_of(b, m));
        lemma_count_of(b, m);
        let at = choose|at: int| 0 <= at < b.len() && b[at] == m;
        let n = b.last();
        lemma_count_of(b, n);
        assert(b[b.len() - 1] == n);
        assert(count_of(a, n) == count_of(b, n));
        lemma_count_of(a, n);
        let back = choose|back: int| 0 <= back < a.len() && a[back] == n;
        assert(a[back] <= a[a.len() - 1]);
        assert(b[at] <= b[b.len() - 1]);
        assert(m == n);
        let a1 = a.drop_last();
        let b1 = b.drop_last();
        assert forall|x: int| #[trigger] count_of(a1, x) == count_of(b1, x) by {
            assert(count_of(a, x) == count_of(b, x));
        }
        assert forall|x: int| #[trigger] count_of(a1, x) <= 1 by {
            assert(count_of(a, x) <= 1);
        }
        assert forall|i: int, j: int| 0 <= i <= j < a1.len() implies a1[i] <= a1[j] by {
            assert(a[i] <= a[j]);
        }
        assert forall|i: int, j: int| 0 <= i <= j < b1.len() implies b1[i] <= b1[j] by {
            assert(b[i] <= b[j]);
        }
        lemma_sorted_unique(a1, b1);
        assert(a =~= a1.push(m));
        assert(b =~= b1.push(n));
    }
}

/// Symbols with their code lengths that hold every sort key equally often,
/// and none twice, are sorted into sequences of the same keys and lengths.
pub proof fn lemma_sorted_alike<T, U>(
    a: Seq<(ComparedElement<T>, i32)>,
    b: Seq<(ComparedElement<U>, i32)>,
)
    requires
        forall|x: int| #[trigger] sort_key_count(a, x) == sort_key_count(b, x),
        forall|x: int| #[trigger] sort_key_count(a, x) <= 1,
    ensures
        sort_keys(stable_sorted(a, length_then_key::<T>())) == sort_keys(
            stable_sorted(b, length_then_key::<U>()),
        ),
        stable_sorted(a, length_then_key::<T>()).len() == stable_sorted(
            b,
            length_then_key::<U>(),
        ).len(),
{
    let sa = stable_sorted(a, length_then_key::<T>());
    let sb = stable_sorted(b, length_then_key::<U>());
    lemma_stable_sorted(a, length_then_key::<T>());
    lemma_stable_sorted(b, length_then_key::<U>());
    let ka = sort_keys(sa);
    let kb = sort_keys(sb);
    assert forall|x: int| #[trigger] count_of(ka, x) == count_of(kb, x) && count_of(ka, x)
        <= 1 by {
        lemma_sort_key_count(sa, x);
        lemma_sort_key_count(sb, x);
        assert(sum_by(sa, has_sort_key::<T>(x)) == sum_by(a, has_sort_key::<T>(x)));
        assert(sum_by(sb, has_sort_key::<U>(x)) == sum_by(b, has_sort_key::<U>(x)));
        assert(sort_key_count(a, x) == sort_key_count(b, x));
        assert(sort_key_count(a, x) <= 1);
    }
    assert forall|i: int, j: int| 0 <= i <= j < ka.len() implies ka[i] <= ka[j] by {
        assert(length_then_key::<T>()(sa[i]) <= length_then_key::<T>()(sa[j]));
    }
    assert forall|i: int, j: int| 0 <= i <= j < kb.len() implies kb[i] <= kb[j] by {
        assert(length_then_key::<U>()(sb[i]) <= length_then_key::<U>()(sb[j]));
    }
    lemma_sorted_unique(ka, kb);
    assert(ka.len() == kb.len());
}

/// Symbols with their code lengths that have the same sort keys, position by
/// position, have the same canonical code.
pub proof fn lemma_same_keys_same_model<T, U>(
    a: Seq<(ComparedElement<T>, i32)>,
    b: Seq<(ComparedElement<U>, i32)>,
)
    requires
        sort_keys(a) == sort_keys(b),
    ensures
        lengths_of(a) == lengths_of(b),
        canonical_model(a) == canonical_model(b),
{
    assert(a.len() == sort_keys(a).len());
    assert(b.len() == sort_keys(b).len());
    assert forall|i: int| 0 <= i < a.len() implies a[i].1 == b[i].1 && a[i].0.sorting_value
        == b[i].0.sorting_value by {
        assert(sort_keys(a)[i] == sort_keys(b)[i]);
        let la = a[i].1 as int;
        let lb = b[i].1 as int;
        let ka = a[i].0.sorting_value as int;
        let kb = b[i].0.sorting_value as int;
        assert(sort_keys(a)[i] == a[i].sort_key());
        assert(sort_keys(b)[i] == b[i].sort_key());
        assert(a[i].sort_key() == la * 0x1_0000_0000 + ka);
        assert(b[i].sort_key() == lb * 0x1_0000_0000 + kb);
    }
    assert(lengths_of(a) =~= lengths_of(b));
    assert(canonical_model(a) =~= canonical_model(b));
}

/// The sort key is that of a symbol of the alphabet with its code length,
/// where that length is not zero.
pub open spec fn is_pair_key(lengths: Seq<int>, x: int) -> bool {
    let key = x % 0x1_0000_0000;
    let length = x / 0x1_0000_0000;
    0 <= key < lengths.len() && lengths[key] == length && length != 0
}

/// Every symbol with a code length occurs once among the pairs of the
/// alphabet, and nothing else does.
pub proof fn lemma_length_pairs_count<U: SymbolPayload>(lengths: Seq<int>, x: int)
    requires
        lengths.len() <= i32::MAX,
        forall|k: int| 0 <= k < lengths.len() ==> 0 <= #[trigger] lengths[k] <= i32::MAX,
    ensures
        sort_key_count(length_pairs::<U>(lengths), x) == if is_pair_key(lengths, x) {
            1int
        } else {
            0int
        },
    decreases lengths.len(),
{
    if lengths.len() > 0 {
        let front = lengths.drop_last();
        assert forall|k: int| 0 <= k < front.len() implies 0 <= #[trigger] front[k]
            <= i32::MAX by {
            assert(front[k] == lengths[k]);
        }
        lemma_length_pairs_count::<U>(front, x);
        let last = lengths.last();
        assert(last == lengths[lengths.len() - 1]);
        let key = x % 0x1_0000_0000;
        if 0 <= key < front.len() {
            assert(front[key] == lengths[key]);
        }
        if last != 0 {
            let pair = (
                ComparedElement {
                    value: U::from_index(lengths.len() - 1),
                    sorting_value: (lengths.len() - 1) as i32,
                },
                last as i32,
            );
            assert(length_pairs::<U>(lengths) == length_pairs::<U>(front).push(pair));
            lemma_sum_by_push(length_pairs::<U>(front), pair, has_sort_key::<U>(x));
            assert(pair.sort_key() == last * 0x1_0000_0000 + (lengths.len() - 1));
        }
    }
}

/// The sort key is that of a symbol that occurs, with its code length.
pub open spec fn is_used_key(keys: Seq<int>, lengths: Seq<int>, x: int) -> bool {
    let key = x % 0x1_0000_0000;
    let length = x / 0x1_0000_0000;
    count_of(keys, key) > 0 && 0 <= key < lengths.len() && lengths[key] == length
}

/// Every symbol that occurs in the data is listed once with its code length,
/// and nothing else is.
pub proof fn lemma_symbols_with_lengths_count<T>(
    data: Seq<ComparedElement<T>>,
    lengths: Seq<int>,
    x: int,
)
    requires
        forall|k: int|
            0 <= k < data.len() ==> 0 <= (#[trigger] data[k]).sorting_value < lengths.len(),
        forall|k: int| 0 <= k < lengths.len() ==> 0 <= #[trigger] lengths[k] <= i32::MAX,
    ensures
        sort_key_count(symbols_with_lengths(data, lengths), x) == if is_used_key(
            keys_of(data),
            lengths,
            x,
        ) {
            1int
        } else {
            0int
        },
    decreases data.len(),
{
    let listed = symbols_with_lengths(data, lengths);
    if data.len() == 0 {
        assert(listed =~= Seq::empty());
    } else {
        let front = data.drop_last();
        let last = data.last();
        assert(last == data[data.len() - 1]);
        assert forall|k: int| 0 <= k < front.len() implies 0 <= (#[trigger] front[k]).sorting_value
            < lengths.len() by {
            assert(front[k] == data[k]);
        }
        lemma_symbols_with_lengths_count(front, lengths, x);
        let earlier = symbols_with_lengths(front, lengths);
        let key = x % 0x1_0000_0000;
        assert(keys_of(data).drop_last() =~= keys_of(front));
        assert(keys_of(data).last() == last.sorting_value);
        lemma_count_of(keys_of(front), key);
        lemma_count_of(keys_of(front), last.sorting_value as int);
        if count_of(keys_of(front), last.sorting_value as int) == 0 {
            let pair = (last, lengths[last.sorting_value as int] as i32);
            assert(listed =~= earlier.push(pair));
            lemma_sum_by_push(earlier, pair, has_sort_key::<T>(x));
            assert(pair.sort_key() == lengths[last.sorting_value as int] * 0x1_0000_0000
                + last.sorting_value);
        } else {
            assert(listed =~= earlier);
        }
    }
}

/// The code that the encoder builds for the symbols of the data is the code
/// that the decoder builds from code lengths which agree with the encoder's
/// wherever either is not zero.
pub proof fn lemma_models_agree<T, U: SymbolPayload>(
    data: Seq<ComparedElement<T>>,
    lengths: Seq<int>,
    read: Seq<int>,
)
    requires
        forall|k: int|
            0 <= k < data.len() ==> 0 <= (#[trigger] data[k]).sorting_value < lengths.len(),
        lengths.len() <= i32::MAX,
        forall|k: int| 0 <= k < lengths.len() ==> 0 <= #[trigger] lengths[k] <= i32::MAX,
        forall|k: int|
            0 <= k < lengths.len() ==> (#[trigger] lengths[k] > 0 <==> count_of(keys_of(data), k)
                > 0),
        read.len() <= lengths.len(),
        forall|k: int| 0 <= k < read.len() ==> #[trigger] read[k] == lengths[k],
        forall|k: int| read.len() <= k < lengths.len() ==> #[trigger] lengths[k] == 0,
    ensures
        canonical_model(
            stable_sorted(symbols_with_lengths(data, lengths), length_then_key::<T>()),
        ) == decoding_model::<U>(read),
        lengths_of(stable_sorted(symbols_with_lengths(data, lengths), length_then_key::<T>()))
            == lengths_of(stable_sorted(length_pairs::<U>(read), length_then_key::<U>())),
{
    let a = symbols_with_lengths(data, lengths);
    let b = length_pairs::<U>(read);
    assert forall|x: int| #[trigger] sort_key_count(a, x) == sort_key_count(b, x)
        && sort_key_count(a, x) <= 1 by {
        lemma_symbols_with_lengths_count(data, lengths, x);
        lemma_length_pairs_count::<U>(read, x);
        let key = x % 0x1_0000_0000;
        lemma_count_of(keys_of(data), key);
        if count_of(keys_of(data), key) > 0 {
            let w = choose|w: int| 0 <= w < keys_of(data).len() && keys_of(data)[w] == key;
            assert(0 <= data[w].sorting_value < lengths.len());
        }
        if 0 <= key < lengths.len() {
            assert(lengths[key] > 0 <==> count_of(keys_of(data), key) > 0);
            if key < read.len() {
                assert(read[key] == lengths[key]);
            } else {
                assert(lengths[key] == 0);
            }
        }
    }
    lemma_sorted_alike(a, b);
    lemma_same_keys_same_model(
        stable_sorted(a, length_then_key::<T>()),
        stable_sorted(b, length_then_key::<U>()),
    );
}

/// What a symbol with its code length adds to the Kraft sum.
pub open spec fn kraft_term<T>(depth: int) -> spec_fn((ComparedElement<T>, i32)) -> int {
    |p: (ComparedElement<T>, i32)| pow2((depth - p.1) as nat) as int
}

/// The Kraft sum of the lengths of pairs is the sum of their terms.
pub proof fn lemma_kraft_as_sum<T>(pairs: Seq<(ComparedElement<T>, i32)>, depth: int)
    requires
        depth >= 0,
    ensures
        kraft_sum(lengths_of(pairs), depth as nat) == sum_by(pairs, kraft_term::<T>(depth)),
    decreases pairs.len(),
{
    if pairs.len() > 0 {
        lemma_kraft_as_sum(pairs.drop_last(), depth);
        assert(lengths_of(pairs).drop_last() =~= lengths_of(pairs.drop_last()));
        assert(lengths_of(pairs).last() == pairs.last().1);
    }
}

/// The Kraft sum of the code lengths that are not zero.
pub open spec fn masked_kraft(lengths: Seq<int>, depth: int) -> int
    decreases lengths.len(),
{
    if lengths.len() == 0 {
        0
    } else {
        masked_kraft(lengths.drop_last(), depth) + if lengths.last() != 0 {
            pow2((depth - lengths.last()) as nat) as int
        } else {
            0int
        }
    }
}

/// The pairs of an alphabet add up to the Kraft sum of its code lengths that
/// are not zero.
pub proof fn lemma_length_pairs_kraft<U: SymbolPayload>(lengths: Seq<int>, depth: int)
    requires
        forall|k: int| 0 <= k < lengths.len() ==> 0 <= #[trigger] lengths[k] <= i32::MAX,
    ensures
        sum_by(length_pairs::<U>(lengths), kraft_term::<U>(depth)) == masked_kraft(lengths, depth),
    decreases lengths.len(),
{
    if lengths.len() > 0 {
        let front = lengths.drop_last();
        assert forall|k: int| 0 <= k < front.len() implies 0 <= #[trigger] front[k]
            <= i32::MAX by {
            assert(front[k] == lengths[k]);
        }
        lemma_length_pairs_kraft::<U>(front, depth);
        let last = lengths.last();
        assert(last == lengths[lengths.len() - 1]);
        if last != 0 {
            let pair = (
                ComparedElement {
                    value: U::from_index(lengths.len() - 1),
                    sorting_value: (lengths.len() - 1) as i32,
                },
                last as i32,
            );
            assert(length_pairs::<U>(lengths) == length_pairs::<U>(front).push(pair));
            lemma_sum_by_push(length_pairs::<U>(front), pair, kraft_term::<U>(depth));
        }
    }
}

/// The first symbols of an alphabet add up to the Kraft sum of the lengths
/// that package-merge gave them.
proof fn lemma_alphabet_kraft_prefix(counts: Seq<int>, depth: int, s: int)
    requires
        0 <= s <= counts.len(),
        depth >= 1,
        forall|k: int| 0 <= k < counts.len() ==> #[trigger] counts[k] >= 0,
        positive_weights(counts).len() <= pow2(depth as nat),
    ensures
        masked_kraft(alphabet_lengths(counts, depth).subrange(0, s), depth) == kraft_sum(
            package_merge_lengths(positive_weights(counts), depth).subrange(0, rank_of(counts, s)),
            depth as nat,
        ),
        0 <= rank_of(counts, s) <= positive_weights(counts).len(),
    decreases s,
{
    let lengths = alphabet_lengths(counts, depth);
    let merged = package_merge_lengths(positive_weights(counts), depth);
    lemma_positive_weights(counts);
    lemma_package_merge_lengths(positive_weights(counts), depth);
    if s == 0 {
        assert(counts.subrange(0, 0) =~= Seq::<int>::empty());
        assert(lengths.subrange(0, 0) =~= Seq::<int>::empty());
        assert(merged.subrange(0, 0) =~= Seq::<int>::empty());
    } else {
        lemma_alphabet_kraft_prefix(counts, depth, s - 1);
        let r = rank_of(counts, s - 1);
        assert(counts.subrange(0, s).drop_last() =~= counts.subrange(0, s - 1));
        assert(counts.subrange(0, s).last() == counts[s - 1]);
        assert(lengths.subrange(0, s).drop_last() =~= lengths.subrange(0, s - 1));
        assert(lengths.subrange(0, s).last() == lengths[s - 1]);
        crate::coding::lemma_positive_weights_prefix(counts, s);
        if counts[s - 1] != 0 {
            assert(rank_of(counts, s) == r + 1);
            assert(lengths[s - 1] == merged[r]);
            assert(1 <= merged[r]);
            assert(merged.subrange(0, r + 1).drop_last() =~= merged.subrange(0, r));
            assert(merged.subrange(0, r + 1).last() == merged[r]);
        } else {
            assert(rank_of(counts, s) == r);
            assert(lengths[s - 1] == 0);
        }
    }
}

/// The code lengths of an alphabet are zero or between one and the limit,
/// and those that are not zero satisfy Kraft's inequality.
pub proof fn lemma_alphabet_kraft(counts: Seq<int>, depth: int)
    requires
        depth >= 1,
        forall|k: int| 0 <= k < counts.len() ==> #[trigger] counts[k] >= 0,
        positive_weights(counts).len() <= pow2(depth as nat),
    ensures
        masked_kraft(alphabet_lengths(counts, depth), depth) <= pow2(depth as nat),
        forall|k: int|
            0 <= k < counts.len() ==> 0 <= #[trigger] alphabet_lengths(counts, depth)[k] <= depth,
        forall|k: int|
            0 <= k < counts.len() ==> (#[trigger] alphabet_lengths(counts, depth)[k] > 0
                <==> counts[k] > 0),
{
    let lengths = alphabet_lengths(counts, depth);
    let merged = package_merge_lengths(positive_weights(counts), depth);
    lemma_positive_weights(counts);
    lemma_package_merge_lengths(positive_weights(counts), depth);
    lemma_alphabet_kraft_prefix(counts, depth, counts.len() as int);
    assert(lengths.subrange(0, counts.len() as int) =~= lengths);
    assert(counts.subrange(0, counts.len() as int) =~= counts);
    assert(merged.subrange(0, merged.len() as int) =~= merged);
    assert forall|k: int| 0 <= k < counts.len() implies 0 <= #[trigger] lengths[k] <= depth && (
    lengths[k] > 0 <==> counts[k] > 0) by {
        if counts[k] != 0 {
            lemma_alphabet_kraft_prefix(counts, depth, k);
            lemma_alphabet_kraft_prefix(counts, depth, k + 1);
            assert(counts.subrange(0, k + 1).drop_last() =~= counts.subrange(0, k));
            assert(counts.subrange(0, k + 1).last() == counts[k]);
            let r = rank_of(counts, k);
            assert(rank_of(counts, k + 1) == r + 1);
            assert(1 <= merged[r] <= depth);
        }
    }
}

/// No code word of the code is the beginning of another, and none is empty.
pub open spec fn prefix_free(model: CodeModel) -> bool {
    &&& forall|i: int| 0 <= i < model.len() ==> (#[trigger] model[i]).1.len() >= 1
    &&& forall|i: int, j: int|
        0 <= i < model.len() && 0 <= j < model.len() && i != j ==> !is_prefix(
            #[trigger] model[i].1,
            #[trigger] model[j].1,
        )
}

/// The symbols of an alphabet with their code lengths, in the order of the
/// canonical code.
pub open spec fn sorted_pairs<U: SymbolPayload>(lengths: Seq<int>) -> Seq<(ComparedElement<U>, i32)> {
    stable_sorted(length_pairs::<U>(lengths), length_then_key::<U>())
}

/// Sorted, the symbols with a code length have lengths between one and the
/// limit, in ascending order, which satisfy Kraft's inequality.
pub proof fn lemma_sorted_pairs<U: SymbolPayload>(lengths: Seq<int>, depth: int)
    requires
        depth >= 1,
        lengths.len() <= i32::MAX,
        forall|k: int| 0 <= k < lengths.len() ==> 0 <= #[trigger] lengths[k] <= depth,
        depth <= i32::MAX,
        masked_kraft(lengths, depth) <= pow2(depth as nat),
    ensures
        forall|i: int|
            0 <= i < sorted_pairs::<U>(lengths).len() ==> {
                let p = #[trigger] sorted_pairs::<U>(lengths)[i];
                &&& 1 <= p.1 <= depth
                &&& 0 <= p.0.sorting_value < lengths.len()
                &&& p.1 == lengths[p.0.sorting_value as int]
            },
        forall|i: int|
            0 <= i < sorted_pairs::<U>(lengths).len() ==> 1 <= #[trigger] lengths_of(
                sorted_pairs::<U>(lengths),
            )[i] <= depth,
        non_decreasing(lengths_of(sorted_pairs::<U>(lengths))),
        kraft_sum(lengths_of(sorted_pairs::<U>(lengths)), depth as nat) <= pow2(depth as nat),
{
    let listed = length_pairs::<U>(lengths);
    let sorted = sorted_pairs::<U>(lengths);
    let lens = lengths_of(sorted);
    lemma_stable_sorted(listed, length_then_key::<U>());
    lemma_length_pairs::<U>(lengths, lengths.len() as int);
    assert forall|i: int| 0 <= i < sorted.len() implies {
        let p = #[trigger] sorted[i];
        &&& 1 <= p.1 <= depth
        &&& 0 <= p.0.sorting_value < lengths.len()
        &&& p.1 == lengths[p.0.sorting_value as int]
    } by {
        assert(listed.contains(sorted[i]));
        let j = choose|j: int| 0 <= j < listed.len() && listed[j] == sorted[i];
        let p = listed[j];
        assert(p.1 == lengths[p.0.sorting_value as int]);
    }
    assert forall|i: int| 0 <= i < sorted.len() implies 1 <= #[trigger] lens[i] <= depth by {
        assert(1 <= sorted[i].1 <= depth);
    }
    assert forall|i: int| 0 < i < lens.len() implies lens[i - 1] <= #[trigger] lens[i] by {
        assert(length_then_key::<U>()(sorted[i - 1]) <= length_then_key::<U>()(sorted[i]));
        assert(sorted[i - 1].sort_key() == sorted[i - 1].1 * 0x1_0000_0000 + sorted[i
            - 1].0.sorting_value);
        assert(sorted[i].sort_key() == sorted[i].1 * 0x1_0000_0000 + sorted[i].0.sorting_value);
    }
    lemma_kraft_as_sum(sorted, depth);
    lemma_length_pairs_kraft::<U>(lengths, depth);
    assert(sum_by(sorted, kraft_term::<U>(depth)) == sum_by(listed, kraft_term::<U>(depth)));
}

/// The canonical code of an alphabet whose code lengths are zero or between
/// one and the limit, and satisfy Kraft's inequality, is a prefix code; every
/// code word belongs to a symbol of the alphabet and has the symbol's code
/// length.
pub proof fn lemma_decoding_model<U: SymbolPayload>(lengths: Seq<int>, depth: int)
    requires
        depth >= 1,
        lengths.len() <= i32::MAX,
        forall|k: int| 0 <= k < lengths.len() ==> 0 <= #[trigger] lengths[k] <= depth,
        depth <= i32::MAX,
        masked_kraft(lengths, depth) <= pow2(depth as nat),
    ensures
        prefix_free(decoding_model::<U>(lengths)),
        forall|i: int|
            0 <= i < decoding_model::<U>(lengths).len() ==> 0 <= (#[trigger] decoding_model::<U>(
                lengths,
            )[i]).0 < lengths.len() && decoding_model::<U>(lengths)[i].1.len()
                == lengths[decoding_model::<U>(lengths)[i].0],
{
    let sorted = sorted_pairs::<U>(lengths);
    let lens = lengths_of(sorted);
    let model = decoding_model::<U>(lengths);
    lemma_sorted_pairs::<U>(lengths, depth);
    assert(model == canonical_model(sorted));
    assert forall|i: int| 0 <= i < model.len() implies (#[trigger] model[i]).1.len() >= 1 && 0
        <= model[i].0 < lengths.len() && model[i].1.len() == lengths[model[i].0] by {
        lemma_fixed_bits(crate::canonical::canonical_value(lens, i), lens[i] as nat);
        assert(1 <= lens[i]);
        let p = sorted[i];
        assert(p.1 == lengths[p.0.sorting_value as int]);
    }
    assert forall|i: int, j: int|
        0 <= i < model.len() && 0 <= j < model.len() && i != j implies !is_prefix(
        #[trigger] model[i].1,
        #[trigger] model[j].1,
    ) by {
        lemma_canonical_codes_prefix_free(lens, depth as nat, i, j);
    }
}

/// Every symbol with a code length has a code word in the canonical code of
/// its alphabet.
pub proof fn lemma_decoding_model_has<U: SymbolPayload>(lengths: Seq<int>, k: int)
    requires
        lengths.len() <= i32::MAX,
        forall|k: int| 0 <= k < lengths.len() ==> 0 <= #[trigger] lengths[k] <= i32::MAX,
        0 <= k < lengths.len(),
        lengths[k] != 0,
    ensures
        exists|i: int|
            0 <= i < decoding_model::<U>(lengths).len() && (#[trigger] decoding_model::<U>(
                lengths,
            )[i]).0 == k,
{
    let listed = length_pairs::<U>(lengths);
    let sorted = sorted_pairs::<U>(lengths);
    let model = decoding_model::<U>(lengths);
    lemma_stable_sorted(listed, length_then_key::<U>());
    let x = lengths[k] * 0x1_0000_0000 + k;
    lemma_length_pairs_count::<U>(lengths, x);
    assert(is_pair_key(lengths, x));
    assert(sum_by(sorted, has_sort_key::<U>(x)) == sum_by(listed, has_sort_key::<U>(x)));
    lemma_has_sort_key(sorted, x);
    let i = choose|i: int| 0 <= i < sorted.len() && (#[trigger] sorted[i]).sort_key() == x;
    assert(sorted[i].sort_key() == sorted[i].1 * 0x1_0000_0000 + sorted[i].0.sorting_value);
    assert(model[i].0 == k);
}

/// A sort key that is counted belongs to one of the pairs.
proof fn lemma_has_sort_key<T>(pairs: Seq<(ComparedElement<T>, i32)>, x: int)
    requires
        sort_key_count(pairs, x) > 0,
    ensures
        exists|i: int| 0 <= i < pairs.len() && (#[trigger] pairs[i]).sort_key() == x,
    decreases pairs.len(),
{
    if pairs.len() > 0 {
        if pairs.last().sort_key() == x {
            assert(pairs[pairs.len() - 1].sort_key() == x);
        } else {
            lemma_has_sort_key(pairs.drop_last(), x);
            let i = choose|i: int|
                0 <= i < pairs.drop_last().len() && (#[trigger] pairs.drop_last()[i]).sort_key()
                    == x;
            assert(pairs[i].sort_key() == x);
        }
    }
}

} // verus!
