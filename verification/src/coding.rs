use vstd::prelude::*;
use crate::bin_num::pow2;
use crate::canonical::{
    canonical_code, canonical_model, huffman_lengths_to_bin_code, lemma_last_index_of_key,
    lengths_of, non_decreasing, CodeBook,
};
use crate::compared_element::ComparedElement;
use crate::error::DeflateError;
use crate::huffman::{bounded_huffman, lengths_as_ints, package_merge_lengths, seq_sum, weights_of};
use crate::sorting::{lemma_stable_sorted, stable_sort, stable_sorted, sum_by, SortKey};

verus! {

impl<T> SortKey for (ComparedElement<T>, i32) {
    /// By code length first, by the symbol's key second.
    open spec fn sort_key(&self) -> int {
        self.1 * 0x1_0000_0000 + self.0.sorting_value
    }

    fn compute_sort_key(&self) -> (key: i128) {
        (self.1 as i128) * 0x1_0000_0000 + (self.0.sorting_value as i128)
    }
}

/// The key by which symbols with their code lengths are sorted, as a value.
pub open spec fn length_then_key<T>() -> spec_fn((ComparedElement<T>, i32)) -> int {
    |p: (ComparedElement<T>, i32)| p.sort_key()
}

/// Sorts symbols with their code lengths by length, and symbols of equal
/// length by key; symbols that agree in both keep their order.
pub fn sort_huffman_lengths<T>(data: &mut Vec<(ComparedElement<T>, i32)>)
    ensures
        final(data)@ == stable_sorted(old(data)@, length_then_key::<T>()),
        non_decreasing(lengths_of(final(data)@)),
        final(data)@.len() == old(data)@.len(),
{
    proof {
        lemma_stable_sorted(data@, length_then_key::<T>());
        assert(length_then_key::<T>() == (|a: (ComparedElement<T>, i32)| a.sort_key()));
        let sorted = stable_sorted(data@, length_then_key::<T>());
        let lens = lengths_of(sorted);
        assert forall|i: int| 0 < i < lens.len() implies lens[i - 1] <= #[trigger] lens[i] by {
            assert(length_then_key::<T>()(sorted[i - 1]) <= length_then_key::<T>()(sorted[i]));
        }
    }
    stable_sort(data);
}

/// How often `symbol` occurs among the keys.
pub open spec fn count_of(keys: Seq<int>, symbol: int) -> int
    decreases keys.len(),
{
    if keys.len() == 0 {
        0
    } else {
        count_of(keys.drop_last(), symbol) + if keys.last() == symbol {
            1int
        } else {
            0int
        }
    }
}

/// For every symbol of an alphabet of `size` symbols, how often it occurs.
pub open spec fn symbol_counts(keys: Seq<int>, size: nat) -> Seq<int> {
    Seq::new(size, |s: int| count_of(keys, s))
}

/// The counts that are not zero, in their order.
pub open spec fn positive_weights(counts: Seq<int>) -> Seq<int>
    decreases counts.len(),
{
    if counts.len() == 0 {
        Seq::empty()
    } else if counts.last() != 0 {
        positive_weights(counts.drop_last()).push(counts.last())
    } else {
        positive_weights(counts.drop_last())
    }
}

/// How many symbols before `symbol` occur.
pub open spec fn rank_of(counts: Seq<int>, symbol: int) -> int {
    positive_weights(counts.subrange(0, symbol)).len() as int
}

/// The code length of every symbol of the alphabet: zero for a symbol that
/// does not occur; for the others what package-merge gives to their counts.
pub open spec fn alphabet_lengths(counts: Seq<int>, depth: int) -> Seq<int> {
    Seq::new(
        counts.len(),
        |s: int|
            if counts[s] == 0 {
                0
            } else {
                package_merge_lengths(positive_weights(counts), depth)[rank_of(counts, s)]
            },
    )
}

/// The keys of the elements.
pub open spec fn keys_of<T>(data: Seq<ComparedElement<T>>) -> Seq<int> {
    Seq::new(data.len(), |k: int| data[k].sorting_value as int)
}

/// The elements whose key has not occurred before them, in their order.
pub open spec fn first_occurrences<T>(data: Seq<ComparedElement<T>>) -> Seq<ComparedElement<T>>
    decreases data.len(),
{
    if data.len() == 0 {
        Seq::empty()
    } else {
        let earlier = first_occurrences(data.drop_last());
        if count_of(keys_of(data.drop_last()), data.last().sorting_value as int) == 0 {
            earlier.push(data.last())
        } else {
            earlier
        }
    }
}

/// The symbols in use with their code lengths, in the order in which they
/// first occur.
pub open spec fn symbols_with_lengths<T>(
    data: Seq<ComparedElement<T>>,
    lengths: Seq<int>,
) -> Seq<(ComparedElement<T>, i32)> {
    let used = first_occurrences(data);
    Seq::new(used.len(), |j: int| (used[j], lengths[used[j].sorting_value as int] as i32))
}

/// The symbols in use with their code lengths, in the order in which the
/// canonical code takes them.
pub open spec fn coded_symbols<T>(data: Seq<ComparedElement<T>>, size: nat, depth: int) -> Seq<
    (ComparedElement<T>, i32),
> {
    stable_sorted(
        symbols_with_lengths(data, alphabet_lengths(symbol_counts(keys_of(data), size), depth)),
        length_then_key::<T>(),
    )
}

/// The code holds the symbols in the given order, each with the canonical
/// code word of its position.
pub open spec fn book_holds<T: Copy>(book: CodeBook<T>, coded: Seq<(ComparedElement<T>, i32)>) -> bool {
    &&& book.entries@.len() == coded.len()
    &&& forall|i: int|
        #![trigger book.entries@[i]]
        0 <= i < coded.len() ==> book.entries@[i].symbol == coded[i].0 && book.entries@[i].code@
            == canonical_code(lengths_of(coded), i)
    &&& book.model() == canonical_model(coded)
}

/// A symbol occurs at most as often as there are keys, and at least once
/// exactly when it is among them.
pub proof fn lemma_count_of(keys: Seq<int>, symbol: int)
    ensures
        0 <= count_of(keys, symbol) <= keys.len(),
        count_of(keys, symbol) > 0 <==> keys.contains(symbol),
    decreases keys.len(),
{
    if keys.len() > 0 {
        let front = keys.drop_last();
        lemma_count_of(front, symbol);
        if keys.last() == symbol {
            assert(keys[keys.len() - 1] == symbol);
        } else if front.contains(symbol) {
            let w = choose|w: int| 0 <= w < front.len() && front[w] == symbol;
            assert(keys[w] == symbol);
        } else if keys.contains(symbol) {
            let w = choose|w: int| 0 <= w < keys.len() && keys[w] == symbol;
            assert(front[w] == symbol);
        }
    }
}

/// The counts that are not zero are positive, no more than all counts, and add
/// up to the same.
pub proof fn lemma_positive_weights(counts: Seq<int>)
    requires
        forall|s: int| 0 <= s < counts.len() ==> #[trigger] counts[s] >= 0,
    ensures
        positive_weights(counts).len() <= counts.len(),
        forall|k: int|
            0 <= k < positive_weights(counts).len() ==> #[trigger] positive_weights(counts)[k] >= 1,
        seq_sum(positive_weights(counts)) == seq_sum(counts),
    decreases counts.len(),
{
    if counts.len() > 0 {
        let front = counts.drop_last();
        assert forall|s: int| 0 <= s < front.len() implies #[trigger] front[s] >= 0 by {
            assert(front[s] == counts[s]);
        }
        lemma_positive_weights(front);
        assert(counts.last() == counts[counts.len() - 1]);
        if counts.last() != 0 {
            assert(positive_weights(front).push(counts.last()).drop_last() =~= positive_weights(
                front,
            ));
        }
    }
}

/// A vector of `size` zeros.
pub fn zeros(size: usize) -> (v: Vec<i32>)
    ensures
        v.len() == size,
        forall|k: int| 0 <= k < size ==> #[trigger] v[k] == 0,
{
    let mut v: Vec<i32> = Vec::new();
    let mut k: usize = 0;
    while k < size
        invariant
            k <= size,
            v.len() == k,
            forall|j: int| 0 <= j < k ==> #[trigger] v[j] == 0,
        decreases size - k,
    {
        v.push(0);
        k += 1;
    }
    v
}

/// Counts how often every symbol occurs, and collects the elements whose key
/// has not occurred before them.
fn count_symbols<T: Copy>(lang_size: usize, data: &[ComparedElement<T>]) -> (counted: (
    Vec<i32>,
    Vec<ComparedElement<T>>,
))
    requires
        forall|k: int| 0 <= k < data.len() ==> 0 <= (#[trigger] data[k]).sorting_value < lang_size,
        data.len() <= i32::MAX,
    ensures
        lengths_as_ints(counted.0@) == symbol_counts(keys_of(data@), lang_size as nat),
        counted.1@ == first_occurrences(data@),
{
    let mut counter: Vec<i32> = zeros(lang_size);
    let mut lang: Vec<ComparedElement<T>> = Vec::new();
    let mut k: usize = 0;
    assert(data@.subrange(0, 0) =~= Seq::<ComparedElement<T>>::empty());
    while k < data.len()
        invariant
            k <= data.len(),
            data.len() <= i32::MAX,
            counter.len() == lang_size,
            forall|j: int|
                0 <= j < data.len() ==> 0 <= (#[trigger] data[j]).sorting_value < lang_size,
            forall|s: int|
                0 <= s < lang_size ==> #[trigger] counter[s] == count_of(
                    keys_of(data@.subrange(0, k as int)),
                    s,
                ),
            lang@ == first_occurrences(data@.subrange(0, k as int)),
        decreases data.len() - k,
    {
        let element = data[k];
        let symbol: usize = element.sorting_value as usize;
        let ghost before = data@.subrange(0, k as int);
        let ghost after = data@.subrange(0, k + 1);
        proof {
            assert(after.drop_last() =~= before);
            assert(after.last() == element);
            assert(keys_of(after).drop_last() =~= keys_of(before));
            assert(keys_of(after).last() == element.sorting_value);
            lemma_count_of(keys_of(before), symbol as int);
        }
        let seen: i32 = counter[symbol];
        counter.set(symbol, seen + 1);
        if seen == 0 {
            lang.push(element);
        }
        k += 1;
    }
    proof {
        assert(data@.subrange(0, k as int) =~= data@);
        assert(lengths_as_ints(counter@) =~= symbol_counts(keys_of(data@), lang_size as nat));
    }
    (counter, lang)
}

/// The counts that are not zero, in their order.
fn used_weights(counter: &Vec<i32>) -> (weights: Vec<i32>)
    ensures
        weights_of(weights@) == positive_weights(lengths_as_ints(counter@)),
{
    let ghost counts = lengths_as_ints(counter@);
    let mut weights: Vec<i32> = Vec::new();
    let mut s: usize = 0;
    assert(counts.subrange(0, 0) =~= Seq::<int>::empty());
    assert(weights_of(weights@) =~= Seq::<int>::empty());
    while s < counter.len()
        invariant
            s <= counter.len(),
            counts == lengths_as_ints(counter@),
            weights_of(weights@) == positive_weights(counts.subrange(0, s as int)),
        decreases counter.len() - s,
    {
        let ghost before = counts.subrange(0, s as int);
        let ghost after = counts.subrange(0, s + 1);
        proof {
            assert(after.drop_last() =~= before);
            assert(after.last() == counter[s as int]);
        }
        if counter[s] != 0 {
            let ghost old_weights = weights@;
            weights.push(counter[s]);
            assert(weights_of(weights@) =~= weights_of(old_weights).push(counter[s as int] as int));
        }
        s += 1;
    }
    assert(counts.subrange(0, s as int) =~= counts);
    weights
}

/// The code length of every symbol of the alphabet, from the code lengths of
/// the symbols that occur.
fn spread_lengths(counter: &Vec<i32>, required: &Vec<i32>) -> (all: Vec<i32>)
    requires
        required.len() == positive_weights(lengths_as_ints(counter@)).len(),
    ensures
        all.len() == counter.len(),
        forall|s: int|
            0 <= s < counter.len() ==> #[trigger] all[s] == if counter[s] == 0 {
                0
            } else {
                required[rank_of(lengths_as_ints(counter@), s)]
            },
        forall|s: int|
            0 <= s < counter.len() && counter[s] != 0 ==> 0 <= #[trigger] rank_of(
                lengths_as_ints(counter@),
                s,
            ) < required.len(),
{
    let ghost counts = lengths_as_ints(counter@);
    let mut all: Vec<i32> = Vec::new();
    let mut rank: usize = 0;
    let mut s: usize = 0;
    assert(counts.subrange(0, 0) =~= Seq::<int>::empty());
    while s < counter.len()
        invariant
            s <= counter.len(),
            counts == lengths_as_ints(counter@),
            required.len() == positive_weights(counts).len(),
            rank == rank_of(counts, s as int),
            rank <= s,
            all.len() == s,
            forall|j: int|
                0 <= j < s ==> #[trigger] all[j] == if counter[j] == 0 {
                    0
                } else {
                    required[rank_of(counts, j)]
                },
            forall|j: int|
                0 <= j < s && counter[j] != 0 ==> 0 <= #[trigger] rank_of(counts, j)
                    < required.len(),
        decreases counter.len() - s,
    {
        proof {
            lemma_rank_of_step(counts, s as int);
            assert(counts[s as int] == counter[s as int]);
        }
        if counter[s] == 0 {
            all.push(0);
        } else {
            all.push(required[rank]);
            rank += 1;
        }
        s += 1;
    }
    all
}

/// The rank of the next symbol is one more exactly when this symbol occurs.
pub proof fn lemma_rank_of_step(counts: Seq<int>, s: int)
    requires
        0 <= s < counts.len(),
    ensures
        rank_of(counts, s + 1) == rank_of(counts, s) + if counts[s] != 0 {
            1int
        } else {
            0int
        },
        rank_of(counts, s + 1) <= positive_weights(counts).len(),
        0 <= rank_of(counts, s),
{
    let before = counts.subrange(0, s);
    let after = counts.subrange(0, s + 1);
    assert(after.drop_last() =~= before);
    assert(after.last() == counts[s]);
    lemma_positive_weights_prefix(counts, s + 1);
}

/// Among the first counts no more are positive than among all.
pub proof fn lemma_positive_weights_prefix(counts: Seq<int>, s: int)
    requires
        0 <= s <= counts.len(),
    ensures
        positive_weights(counts.subrange(0, s)).len() <= positive_weights(counts).len(),
    decreases counts.len() - s,
{
    if s == counts.len() {
        assert(counts.subrange(0, s) =~= counts);
    } else {
        lemma_positive_weights_prefix(counts, s + 1);
        assert(counts.subrange(0, s + 1).drop_last() =~= counts.subrange(0, s));
    }
}

/// The number of different symbols among the keys.
pub open spec fn symbols_in_use(keys: Seq<int>, size: nat) -> nat {
    positive_weights(symbol_counts(keys, size)).len()
}

/// Every element whose key occurs is found among the first occurrences.
pub proof fn lemma_first_occurrences<T>(data: Seq<ComparedElement<T>>, k: int)
    requires
        0 <= k < data.len(),
    ensures
        exists|j: int|
            0 <= j < first_occurrences(data).len() && (#[trigger] first_occurrences(
                data,
            )[j]).sorting_value == data[k].sorting_value,
        forall|j: int|
            0 <= j < first_occurrences(data).len() ==> data.contains(
                #[trigger] first_occurrences(data)[j],
            ),
    decreases data.len(),
{
    let front = data.drop_last();
    let earlier = first_occurrences(front);
    let all = first_occurrences(data);
    let key = data[k].sorting_value;
    if data.len() > 1 {
        lemma_first_occurrences(front, 0);
    }
    assert forall|j: int| 0 <= j < all.len() implies data.contains(#[trigger] all[j]) by {
        if j < earlier.len() {
            assert(all[j] == earlier[j]);
            assert(front.contains(earlier[j]));
            let w = choose|w: int| 0 <= w < front.len() && front[w] == earlier[j];
            assert(data[w] == earlier[j]);
        } else {
            assert(all[j] == data[data.len() - 1]);
        }
    }
    if k < data.len() - 1 {
        lemma_first_occurrences(front, k);
        let j = choose|j: int|
            0 <= j < earlier.len() && (#[trigger] earlier[j]).sorting_value == front[k].sorting_value;
        assert(all[j] == earlier[j]);
    } else {
        lemma_count_of(keys_of(front), key as int);
        if count_of(keys_of(front), key as int) == 0 {
            assert(all[all.len() - 1] == data.last());
        } else {
            let w = choose|w: int| 0 <= w < keys_of(front).len() && keys_of(front)[w] == key;
            lemma_first_occurrences(front, w);
            let j = choose|j: int|
                0 <= j < earlier.len() && (#[trigger] earlier[j]).sorting_value
                    == front[w].sorting_value;
            assert(all[j] == earlier[j]);
        }
    }
}

/// Whether a symbol with its code length has the key.
pub open spec fn has_key<T>(key: int) -> spec_fn((ComparedElement<T>, i32)) -> int {
    |p: (ComparedElement<T>, i32)|
        if p.0.sorting_value == key {
            1int
        } else {
            0int
        }
}

/// A sum of terms that are nowhere negative is positive exactly when one of
/// its terms is.
proof fn lemma_sum_by_witness<A>(s: Seq<A>, f: spec_fn(A) -> int)
    requires
        forall|i: int| 0 <= i < s.len() ==> f(#[trigger] s[i]) >= 0,
    ensures
        sum_by(s, f) > 0 <==> exists|i: int| 0 <= i < s.len() && f(#[trigger] s[i]) > 0,
    decreases s.len(),
{
    if s.len() > 0 {
        let front = s.drop_last();
        assert forall|i: int| 0 <= i < front.len() implies f(#[trigger] front[i]) >= 0 by {
            assert(front[i] == s[i]);
        }
        lemma_sum_by_witness(front, f);
        crate::sorting::lemma_sum_by_nonnegative(front, f);
        if sum_by(front, f) > 0 {
            let w = choose|i: int| 0 <= i < front.len() && f(#[trigger] front[i]) > 0;
            assert(f(s[w]) > 0);
        } else if f(s.last()) > 0 {
            assert(f(s[s.len() - 1]) > 0);
        } else if exists|i: int| 0 <= i < s.len() && f(#[trigger] s[i]) > 0 {
            let w = choose|i: int| 0 <= i < s.len() && f(#[trigger] s[i]) > 0;
            assert(f(front[w]) > 0);
        }
    }
}

/// A code that holds the coded symbols of the data has a code word for every
/// key of the data.
pub proof fn lemma_book_has_codes<T: Copy>(
    book: CodeBook<T>,
    data: Seq<ComparedElement<T>>,
    lengths: Seq<int>,
    k: int,
)
    requires
        book_holds(book, stable_sorted(symbols_with_lengths(data, lengths), length_then_key::<T>())),
        0 <= k < data.len(),
    ensures
        book.code_of(data[k].sorting_value as int) is Some,
{
    let key = data[k].sorting_value as int;
    let listed = symbols_with_lengths(data, lengths);
    let coded = stable_sorted(listed, length_then_key::<T>());
    lemma_stable_sorted(listed, length_then_key::<T>());
    lemma_first_occurrences(data, k);
    let j = choose|j: int|
        0 <= j < first_occurrences(data).len() && (#[trigger] first_occurrences(
            data,
        )[j]).sorting_value == data[k].sorting_value;
    let f = has_key::<T>(key);
    assert(f(listed[j]) > 0);
    lemma_sum_by_witness(listed, f);
    lemma_sum_by_witness(coded, f);
    assert(sum_by(coded, f) == sum_by(listed, f));
    let i = choose|i: int| 0 <= i < coded.len() && f(#[trigger] coded[i]) > 0;
    assert(book.entries@[i].symbol == coded[i].0);
    assert(book.model()[i].0 == key);
    lemma_last_index_of_key(book.model(), key);
}

/// Builds the code of the symbols that occur in `data`, over an alphabet of
/// `lang_size` symbols: code lengths of at most `max_depth` bits by
/// package-merge on the symbols' counts, and canonical code words for the
/// symbols in order of length and key. `Err(InfeasibleHuffman)` exactly when
/// more different symbols occur than two to the power `max_depth`.
pub fn huffman_encoding<T: Copy>(max_depth: i32, lang_size: usize, data: &[ComparedElement<T>]) -> (coded:
    Result<(CodeBook<T>, Vec<i32>), DeflateError>)
    requires
        max_depth >= 1,
        lang_size <= i32::MAX,
        forall|k: int| 0 <= k < data.len() ==> 0 <= (#[trigger] data[k]).sorting_value < lang_size,
        data.len() <= i32::MAX,
    ensures
        coded is Ok <==> symbols_in_use(keys_of(data@), lang_size as nat) <= pow2(max_depth as nat),
        coded matches Err(e) ==> e == DeflateError::InfeasibleHuffman,
        coded matches Ok(c) ==> {
            &&& lengths_as_ints(c.1@) == alphabet_lengths(
                symbol_counts(keys_of(data@), lang_size as nat),
                max_depth as int,
            )
            &&& c.1.len() == lang_size
            &&& forall|s: int| 0 <= s < lang_size ==> 0 <= #[trigger] c.1[s] <= max_depth
            &&& forall|s: int|
                0 <= s < lang_size ==> (#[trigger] c.1[s] > 0 <==> count_of(keys_of(data@), s) > 0)
            &&& book_holds(c.0, coded_symbols(data@, lang_size as nat, max_depth as int))
            &&& forall|k: int|
                0 <= k < data.len() ==> c.0.code_of((#[trigger] data[k]).sorting_value as int) is Some
            &&& forall|i: int|
                0 <= i < c.0.model().len() ==> 0 <= (#[trigger] c.0.model()[i]).0 < lang_size
            &&& crate::tables::prefix_free(c.0.model())
            &&& crate::tables::masked_kraft(lengths_as_ints(c.1@), max_depth as int) <= pow2(
                max_depth as nat,
            )
        },
{
    let ghost keys = keys_of(data@);
    let ghost counts = symbol_counts(keys, lang_size as nat);
    let (counter, lang) = count_symbols(lang_size, data);
    assert(counter.len() == lang_size) by {
        assert(lengths_as_ints(counter@).len() == counts.len());
    }
    let required_data = used_weights(&counter);
    proof {
        assert forall|s: int| 0 <= s < counts.len() implies #[trigger] counts[s] >= 0 by {
            lemma_count_of(keys, s);
        }
        lemma_positive_weights(counts);
        let weights = weights_of(required_data@);
        assert forall|k: int| 0 <= k < required_data.len() implies #[trigger] required_data[k]
            >= 1 by {
            assert(weights[k] >= 1);
        }
        assert(weights.len() == required_data.len());
    }
    let required_lengths = match bounded_huffman(max_depth, required_data.as_slice()) {
        Ok(lengths) => lengths,
        Err(e) => {
            return Err(e);
        },
    };
    let all_lengths = spread_lengths(&counter, &required_lengths);
    let ghost expected = alphabet_lengths(counts, max_depth as int);
    proof {
        let merged = package_merge_lengths(positive_weights(counts), max_depth as int);
        assert(lengths_as_ints(required_lengths@) == merged);
        assert forall|s: int| 0 <= s < lang_size implies #[trigger] all_lengths[s] == expected[s]
            && 0 <= all_lengths[s] <= max_depth && (all_lengths[s] > 0 <==> counts[s] > 0) by {
            assert(lengths_as_ints(counter@)[s] == counts[s]);
            if counter[s] != 0 {
                let r = rank_of(counts, s);
                assert(0 <= r < required_lengths.len());
                assert(lengths_as_ints(required_lengths@)[r] == required_lengths[r]);
            }
        }
        assert(lengths_as_ints(all_lengths@) =~= expected);
        if data.len() > 0 {
            lemma_first_occurrences(data@, 0);
        }
    }
    let mut repetition_element: Vec<(ComparedElement<T>, i32)> = Vec::new();
    let mut j: usize = 0;
    while j < lang.len()
        invariant
            j <= lang.len(),
            lang@ == first_occurrences(data@),
            all_lengths.len() == lang_size,
            lengths_as_ints(all_lengths@) == expected,
            forall|k: int|
                0 <= k < data.len() ==> 0 <= (#[trigger] data[k]).sorting_value < lang_size,
            forall|k: int| 0 <= k < lang.len() ==> data@.contains(#[trigger] lang[k]),
            forall|s: int| 0 <= s < lang_size ==> 0 <= #[trigger] all_lengths[s],
            repetition_element.len() == j,
            forall|k: int|
                0 <= k < j ==> #[trigger] repetition_element[k] == symbols_with_lengths(
                    data@,
                    expected,
                )[k],
        decreases lang.len() - j,
    {
        let element = lang[j];
        proof {
            assert(data@.contains(lang[j as int]));
            let w = choose|w: int| 0 <= w < data@.len() && data@[w] == lang[j as int];
            assert(0 <= data[w].sorting_value < lang_size);
            assert(expected[element.sorting_value as int] == all_lengths[element.sorting_value as int]);
        }
        let length: i32 = all_lengths[element.sorting_value as usize];
        repetition_element.push((element, length));
        j += 1;
    }
    proof {
        assert(repetition_element@ =~= symbols_with_lengths(data@, expected));
        assert forall|k: int| 0 <= k < repetition_element.len() implies (
        #[trigger] repetition_element[k]).1 >= 0 by {
            let e = lang[k];
            assert(data@.contains(lang[k]));
            let w = choose|w: int| 0 <= w < data@.len() && data@[w] == lang[k];
            assert(0 <= data[w].sorting_value < lang_size);
            assert(all_lengths[e.sorting_value as int] >= 0);
            assert(expected[e.sorting_value as int] == all_lengths[e.sorting_value as int]);
        }
        lemma_stable_sorted(repetition_element@, length_then_key::<T>());
    }
    sort_huffman_lengths(&mut repetition_element);
    proof {
        let listed = symbols_with_lengths(data@, expected);
        let sorted = repetition_element@;
        assert forall|k: int| 0 <= k < sorted.len() implies (#[trigger] sorted[k]).1 >= 0 by {
            assert(listed.contains(sorted[k]));
        }
    }
    let ghost sorted = repetition_element@;
    let book = match huffman_lengths_to_bin_code(repetition_element) {
        Ok(book) => book,
        Err(e) => {
            return Err(e);
        },
    };
    proof {
        assert forall|k: int| 0 <= k < data.len() implies book.code_of(
            (#[trigger] data[k]).sorting_value as int,
        ) is Some by {
            lemma_book_has_codes(book, data@, expected, k);
        }
        crate::alphabet::lemma_lengths_for(data@, lang_size as nat, max_depth as int);
        crate::alphabet::lemma_model_for::<T, crate::symbols::DeflateLength>(
            data@,
            lang_size as nat,
            max_depth as int,
        );
        let listed = symbols_with_lengths(data@, expected);
        assert forall|i: int| 0 <= i < book.model().len() implies 0 <= (#[trigger] book.model()[
            i
        ]).0 < lang_size by {
            assert(listed.contains(sorted[i]));
            let j = choose|j: int| 0 <= j < listed.len() && listed[j] == sorted[i];
            assert(data@.contains(lang[j]));
            let w = choose|w: int| 0 <= w < data@.len() && data@[w] == lang[j];
            assert(0 <= data[w].sorting_value < lang_size);
            assert(book.entries@[i].symbol == sorted[i].0);
        }
    }
    Ok((book, all_lengths))
}

} // verus!
