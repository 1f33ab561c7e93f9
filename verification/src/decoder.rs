use vstd::prelude::*;
use vstd::slice::slice_subrange;
use crate::bin_num::{bin_to_num, bits_value, lemma_fixed_bits_of_value, pow2};
use crate::canonical::{
    canonical_model, huffman_lengths_to_bin_code, model_key, CodeBook, CodeModel,
};
use crate::code_lengths::{constant_lengths, last_nonzero};
use crate::coding::{length_then_key, sort_huffman_lengths};
use crate::compared_element::ComparedElement;
use crate::error::DeflateError;
use crate::format::{length_order, ordered_symbol};
use crate::lz77::copy_back;
use crate::sorting::stable_sorted;
use crate::symbols::{
    copy_length, distance_base, distance_extra_bits, element_type_from_symbol,
    get_deflate_copy_length, length_extra_bits, to_compared_deflate_element_type,
    DeflateElementType, DeflateLength, DeflateOffset,
};

verus! {

/// The number that the `width` bits at `pos` write, if that many are there.
pub open spec fn read_number(bits: Seq<bool>, pos: int, width: int) -> Option<int> {
    if 0 <= pos && 0 <= width && pos + width <= bits.len() {
        Some(bits_value(bits.subrange(pos, pos + width)) as int)
    } else {
        None
    }
}

/// The length of the shortest run of at least `n` bits at `pos` that is a
/// code word; zero where the bits end before one is found.
pub open spec fn symbol_length(model: CodeModel, bits: Seq<bool>, pos: int, n: int) -> int
    decreases bits.len() - pos - n + 1,
{
    if pos < 0 || n < 1 || pos + n > bits.len() {
        0
    } else if model_key(model, bits.subrange(pos, pos + n)) is Some {
        n
    } else {
        symbol_length(model, bits, pos, n + 1)
    }
}

/// The key of the symbol whose code word begins at `pos`, and the position
/// after it: the shortest run of bits that is a code word decides.
pub open spec fn read_symbol(model: CodeModel, bits: Seq<bool>, pos: int) -> Option<(int, int)> {
    let n = symbol_length(model, bits, pos, 1);
    if n == 0 {
        None
    } else {
        Some((model_key(model, bits.subrange(pos, pos + n))->Some_0, pos + n))
    }
}

/// Where a code word is found, it lies within the bits and is a code word.
pub proof fn lemma_symbol_length(model: CodeModel, bits: Seq<bool>, pos: int, n: int)
    requires
        0 <= pos,
        1 <= n,
    ensures
        symbol_length(model, bits, pos, n) == 0 || (n <= symbol_length(model, bits, pos, n)
            && pos + symbol_length(model, bits, pos, n) <= bits.len() && model_key(
            model,
            bits.subrange(pos, pos + symbol_length(model, bits, pos, n)),
        ) is Some),
    decreases bits.len() - pos - n + 1,
{
    if pos + n <= bits.len() && !(model_key(model, bits.subrange(pos, pos + n)) is Some) {
        lemma_symbol_length(model, bits, pos, n + 1);
    }
}

/// A number below two to the power of the number of its bits.
pub proof fn lemma_number_bound(bits: Seq<bool>, pos: int, width: int)
    requires
        read_number(bits, pos, width) is Some,
    ensures
        0 <= read_number(bits, pos, width)->Some_0 < pow2(width as nat),
{
    lemma_fixed_bits_of_value(bits.subrange(pos, pos + width));
}

/// Reads a number of `width` bits at `pos`.
pub fn take_number(data: &[bool], pos: usize, width: usize) -> (number: Option<i32>)
    requires
        width <= 30,
    ensures
        number is Some <==> read_number(data@, pos as int, width as int) is Some,
        number matches Some(v) ==> read_number(data@, pos as int, width as int) == Some(v as int),
{
    if pos > data.len() || width > data.len() - pos {
        return None;
    }
    let part = slice_subrange(data, pos, pos + width);
    proof {
        lemma_fixed_bits_of_value(part@);
        crate::bin_num::lemma_pow2_monotone(width as nat, 30);
        assert(pow2(30) == 0x4000_0000) by {
            reveal_with_fuel(pow2, 31);
        }
    }
    Some(bin_to_num(part))
}

/// Reads the symbol whose code word begins at `pos`: bits are taken one by
/// one until they are a code word.
pub fn take_symbol<T: Copy>(book: &CodeBook<T>, data: &[bool], pos: usize) -> (symbol: Option<
    (ComparedElement<T>, usize),
>)
    ensures
        symbol is Some <==> read_symbol(book.model(), data@, pos as int) is Some,
        symbol matches Some(s) ==> read_symbol(book.model(), data@, pos as int) == Some(
            (s.0.sorting_value as int, s.1 as int),
        ) && pos < s.1 <= data.len() && book.symbol_at(data@.subrange(pos as int, s.1 as int))
            == Some(s.0),
{
    if pos >= data.len() {
        return None;
    }
    let ghost model = book.model();
    let mut temp: Vec<bool> = Vec::new();
    let mut read_index: usize = pos;
    while read_index < data.len()
        invariant
            pos <= read_index <= data.len(),
            pos < data.len(),
            model == book.model(),
            temp@ == data@.subrange(pos as int, read_index as int),
            symbol_length(model, data@, pos as int, 1) == symbol_length(
                model,
                data@,
                pos as int,
                read_index - pos + 1,
            ),
        decreases data.len() - read_index,
    {
        temp.push(data[read_index]);
        read_index += 1;
        assert(temp@ =~= data@.subrange(pos as int, read_index as int));
        match book.find(&temp) {
            Some(found) => {
                return Some((found, read_index));
            },
            None => {},
        }
    }
    None
}

/// A payload that is made from a symbol's index in its alphabet.
pub trait SymbolPayload: Sized {
    /// The number of symbols in the alphabet.
    spec fn alphabet_size() -> nat;

    /// The payload of the symbol with this index.
    spec fn from_index(index: int) -> Self;

    /// Makes the payload of the symbol with this index.
    fn make(index: usize) -> (payload: Self)
        requires
            index < Self::alphabet_size(),
        ensures
            payload == Self::from_index(index as int),
    ;

    /// The number of symbols in the alphabet.
    fn size() -> (n: usize)
        ensures
            n == Self::alphabet_size(),
            n <= 286,
    ;
}

impl SymbolPayload for DeflateLength {
    open spec fn alphabet_size() -> nat {
        19
    }

    /// A repeat is made with a count of zero: the count is read after its
    /// code word.
    open spec fn from_index(index: int) -> Self {
        if index < 16 {
            DeflateLength::SimpleLength(index as u8)
        } else if index == 16 {
            DeflateLength::RetryPrevious(0)
        } else if index == 17 {
            DeflateLength::RetryZero(0)
        } else {
            DeflateLength::BigRetryZero(0)
        }
    }

    fn make(index: usize) -> (payload: Self) {
        if index < 16 {
            DeflateLength::SimpleLength(index as u8)
        } else if index == 16 {
            DeflateLength::RetryPrevious(0)
        } else if index == 17 {
            DeflateLength::RetryZero(0)
        } else {
            DeflateLength::BigRetryZero(0)
        }
    }

    fn size() -> (n: usize) {
        19
    }
}

impl SymbolPayload for DeflateElementType {
    open spec fn alphabet_size() -> nat {
        286
    }

    /// A length symbol is made with an extra value of zero: the extra bits
    /// are read after its code word.
    open spec fn from_index(index: int) -> Self {
        element_type_from_symbol(index, 0)
    }

    fn make(index: usize) -> (payload: Self) {
        match to_compared_deflate_element_type(index as i32, 0) {
            Ok(keyed) => keyed.value,
            Err(_) => DeflateElementType::EndBlock,
        }
    }

    fn size() -> (n: usize) {
        286
    }
}

impl SymbolPayload for DeflateOffset {
    open spec fn alphabet_size() -> nat {
        30
    }

    /// A distance symbol is made with an extra value of zero: the extra bits
    /// are read after its code word.
    open spec fn from_index(index: int) -> Self {
        DeflateOffset { main_value: index as u8, additional_bits: 0 }
    }

    fn make(index: usize) -> (payload: Self) {
        DeflateOffset { main_value: index as u8, additional_bits: 0 }
    }

    fn size() -> (n: usize) {
        30
    }
}

/// The symbols whose code length is not zero, with their code lengths, in
/// the order of the alphabet.
pub open spec fn length_pairs<T: SymbolPayload>(lengths: Seq<int>) -> Seq<(ComparedElement<T>, i32)>
    decreases lengths.len(),
{
    if lengths.len() == 0 {
        Seq::empty()
    } else {
        let earlier = length_pairs::<T>(lengths.drop_last());
        if lengths.last() != 0 {
            earlier.push(
                (
                    ComparedElement {
                        value: T::from_index(lengths.len() - 1),
                        sorting_value: (lengths.len() - 1) as i32,
                    },
                    lengths.last() as i32,
                ),
            )
        } else {
            earlier
        }
    }
}

/// The canonical code of an alphabet with these code lengths.
pub open spec fn decoding_model<T: SymbolPayload>(lengths: Seq<int>) -> CodeModel {
    canonical_model(stable_sorted(length_pairs::<T>(lengths), length_then_key::<T>()))
}

/// No symbol beyond the alphabet has a code length.
pub open spec fn alphabet_fits(lengths: Seq<int>, size: int) -> bool {
    forall|i: int| size <= i < lengths.len() ==> #[trigger] lengths[i] == 0
}

/// The code lengths as mathematical integers.
pub open spec fn ints_of(lengths: Seq<i32>) -> Seq<int> {
    Seq::new(lengths.len(), |i: int| lengths[i] as int)
}

/// The pairs of an alphabet hold symbols of the alphabet, made from their
/// keys, with their code lengths, none of which is zero.
pub proof fn lemma_length_pairs<T: SymbolPayload>(lengths: Seq<int>, size: int)
    requires
        alphabet_fits(lengths, size),
        forall|i: int| 0 <= i < lengths.len() ==> 0 <= #[trigger] lengths[i] <= i32::MAX,
        0 <= size <= i32::MAX,
    ensures
        length_pairs::<T>(lengths).len() <= lengths.len(),
        forall|j: int|
            0 <= j < length_pairs::<T>(lengths).len() ==> {
                let p = #[trigger] length_pairs::<T>(lengths)[j];
                &&& 0 <= p.0.sorting_value < size
                &&& p.0.sorting_value < lengths.len()
                &&& p.0.value == T::from_index(p.0.sorting_value as int)
                &&& p.1 > 0
                &&& p.1 == lengths[p.0.sorting_value as int]
            },
    decreases lengths.len(),
{
    if lengths.len() > 0 {
        let front = lengths.drop_last();
        assert forall|i: int| size <= i < front.len() implies #[trigger] front[i] == 0 by {
            assert(front[i] == lengths[i]);
        }
        assert forall|i: int| 0 <= i < front.len() implies 0 <= #[trigger] front[i]
            <= i32::MAX by {
            assert(front[i] == lengths[i]);
        }
        lemma_length_pairs::<T>(front, size);
        let all = length_pairs::<T>(lengths);
        let earlier = length_pairs::<T>(front);
        assert(lengths.last() == lengths[lengths.len() - 1]);
        assert forall|j: int| 0 <= j < all.len() implies {
            let p = #[trigger] all[j];
            &&& 0 <= p.0.sorting_value < size
            &&& p.0.sorting_value < lengths.len()
            &&& p.0.value == T::from_index(p.0.sorting_value as int)
            &&& p.1 > 0
            &&& p.1 == lengths[p.0.sorting_value as int]
        } by {
            if j < earlier.len() {
                assert(all[j] == earlier[j]);
                assert(front[earlier[j].0.sorting_value as int] == lengths[earlier[j].0.sorting_value as int]);
            }
        }
    }
}

/// The code book holds payloads made from their keys, and keys of the
/// alphabet.
pub open spec fn book_of_alphabet<T: SymbolPayload + Copy>(book: CodeBook<T>) -> bool {
    forall|i: int|
        #![trigger book.entries@[i]]
        0 <= i < book.entries@.len() ==> 0 <= book.entries@[i].symbol.sorting_value
            < T::alphabet_size() && book.entries@[i].symbol.value == T::from_index(
            book.entries@[i].symbol.sorting_value as int,
        )
}

/// Builds the canonical code of an alphabet from its code lengths;
/// `Err(InvalidSymbol)` exactly when a symbol beyond the alphabet has a code
/// length.
pub fn build_table<T: SymbolPayload + Copy>(lengths: &Vec<i32>) -> (table: Result<
    CodeBook<T>,
    DeflateError,
>)
    requires
        forall|i: int| 0 <= i < lengths.len() ==> 0 <= #[trigger] lengths[i],
    ensures
        table is Ok <==> alphabet_fits(ints_of(lengths@), T::alphabet_size() as int),
        table matches Err(e) ==> e == DeflateError::InvalidSymbol,
        table matches Ok(book) ==> book.model() == decoding_model::<T>(ints_of(lengths@))
            && book_of_alphabet(book),
{
    let ghost all = ints_of(lengths@);
    let mut pairs: Vec<(ComparedElement<T>, i32)> = Vec::new();
    let mut i: usize = 0;
    let size: usize = T::size();
    assert(all.subrange(0, 0) =~= Seq::<int>::empty());
    while i < lengths.len()
        invariant
            i <= lengths.len(),
            all == ints_of(lengths@),
            size == T::alphabet_size(),
            size <= 286,
            forall|k: int| 0 <= k < lengths.len() ==> 0 <= #[trigger] lengths[k],
            forall|k: int| T::alphabet_size() <= k < i ==> #[trigger] all[k] == 0,
            pairs@ == length_pairs::<T>(all.subrange(0, i as int)),
        decreases lengths.len() - i,
    {
        let length: i32 = lengths[i];
        proof {
            let head = all.subrange(0, i + 1);
            assert(head.drop_last() =~= all.subrange(0, i as int));
            assert(head.last() == length);
            assert(all[i as int] == length);
        }
        if length != 0 {
            if i >= size {
                return Err(DeflateError::InvalidSymbol);
            }
            pairs.push((ComparedElement::new(T::make(i), i as i32), length));
        }
        i += 1;
    }
    proof {
        assert(all.subrange(0, i as int) =~= all);
        lemma_length_pairs::<T>(all, T::alphabet_size() as int);
        crate::sorting::lemma_stable_sorted(pairs@, length_then_key::<T>());
    }
    let ghost listed = pairs@;
    sort_huffman_lengths(&mut pairs);
    proof {
        assert forall|k: int| 0 <= k < pairs.len() implies (#[trigger] pairs[k]).1 >= 0 by {
            assert(listed.contains(pairs[k]));
        }
    }
    let ghost sorted = pairs@;
    match huffman_lengths_to_bin_code(pairs) {
        Ok(book) => {
            proof {
                assert forall|k: int|
                    #![trigger book.entries@[k]]
                    0 <= k < book.entries@.len() implies 0 <= book.entries@[k].symbol.sorting_value
                    < T::alphabet_size() && book.entries@[k].symbol.value == T::from_index(
                    book.entries@[k].symbol.sorting_value as int,
                ) by {
                    assert(listed.contains(sorted[k]));
                    let j = choose|j: int| 0 <= j < listed.len() && listed[j] == sorted[k];
                    let p = listed[j];
                    assert(p.0.value == T::from_index(p.0.sorting_value as int));
                }
            }
            Ok(book)
        },
        Err(e) => Err(e),
    }
}

/// The code lengths after the run that a repeat symbol with key `key` and
/// extra value `extra` stands for; `None` where a repeat of the previous
/// length has no length to repeat.
pub open spec fn apply_run(lengths: Seq<int>, key: int, extra: int) -> Option<Seq<int>> {
    if key == 16 {
        if last_nonzero(lengths) == 0 {
            None
        } else {
            Some(lengths + constant_lengths(last_nonzero(lengths), extra + 3))
        }
    } else if key == 17 {
        Some(lengths + constant_lengths(0, extra + 3))
    } else {
        Some(lengths + constant_lengths(0, extra + 11))
    }
}

/// The number of extra bits that follow a repeat symbol.
pub open spec fn run_extra_bits(key: int) -> int {
    if key == 16 {
        2
    } else if key == 17 {
        3
    } else {
        7
    }
}

/// Reads code lengths at `pos` until there are at least `count`: the code
/// lengths, and the position after them. `Err(Truncation)` where the bits
/// end too early, `Err(InvalidSymbol)` where the previous length is to be
/// repeated and no length that is not zero came before.
pub open spec fn read_lengths(
    model: CodeModel,
    bits: Seq<bool>,
    pos: int,
    count: int,
    lengths: Seq<int>,
) -> Result<(Seq<int>, int), DeflateError>
    decreases bits.len() - pos,
{
    if lengths.len() >= count {
        Ok((lengths, pos))
    } else {
        match read_symbol(model, bits, pos) {
            None => Err(DeflateError::Truncation),
            Some((key, next)) => {
                if next <= pos || next > bits.len() {
                    Err(DeflateError::Truncation)
                } else if key < 16 {
                    read_lengths(model, bits, next, count, lengths.push(key))
                } else {
                    match read_number(bits, next, run_extra_bits(key)) {
                        None => Err(DeflateError::Truncation),
                        Some(extra) => match apply_run(lengths, key, extra) {
                            None => Err(DeflateError::InvalidSymbol),
                            Some(longer) => read_lengths(
                                model,
                                bits,
                                next + run_extra_bits(key),
                                count,
                                longer,
                            ),
                        },
                    }
                }
            },
        }
    }
}

/// Appends `count` times the same length.
fn push_lengths(lengths: &mut Vec<i32>, value: i32, count: usize)
    ensures
        ints_of(final(lengths)@) == ints_of(old(lengths)@) + constant_lengths(
            value as int,
            count as int,
        ),
{
    let ghost before = ints_of(lengths@);
    let mut k: usize = 0;
    assert(before + constant_lengths(value as int, 0) =~= before);
    while k < count
        invariant
            k <= count,
            ints_of(lengths@) == before + constant_lengths(value as int, k as int),
        decreases count - k,
    {
        let ghost now = lengths@;
        lengths.push(value);
        k += 1;
        assert(ints_of(lengths@) =~= ints_of(now).push(value as int));
        assert(before + constant_lengths(value as int, k as int) =~= (before + constant_lengths(
            value as int,
            k - 1,
        )).push(value as int));
    }
}

/// Appending copies of a length makes it the last that is not zero, unless it
/// is zero.
proof fn lemma_last_nonzero_append(lengths: Seq<int>, value: int, count: int)
    requires
        count >= 0,
    ensures
        last_nonzero(lengths + constant_lengths(value, count)) == if value != 0 && count > 0 {
            value
        } else {
            last_nonzero(lengths)
        },
    decreases count,
{
    let longer = lengths + constant_lengths(value, count);
    if count == 0 {
        assert(longer =~= lengths);
    } else {
        assert(longer.last() == value);
        assert(longer.drop_last() =~= lengths + constant_lengths(value, count - 1));
        lemma_last_nonzero_append(lengths, value, count - 1);
    }
}

/// Reads code lengths at `pos` until there are at least `count`.
pub fn take_lengths(
    cl_book: &CodeBook<DeflateLength>,
    data: &[bool],
    pos: usize,
    count: usize,
) -> (taken: Result<(Vec<i32>, usize), DeflateError>)
    requires
        book_of_alphabet(*cl_book),
        pos <= data.len(),
    ensures
        match read_lengths(cl_book.model(), data@, pos as int, count as int, Seq::empty()) {
            Ok(read) => taken matches Ok(t) && ints_of(t.0@) == read.0 && t.1 == read.1 && t.1
                <= data.len() && forall|i: int| 0 <= i < t.0.len() ==> 0 <= #[trigger] t.0[i] <= 15,
            Err(e) => taken matches Err(f) && f == e,
        },
{
    let ghost model = cl_book.model();
    let ghost goal = read_lengths(model, data@, pos as int, count as int, Seq::empty());
    let mut lengths: Vec<i32> = Vec::new();
    let mut previous: i32 = 0;
    let mut read_index: usize = pos;
    assert(ints_of(lengths@) =~= Seq::<int>::empty());
    while lengths.len() < count
        invariant
            book_of_alphabet(*cl_book),
            model == cl_book.model(),
            goal == read_lengths(model, data@, pos as int, count as int, Seq::empty()),
            read_lengths(model, data@, read_index as int, count as int, ints_of(lengths@)) == goal,
            previous == last_nonzero(ints_of(lengths@)),
            forall|i: int| 0 <= i < lengths.len() ==> 0 <= #[trigger] lengths[i] <= 15,
            0 <= previous <= 15,
            read_index <= data.len(),
        decreases data.len() - read_index,
    {
        let ghost now = ints_of(lengths@);
        let (symbol, next) = match take_symbol(cl_book, data, read_index) {
            Some(found) => found,
            None => {
                return Err(DeflateError::Truncation);
            },
        };
        proof {
            crate::canonical::lemma_last_index_of_code(
                model,
                data@.subrange(read_index as int, next as int),
            );
        }
        let key: i32 = symbol.sorting_value;
        assert(0 <= key < 19);
        if key < 16 {
            let ghost before = lengths@;
            lengths.push(key);
            proof {
                assert(ints_of(lengths@) =~= now.push(key as int));
                assert(ints_of(lengths@).drop_last() =~= now);
            }
            if key != 0 {
                previous = key;
            }
            read_index = next;
        } else {
            let width: usize = if key == 16 {
                2
            } else if key == 17 {
                3
            } else {
                7
            };
            let extra: i32 = match take_number(data, next, width) {
                Some(extra) => extra,
                None => {
                    return Err(DeflateError::Truncation);
                },
            };
            proof {
                lemma_number_bound(data@, next as int, width as int);
                reveal_with_fuel(pow2, 8);
            }
            if key == 16 {
                if previous == 0 {
                    return Err(DeflateError::InvalidSymbol);
                }
                proof {
                    lemma_last_nonzero_append(now, previous as int, extra + 3);
                }
                push_lengths(&mut lengths, previous, (extra + 3) as usize);
            } else if key == 17 {
                proof {
                    lemma_last_nonzero_append(now, 0, extra + 3);
                }
                push_lengths(&mut lengths, 0, (extra + 3) as usize);
            } else {
                proof {
                    lemma_last_nonzero_append(now, 0, extra + 11);
                }
                push_lengths(&mut lengths, 0, (extra + 11) as usize);
            }
            proof {
                let longer = ints_of(lengths@);
                assert forall|i: int| 0 <= i < lengths.len() implies 0 <= #[trigger] lengths[i]
                    <= 15 by {
                    assert(longer[i] == lengths[i]);
                    if i < now.len() {
                        assert(longer[i] == now[i]);
                    }
                }
            }
            read_index = next + width;
        }
    }
    Ok((lengths, read_index))
}

/// Carries out the elements that are written at `pos`, up to the
/// end-of-block symbol: the output, and the position after that symbol.
/// `Err(Truncation)` where the bits end too early, `Err(DistanceTooFar)`
/// where a reference reaches back before the start of the output.
pub open spec fn decode_payload(
    lit_model: CodeModel,
    dist_model: CodeModel,
    bits: Seq<bool>,
    pos: int,
    out: Seq<u8>,
) -> Result<(Seq<u8>, int), DeflateError>
    decreases bits.len() - pos,
{
    match read_symbol(lit_model, bits, pos) {
        None => Err(DeflateError::Truncation),
        Some((key, next)) => {
            if next <= pos || next > bits.len() {
                Err(DeflateError::Truncation)
            } else if key < 256 {
                decode_payload(lit_model, dist_model, bits, next, out.push(key as u8))
            } else if key == 256 {
                Ok((out, next))
            } else {
                let width = length_extra_bits(key);
                match read_number(bits, next, width) {
                    None => Err(DeflateError::Truncation),
                    Some(extra) => match read_symbol(dist_model, bits, next + width) {
                        None => Err(DeflateError::Truncation),
                        Some((far_key, after)) => match read_number(
                            bits,
                            after,
                            distance_extra_bits(far_key),
                        ) {
                            None => Err(DeflateError::Truncation),
                            Some(far_extra) => {
                                let distance = distance_base(far_key) + far_extra;
                                if after <= pos {
                                    Err(DeflateError::Truncation)
                                } else if distance > out.len() {
                                    Err(DeflateError::DistanceTooFar)
                                } else {
                                    decode_payload(
                                        lit_model,
                                        dist_model,
                                        bits,
                                        after + distance_extra_bits(far_key),
                                        copy_back(out, distance, copy_length(key, extra)),
                                    )
                                }
                            },
                        },
                    },
                }
            }
        },
    }
}

/// Appends `count` bytes, each copied from `distance` back.
pub fn copy_from_back(answer: &mut Vec<u8>, distance: usize, count: usize)
    requires
        1 <= distance <= old(answer).len(),
    ensures
        final(answer)@ == copy_back(old(answer)@, distance as int, count as int),
{
    let ghost start = answer@;
    let mut k: usize = 0;
    while k < count
        invariant
            k <= count,
            1 <= distance <= answer.len(),
            copy_back(answer@, distance as int, count - k) == copy_back(
                start,
                distance as int,
                count as int,
            ),
        decreases count - k,
    {
        let byte: u8 = answer[answer.len() - distance];
        answer.push(byte);
        k += 1;
    }
}

/// A payload made from its key stands for that key.
pub proof fn lemma_from_index_symbol(key: int)
    requires
        0 <= key <= 285,
    ensures
        element_type_from_symbol(key, 0).symbol() == key,
        element_type_from_symbol(key, 0).extra() == 0,
        element_type_from_symbol(key, 0).well_formed(),
        key < 256 <==> element_type_from_symbol(key, 0) is JustElement,
        key == 256 <==> element_type_from_symbol(key, 0) is EndBlock,
        key < 256 ==> element_type_from_symbol(key, 0)->JustElement_0 == key,
{
}

/// Carries out the elements that are written at `pos`, up to the
/// end-of-block symbol.
pub fn take_payload(
    answer: &mut Vec<u8>,
    lit_book: &CodeBook<DeflateElementType>,
    dist_book: &CodeBook<DeflateOffset>,
    data: &[bool],
    pos: usize,
) -> (taken: Result<usize, DeflateError>)
    requires
        book_of_alphabet(*lit_book),
        book_of_alphabet(*dist_book),
        pos <= data.len(),
    ensures
        match decode_payload(
            lit_book.model(),
            dist_book.model(),
            data@,
            pos as int,
            old(answer)@,
        ) {
            Ok(decoded) => taken matches Ok(next) && next == decoded.1 && final(answer)@
                == decoded.0 && next <= data.len(),
            Err(e) => taken matches Err(f) && f == e,
        },
{
    let ghost lit_model = lit_book.model();
    let ghost dist_model = dist_book.model();
    let ghost goal = decode_payload(lit_model, dist_model, data@, pos as int, answer@);
    let mut read_index: usize = pos;
    loop
        invariant
            book_of_alphabet(*lit_book),
            book_of_alphabet(*dist_book),
            lit_model == lit_book.model(),
            dist_model == dist_book.model(),
            read_index <= data.len(),
            goal == decode_payload(lit_model, dist_model, data@, pos as int, old(answer)@),
            decode_payload(lit_model, dist_model, data@, read_index as int, answer@) == goal,
        decreases data.len() - read_index,
    {
        let (symbol, next) = match take_symbol(lit_book, data, read_index) {
            Some(found) => found,
            None => {
                return Err(DeflateError::Truncation);
            },
        };
        proof {
            crate::canonical::lemma_last_index_of_code(
                lit_model,
                data@.subrange(read_index as int, next as int),
            );
            lemma_from_index_symbol(symbol.sorting_value as int);
        }
        match symbol.value {
            DeflateElementType::JustElement(v) => {
                answer.push(v);
                read_index = next;
            },
            DeflateElementType::EndBlock => {
                return Ok(next);
            },
            _ => {
                let base_length: usize = get_deflate_copy_length(&symbol.value) as usize;
                let width: usize = symbol.value.get_number_additional_bits() as usize;
                let extra: i32 = match take_number(data, next, width) {
                    Some(extra) => extra,
                    None => {
                        return Err(DeflateError::Truncation);
                    },
                };
                proof {
                    lemma_number_bound(data@, next as int, width as int);
                    reveal_with_fuel(pow2, 6);
                }
                let length: usize = base_length + extra as usize;
                let (far, after) = match take_symbol(dist_book, data, next + width) {
                    Some(found) => found,
                    None => {
                        return Err(DeflateError::Truncation);
                    },
                };
                proof {
                    crate::canonical::lemma_last_index_of_code(
                        dist_model,
                        data@.subrange(next + width, after as int),
                    );
                }
                let base_distance: usize = far.value.get_base_offset() as usize;
                let far_width: usize = far.value.get_number_additional_bits() as usize;
                let far_extra: i32 = match take_number(data, after, far_width) {
                    Some(extra) => extra,
                    None => {
                        return Err(DeflateError::Truncation);
                    },
                };
                let distance: usize = base_distance + far_extra as usize;
                if distance > answer.len() {
                    return Err(DeflateError::DistanceTooFar);
                }
                copy_from_back(answer, distance, length);
                read_index = after + far_width;
            },
        }
    }
}

/// The code lengths of the code-length alphabet, from the first `count`
/// three-bit numbers at `pos`, which give them in the order in which they
/// are sent; the others are zero.
pub open spec fn ordered_lengths(bits: Seq<bool>, pos: int, count: int) -> Seq<int>
    decreases count,
{
    if count <= 0 {
        Seq::new(19, |i: int| 0int)
    } else {
        ordered_lengths(bits, pos, count - 1).update(
            length_order()[count - 1],
            bits_value(bits.subrange(pos + 3 * (count - 1), pos + 3 * count)) as int,
        )
    }
}

/// What the header of a block says.
pub struct BlockHeader {
    pub is_end_block: bool,
    pub hlit: int,
    pub hdist: int,
    pub hclen: int,
}

/// The header of the block at the start of the bits: `Err(Truncation)` where
/// it is cut short, `Err(UnsupportedBlockType)` where the block is no
/// dynamic-Huffman block.
pub open spec fn read_header(bits: Seq<bool>) -> Result<BlockHeader, DeflateError> {
    if bits.len() < 3 {
        Err(DeflateError::Truncation)
    } else if bits[1] || !bits[2] {
        Err(DeflateError::UnsupportedBlockType)
    } else if bits.len() < 17 {
        Err(DeflateError::Truncation)
    } else {
        Ok(
            BlockHeader {
                is_end_block: bits[0],
                hlit: bits_value(bits.subrange(3, 8)) as int,
                hdist: bits_value(bits.subrange(8, 13)) as int,
                hclen: bits_value(bits.subrange(13, 17)) as int,
            },
        )
    }
}

/// The three codes of a block and the position at which its elements begin.
pub struct BlockCodes {
    pub lit_model: CodeModel,
    pub dist_model: CodeModel,
    pub payload_at: int,
}

/// Reads the codes of the block whose header was read: the code lengths of
/// the code-length alphabet, then with their code the code lengths of
/// `hlit + 257` literal/length symbols and of `hdist` distance symbols.
pub open spec fn read_codes(bits: Seq<bool>, header: BlockHeader) -> Result<
    BlockCodes,
    DeflateError,
> {
    let count = header.hclen + 4;
    let after_order = 17 + 3 * count;
    if after_order > bits.len() {
        Err(DeflateError::Truncation)
    } else {
        let cl_model = decoding_model::<DeflateLength>(ordered_lengths(bits, 17, count));
        match read_lengths(cl_model, bits, after_order, header.hlit + 257, Seq::empty()) {
            Err(e) => Err(e),
            Ok(lit) => if !alphabet_fits(lit.0, 286) {
                Err(DeflateError::InvalidSymbol)
            } else {
                match read_lengths(cl_model, bits, lit.1, header.hdist, Seq::empty()) {
                    Err(e) => Err(e),
                    Ok(dist) => if !alphabet_fits(dist.0, 30) {
                        Err(DeflateError::InvalidSymbol)
                    } else {
                        Ok(
                            BlockCodes {
                                lit_model: decoding_model::<DeflateElementType>(lit.0),
                                dist_model: decoding_model::<DeflateOffset>(dist.0),
                                payload_at: dist.1,
                            },
                        )
                    },
                }
            },
        }
    }
}

/// Decodes the block at the start of the bits onto the output: the output
/// after it, the number of bits that the block takes, and whether it is
/// marked as the last.
pub open spec fn decode_block(bits: Seq<bool>, out: Seq<u8>) -> Result<
    (Seq<u8>, int, bool),
    DeflateError,
> {
    match read_header(bits) {
        Err(e) => Err(e),
        Ok(header) => match read_codes(bits, header) {
            Err(e) => Err(e),
            Ok(codes) => match decode_payload(
                codes.lit_model,
                codes.dist_model,
                bits,
                codes.payload_at,
                out,
            ) {
                Err(e) => Err(e),
                Ok(decoded) => Ok((decoded.0, decoded.1, header.is_end_block)),
            },
        },
    }
}

/// Reads the code lengths of the code-length alphabet.
pub fn take_ordered_lengths(data: &[bool], count: usize) -> (lengths: Vec<i32>)
    requires
        count <= 19,
        17 + 3 * count <= data.len(),
    ensures
        ints_of(lengths@) == ordered_lengths(data@, 17, count as int),
        lengths.len() == 19,
        forall|i: int| 0 <= i < 19 ==> 0 <= #[trigger] lengths[i] <= 7,
{
    let mut lengths: Vec<i32> = crate::coding::zeros(19);
    let mut k: usize = 0;
    assert(ints_of(lengths@) =~= ordered_lengths(data@, 17, 0));
    while k < count
        invariant
            k <= count <= 19,
            17 + 3 * count <= data.len(),
            lengths.len() == 19,
            ints_of(lengths@) == ordered_lengths(data@, 17, k as int),
            forall|i: int| 0 <= i < 19 ==> 0 <= #[trigger] lengths[i] <= 7,
        decreases count - k,
    {
        let symbol = ordered_symbol(k);
        let ghost before = lengths@;
        let number: i32 = match take_number(data, 17 + 3 * k, 3) {
            Some(number) => number,
            None => 0,
        };
        proof {
            lemma_number_bound(data@, 17 + 3 * k, 3);
            reveal_with_fuel(pow2, 4);
        }
        lengths.set(symbol, number);
        k += 1;
        assert(ints_of(lengths@) =~= ints_of(before).update(symbol as int, number as int));
    }
    lengths
}

/// Decodes the block at the start of `data` onto `answer`: the number of bits
/// that the block takes, and whether it is marked as the last.
/// `Err(Truncation)` where the bits end before the block does,
/// `Err(UnsupportedBlockType)` where the block is no dynamic-Huffman block,
/// `Err(InvalidSymbol)` where a symbol beyond an alphabet has a code length
/// or a length is to be repeated where there is none, `Err(DistanceTooFar)`
/// where a reference reaches back before the start of the output.
pub fn deflate_block_decoding(answer: &mut Vec<u8>, data: &[bool]) -> (decoded: Result<
    (usize, bool),
    DeflateError,
>)
    ensures
        match decode_block(data@, old(answer)@) {
            Ok(block) => decoded matches Ok(d) && d.0 == block.1 && d.1 == block.2
                && final(answer)@ == block.0 && 17 <= d.0 <= data.len(),
            Err(e) => decoded matches Err(f) && f == e,
        },
{
    if data.len() < 3 {
        return Err(DeflateError::Truncation);
    }
    if data[1] || !data[2] {
        return Err(DeflateError::UnsupportedBlockType);
    }
    if data.len() < 17 {
        return Err(DeflateError::Truncation);
    }
    proof {
        lemma_number_bound(data@, 3, 5);
        lemma_number_bound(data@, 8, 5);
        lemma_number_bound(data@, 13, 4);
        reveal_with_fuel(pow2, 6);
    }
    let hlit: usize = match take_number(data, 3, 5) {
        Some(number) => number as usize,
        None => 0,
    };
    let hdist: usize = match take_number(data, 8, 5) {
        Some(number) => number as usize,
        None => 0,
    };
    let hclen: usize = match take_number(data, 13, 4) {
        Some(number) => number as usize,
        None => 0,
    };
    let ghost header = read_header(data@)->Ok_0;
    assert(header.hlit == hlit && header.hdist == hdist && header.hclen == hclen);
    let count: usize = hclen + 4;
    let after_order: usize = 17 + 3 * count;
    if after_order > data.len() {
        return Err(DeflateError::Truncation);
    }
    let cl_lengths = take_ordered_lengths(data, count);
    let cl_book: CodeBook<DeflateLength> = match build_table(&cl_lengths) {
        Ok(book) => book,
        Err(e) => {
            return Err(e);
        },
    };
    let (lit_lengths, after_lit) = match take_lengths(&cl_book, data, after_order, hlit + 257) {
        Ok(taken) => taken,
        Err(e) => {
            return Err(e);
        },
    };
    let lit_book: CodeBook<DeflateElementType> = match build_table(&lit_lengths) {
        Ok(book) => book,
        Err(e) => {
            return Err(e);
        },
    };
    let (dist_lengths, after_dist) = match take_lengths(&cl_book, data, after_lit, hdist) {
        Ok(taken) => taken,
        Err(e) => {
            return Err(e);
        },
    };
    let dist_book: CodeBook<DeflateOffset> = match build_table(&dist_lengths) {
        Ok(book) => book,
        Err(e) => {
            return Err(e);
        },
    };
    match take_payload(answer, &lit_book, &dist_book, data, after_dist) {
        Ok(next) => {
            proof {
                lemma_decoded_position(data@, old(answer)@);
            }
            Ok((next, data[0]))
        },
        Err(e) => Err(e),
    }
}

/// A block takes at least the seventeen bits of its header.
pub proof fn lemma_decoded_position(bits: Seq<bool>, out: Seq<u8>)
    requires
        decode_block(bits, out) is Ok,
    ensures
        17 < decode_block(bits, out)->Ok_0.1 <= bits.len(),
{
    let header = read_header(bits)->Ok_0;
    let codes = read_codes(bits, header)->Ok_0;
    let count = header.hclen + 4;
    let cl_model = decoding_model::<DeflateLength>(ordered_lengths(bits, 17, count));
    let lit = read_lengths(cl_model, bits, 17 + 3 * count, header.hlit + 257, Seq::empty())->Ok_0;
    lemma_read_lengths_position(cl_model, bits, 17 + 3 * count, header.hlit + 257, Seq::empty());
    lemma_read_lengths_position(cl_model, bits, lit.1, header.hdist, Seq::empty());
    lemma_decode_payload_position(codes.lit_model, codes.dist_model, bits, codes.payload_at, out);
}

/// Reading code lengths ends within the bits, no earlier than it began.
pub proof fn lemma_read_lengths_position(
    model: CodeModel,
    bits: Seq<bool>,
    pos: int,
    count: int,
    lengths: Seq<int>,
)
    requires
        read_lengths(model, bits, pos, count, lengths) is Ok,
        pos <= bits.len(),
    ensures
        pos <= read_lengths(model, bits, pos, count, lengths)->Ok_0.1 <= bits.len(),
    decreases bits.len() - pos,
{
    if lengths.len() < count {
        let symbol = read_symbol(model, bits, pos)->Some_0;
        let key = symbol.0;
        let next = symbol.1;
        if key < 16 {
            lemma_read_lengths_position(model, bits, next, count, lengths.push(key));
        } else {
            let extra = read_number(bits, next, run_extra_bits(key))->Some_0;
            let longer = apply_run(lengths, key, extra)->Some_0;
            lemma_read_lengths_position(model, bits, next + run_extra_bits(key), count, longer);
        }
    }
}

/// Reading the elements of a block ends within the bits, after where it began.
pub proof fn lemma_decode_payload_position(
    lit_model: CodeModel,
    dist_model: CodeModel,
    bits: Seq<bool>,
    pos: int,
    out: Seq<u8>,
)
    requires
        decode_payload(lit_model, dist_model, bits, pos, out) is Ok,
    ensures
        pos < decode_payload(lit_model, dist_model, bits, pos, out)->Ok_0.1 <= bits.len(),
    decreases bits.len() - pos,
{
    let symbol = read_symbol(lit_model, bits, pos)->Some_0;
    let key = symbol.0;
    let next = symbol.1;
    if key < 256 {
        lemma_decode_payload_position(lit_model, dist_model, bits, next, out.push(key as u8));
    } else if key == 256 {
    } else {
        let width = length_extra_bits(key);
        let extra = read_number(bits, next, width)->Some_0;
        let far = read_symbol(dist_model, bits, next + width)->Some_0;
        let far_extra = read_number(bits, far.1, distance_extra_bits(far.0))->Some_0;
        let distance = distance_base(far.0) + far_extra;
        lemma_decode_payload_position(
            lit_model,
            dist_model,
            bits,
            far.1 + distance_extra_bits(far.0),
            copy_back(out, distance, copy_length(key, extra)),
        );
    }
}

} // verus!
