use vstd::prelude::*;
use crate::bin_num::{fixed_bits, lemma_fixed_bits, lemma_pow2_add, lemma_pow2_positive, pow2};
use crate::compared_element::ComparedElement;
use crate::error::DeflateError;

verus! {

/// One symbol of a code with the bits that stand for it.
#[derive(Debug)]
pub struct CodeEntry<T> {
    pub symbol: ComparedElement<T>,
    pub code: Vec<bool>,
}

/// A code: its symbols and their bits, in the order in which they were
/// assigned. Where a key or a bit sequence occurs twice, the later entry is
/// the one that a lookup finds.
#[derive(Debug)]
pub struct CodeBook<T> {
    pub entries: Vec<CodeEntry<T>>,
}

/// What a code says, without the payloads: for every entry the symbol's key
/// and the bits that stand for it.
pub type CodeModel = Seq<(int, Seq<bool>)>;

/// The index of the last entry under the key, or `-1`.
pub open spec fn last_index_of_key(model: CodeModel, key: int) -> int
    decreases model.len(),
{
    if model.len() == 0 {
        -1
    } else if model.last().0 == key {
        model.len() - 1
    } else {
        last_index_of_key(model.drop_last(), key)
    }
}

/// The index of the last entry with these bits, or `-1`.
pub open spec fn last_index_of_code(model: CodeModel, bits: Seq<bool>) -> int
    decreases model.len(),
{
    if model.len() == 0 {
        -1
    } else if model.last().1 == bits {
        model.len() - 1
    } else {
        last_index_of_code(model.drop_last(), bits)
    }
}

/// The bits of the symbol with this key, if the code has it.
pub open spec fn model_code(model: CodeModel, key: int) -> Option<Seq<bool>> {
    let at = last_index_of_key(model, key);
    if at >= 0 {
        Some(model[at].1)
    } else {
        None
    }
}

/// The key of the symbol that these bits stand for, if they are a code word.
pub open spec fn model_key(model: CodeModel, bits: Seq<bool>) -> Option<int> {
    let at = last_index_of_code(model, bits);
    if at >= 0 {
        Some(model[at].0)
    } else {
        None
    }
}

/// The last entry under a key has that key, and no later entry has it.
pub proof fn lemma_last_index_of_key(model: CodeModel, key: int)
    ensures
        -1 <= last_index_of_key(model, key) < model.len(),
        last_index_of_key(model, key) >= 0 ==> model[last_index_of_key(model, key)].0 == key,
        forall|i: int|
            last_index_of_key(model, key) < i < model.len() ==> (#[trigger] model[i]).0 != key,
    decreases model.len(),
{
    if model.len() > 0 {
        lemma_last_index_of_key(model.drop_last(), key);
        assert forall|i: int| last_index_of_key(model, key) < i < model.len() implies (
        #[trigger] model[i]).0 != key by {
            if i < model.len() - 1 {
                assert(model[i] == model.drop_last()[i]);
            }
        }
    }
}

/// The last entry with given bits has those bits, and no later entry has them.
pub proof fn lemma_last_index_of_code(model: CodeModel, bits: Seq<bool>)
    ensures
        -1 <= last_index_of_code(model, bits) < model.len(),
        last_index_of_code(model, bits) >= 0 ==> model[last_index_of_code(model, bits)].1 == bits,
        forall|i: int|
            last_index_of_code(model, bits) < i < model.len() ==> (#[trigger] model[i]).1 != bits,
    decreases model.len(),
{
    if model.len() > 0 {
        lemma_last_index_of_code(model.drop_last(), bits);
        assert forall|i: int| last_index_of_code(model, bits) < i < model.len() implies (
        #[trigger] model[i]).1 != bits by {
            if i < model.len() - 1 {
                assert(model[i] == model.drop_last()[i]);
            }
        }
    }
}

/// Whether two bit vectors hold the same bits.
pub fn same_bits(a: &Vec<bool>, b: &Vec<bool>) -> (same: bool)
    ensures
        same == (a@ == b@),
{
    if a.len() != b.len() {
        return false;
    }
    let mut i: usize = 0;
    while i < a.len()
        invariant
            i <= a.len(),
            a.len() == b.len(),
            a@.subrange(0, i as int) == b@.subrange(0, i as int),
        decreases a.len() - i,
    {
        if a[i] != b[i] {
            return false;
        }
        i += 1;
        assert(a@.subrange(0, i as int) =~= a@.subrange(0, i - 1).push(a@[i - 1]));
        assert(b@.subrange(0, i as int) =~= b@.subrange(0, i - 1).push(b@[i - 1]));
    }
    assert(a@ =~= a@.subrange(0, i as int));
    assert(b@ =~= b@.subrange(0, i as int));
    true
}

/// A copy of the bits.
pub fn copy_bits(bits: &Vec<bool>) -> (copy: Vec<bool>)
    ensures
        copy@ == bits@,
{
    let mut copy: Vec<bool> = Vec::new();
    let mut i: usize = 0;
    while i < bits.len()
        invariant
            i <= bits.len(),
            copy@ == bits@.subrange(0, i as int),
        decreases bits.len() - i,
    {
        copy.push(bits[i]);
        i += 1;
        assert(copy@ =~= bits@.subrange(0, i as int));
    }
    assert(bits@ =~= bits@.subrange(0, i as int));
    copy
}

impl<T: Copy> CodeBook<T> {
    /// What the code says, without the payloads.
    pub open spec fn model(&self) -> CodeModel {
        Seq::new(
            self.entries@.len(),
            |i: int| (self.entries@[i].symbol.sorting_value as int, self.entries@[i].code@),
        )
    }

    /// The bits of the symbol with this key, if the code has it.
    pub open spec fn code_of(&self, key: int) -> Option<Seq<bool>> {
        model_code(self.model(), key)
    }

    /// The symbol that these bits stand for, if they are a code word.
    pub open spec fn symbol_at(&self, bits: Seq<bool>) -> Option<ComparedElement<T>> {
        let at = last_index_of_code(self.model(), bits);
        if at >= 0 {
            Some(self.entries@[at].symbol)
        } else {
            None
        }
    }

    /// The bits of the symbol with this key, if the code has it.
    pub fn get(&self, key: i32) -> (code: Option<&Vec<bool>>)
        ensures
            code is Some <==> self.code_of(key as int) is Some,
            code matches Some(c) ==> self.code_of(key as int) == Some(c@),
    {
        let ghost model = self.model();
        let mut i: usize = self.entries.len();
        assert(model.subrange(0, i as int) =~= model);
        while i > 0
            invariant
                i <= self.entries.len(),
                model == self.model(),
                last_index_of_key(model, key as int) == last_index_of_key(
                    model.subrange(0, i as int),
                    key as int,
                ),
            decreases i,
        {
            proof {
                let head = model.subrange(0, i as int);
                assert(head.last() == model[i - 1]);
                assert(head.drop_last() =~= model.subrange(0, i - 1));
            }
            i -= 1;
            if self.entries[i].symbol.sorting_value == key {
                return Some(&self.entries[i].code);
            }
        }
        proof {
            assert(model.subrange(0, 0) =~= Seq::empty());
        }
        None
    }

    /// The symbol that these bits stand for, if they are a code word.
    pub fn find(&self, bits: &Vec<bool>) -> (symbol: Option<ComparedElement<T>>)
        ensures
            symbol == self.symbol_at(bits@),
            symbol matches Some(s) ==> model_key(self.model(), bits@) == Some(
                s.sorting_value as int,
            ),
            symbol is None ==> model_key(self.model(), bits@) is None,
    {
        let ghost model = self.model();
        let mut i: usize = self.entries.len();
        assert(model.subrange(0, i as int) =~= model);
        while i > 0
            invariant
                i <= self.entries.len(),
                model == self.model(),
                last_index_of_code(model, bits@) == last_index_of_code(
                    model.subrange(0, i as int),
                    bits@,
                ),
            decreases i,
        {
            proof {
                let head = model.subrange(0, i as int);
                assert(head.last() == model[i - 1]);
                assert(head.drop_last() =~= model.subrange(0, i - 1));
            }
            i -= 1;
            if same_bits(&self.entries[i].code, bits) {
                return Some(self.entries[i].symbol);
            }
        }
        proof {
            assert(model.subrange(0, 0) =~= Seq::empty());
        }
        None
    }
}

/// The bit sequence that follows `bits` when both are read as numbers of the
/// same width; all ones are followed by all zeros.
pub open spec fn incremented(bits: Seq<bool>) -> Seq<bool>
    decreases bits.len(),
{
    if bits.len() == 0 {
        bits
    } else if !bits.last() {
        bits.drop_last().push(true)
    } else {
        incremented(bits.drop_last()).push(false)
    }
}

/// Incrementing the bits of a number writes the next number in the same width.
pub proof fn lemma_incremented_fixed_bits(n: nat, width: nat)
    ensures
        incremented(fixed_bits(n, width)) == fixed_bits(n + 1, width),
    decreases width,
{
    if width > 0 {
        let w1 = (width - 1) as nat;
        let front = fixed_bits(n / 2, w1);
        assert(front.push(n % 2 == 1).drop_last() =~= front);
        if n % 2 == 1 {
            lemma_incremented_fixed_bits(n / 2, w1);
            assert((n + 1) / 2 == n / 2 + 1);
        } else {
            assert((n + 1) / 2 == n / 2);
        }
    }
}

/// Incrementing turns the trailing ones into zeros and the zero before them
/// into a one.
proof fn lemma_incremented_shape(bits: Seq<bool>, i: int)
    requires
        0 <= i <= bits.len(),
        forall|k: int| i <= k < bits.len() ==> bits[k],
        i > 0 ==> !bits[i - 1],
    ensures
        incremented(bits) == Seq::new(
            bits.len(),
            |k: int|
                if k < i - 1 {
                    bits[k]
                } else {
                    k == i - 1
                },
        ),
    decreases bits.len(),
{
    let shape = Seq::new(
        bits.len(),
        |k: int|
            if k < i - 1 {
                bits[k]
            } else {
                k == i - 1
            },
    );
    if bits.len() == 0 {
        assert(incremented(bits) =~= shape);
    } else if i == bits.len() {
        assert(incremented(bits) =~= shape);
    } else {
        lemma_incremented_shape(bits.drop_last(), i);
        assert(incremented(bits) =~= shape);
    }
}

/// Replaces the bits by those that follow them.
pub fn increment_bits(code: &mut Vec<bool>)
    ensures
        final(code)@ == incremented(old(code)@),
{
    let ghost before = code@;
    let mut i: usize = code.len();
    while i > 0 && code[i - 1]
        invariant
            i <= code.len(),
            code.len() == before.len(),
            forall|k: int| i <= k < before.len() ==> #[trigger] before[k],
            forall|k: int| i <= k < before.len() ==> !(#[trigger] code@[k]),
            forall|k: int| 0 <= k < i ==> #[trigger] code@[k] == before[k],
        decreases i,
    {
        assert(code@[i - 1] == before[i - 1]);
        code.set(i - 1, false);
        i -= 1;
    }
    let ghost cleared = code@;
    if i > 0 {
        code.set(i - 1, true);
    }
    proof {
        lemma_incremented_shape(before, i as int);
        let shape = Seq::new(
            before.len(),
            |k: int|
                if k < i - 1 {
                    before[k]
                } else {
                    k == i - 1
                },
        );
        assert(code@.len() == shape.len());
        assert forall|k: int| 0 <= k < shape.len() implies code@[k] == shape[k] by {
            if k >= i {
                assert(before[k] && !cleared[k]);
            } else {
                assert(cleared[k] == before[k]);
            }
        }
        assert(code@ =~= shape);
    }
}

/// The number that the code word at position `i` writes, where the code
/// lengths `lens` are in ascending order: zero for the first word that has
/// bits, and for every later word one more than the word before it, shifted
/// left by the growth in length.
pub open spec fn canonical_value(lens: Seq<int>, i: int) -> nat
    decreases i,
{
    if i <= 0 || lens[i - 1] == 0 {
        0
    } else {
        (canonical_value(lens, i - 1) + 1) * pow2((lens[i] - lens[i - 1]) as nat)
    }
}

/// The code word at position `i`: `canonical_value` in as many bits as the
/// code length says.
pub open spec fn canonical_code(lens: Seq<int>, i: int) -> Seq<bool> {
    fixed_bits(canonical_value(lens, i), lens[i] as nat)
}

/// What the canonical code of symbols with their lengths says: for every
/// symbol its key and its canonical code word.
pub open spec fn canonical_model<T>(coded: Seq<(ComparedElement<T>, i32)>) -> CodeModel {
    Seq::new(
        coded.len(),
        |i: int| (coded[i].0.sorting_value as int, canonical_code(lengths_of(coded), i)),
    )
}

/// No length is less than the one before it.
pub open spec fn non_decreasing(lens: Seq<int>) -> bool {
    forall|i: int| 0 < i < lens.len() ==> lens[i - 1] <= #[trigger] lens[i]
}

/// The code lengths of a list of symbols with their lengths.
pub open spec fn lengths_of<T>(pairs: Seq<(ComparedElement<T>, i32)>) -> Seq<int> {
    Seq::new(pairs.len(), |i: int| pairs[i].1 as int)
}

/// Zero in fixed width is all zeros.
proof fn lemma_fixed_bits_zero(width: nat)
    ensures
        fixed_bits(0, width) == Seq::new(width, |i: int| false),
    decreases width,
{
    if width > 0 {
        lemma_fixed_bits_zero((width - 1) as nat);
    }
    assert(fixed_bits(0, width) =~= Seq::new(width, |i: int| false));
}

/// Assigns canonical code words to symbols whose code lengths are in
/// ascending order: `Err(UnsortedLengths)` exactly when a length is less than
/// the one before it; otherwise the code holds the symbols in their order,
/// each with its canonical code word.
pub fn huffman_lengths_to_bin_code<T: Copy>(lengths: Vec<(ComparedElement<T>, i32)>) -> (book:
    Result<CodeBook<T>, DeflateError>)
    requires
        forall|i: int| 0 <= i < lengths.len() ==> (#[trigger] lengths[i]).1 >= 0,
    ensures
        book is Ok <==> non_decreasing(lengths_of(lengths@)),
        book matches Err(e) ==> e == DeflateError::UnsortedLengths,
        book matches Ok(b) ==> {
            &&& b.entries.len() == lengths.len()
            &&& forall|i: int|
                #![trigger b.entries[i]]
                0 <= i < lengths.len() ==> b.entries[i].symbol == lengths[i].0
                    && b.entries[i].code@ == canonical_code(lengths_of(lengths@), i)
            &&& b.model() == canonical_model(lengths@)
        },
{
    let ghost lens = lengths_of(lengths@);
    let mut entries: Vec<CodeEntry<T>> = Vec::new();
    let mut code: Vec<bool> = Vec::new();
    let mut i: usize = 0;
    while i < lengths.len()
        invariant
            i <= lengths.len(),
            lens == lengths_of(lengths@),
            forall|k: int| 0 <= k < lengths.len() ==> (#[trigger] lengths[k]).1 >= 0,
            forall|k: int| 0 < k < i ==> lens[k - 1] <= #[trigger] lens[k],
            entries.len() == i,
            forall|k: int|
                #![trigger entries[k]]
                0 <= k < i ==> entries[k].symbol == lengths[k].0 && entries[k].code@
                    == canonical_code(lens, k),
            i > 0 ==> code@ == canonical_code(lens, i - 1),
        decreases lengths.len() - i,
    {
        let length: i32 = lengths[i].1;
        assert(lens[i as int] == length);
        if i == 0 || lengths[i - 1].1 == 0 {
            code = Vec::new();
            let mut j: i32 = 0;
            while j < length
                invariant
                    0 <= j <= length,
                    code@ == Seq::new(j as nat, |k: int| false),
                decreases length - j,
            {
                code.push(false);
                j += 1;
                assert(code@ =~= Seq::new(j as nat, |k: int| false));
            }
            proof {
                lemma_fixed_bits_zero(length as nat);
                if i > 0 {
                    assert(lens[i - 1] == 0);
                }
            }
        } else {
            let previous: i32 = lengths[i - 1].1;
            assert(lens[i - 1] == previous);
            if length < previous {
                assert(!non_decreasing(lens));
                return Err(DeflateError::UnsortedLengths);
            }
            let ghost value = canonical_value(lens, i - 1);
            proof {
                lemma_incremented_fixed_bits(value, previous as nat);
            }
            increment_bits(&mut code);
            proof {
                assert(pow2(0) == 1);
                assert((value + 1) * 1 == value + 1) by (nonlinear_arith);
            }
            let mut j: i32 = previous;
            while j < length
                invariant
                    previous <= j <= length,
                    previous >= 0,
                    code@ == fixed_bits((value + 1) * pow2((j - previous) as nat), j as nat),
                decreases length - j,
            {
                proof {
                    let grown = (j - previous) as nat;
                    let v = (value + 1) * pow2(grown);
                    assert(pow2(grown + 1) == 2 * pow2(grown));
                    assert((value + 1) * (2 * pow2(grown)) == 2 * v) by (nonlinear_arith)
                        requires
                            v == (value + 1) * pow2(grown),
                    ;
                    assert(fixed_bits(2 * v, (j + 1) as nat) == fixed_bits((2 * v) / 2, j as nat).push(
                        (2 * v) % 2 == 1,
                    ));
                }
                code.push(false);
                j += 1;
            }
        }
        entries.push(CodeEntry { symbol: lengths[i].0, code: copy_bits(&code) });
        i += 1;
    }
    let book = CodeBook { entries };
    assert(book.model() =~= canonical_model(lengths@));
    Ok(book)
}

/// The sum of two to the power `limit - length` over the code lengths: the
/// Kraft sum of the lengths, scaled by two to the power `limit`.
pub open spec fn kraft_sum(lens: Seq<int>, limit: nat) -> nat
    decreases lens.len(),
{
    if lens.len() == 0 {
        0
    } else {
        kraft_sum(lens.drop_last(), limit) + pow2((limit - lens.last()) as nat)
    }
}

/// `a` is the beginning of `b`.
pub open spec fn is_prefix(a: Seq<bool>, b: Seq<bool>) -> bool {
    a.len() <= b.len() && b.subrange(0, a.len() as int) == a
}

/// The Kraft sum of the first lengths is no more than that of all.
proof fn lemma_kraft_sum_prefix(lens: Seq<int>, limit: nat, i: int)
    requires
        0 <= i <= lens.len(),
    ensures
        kraft_sum(lens.subrange(0, i), limit) <= kraft_sum(lens, limit),
    decreases lens.len() - i,
{
    if i == lens.len() {
        assert(lens.subrange(0, i) =~= lens);
    } else {
        lemma_kraft_sum_prefix(lens, limit, i + 1);
        assert(lens.subrange(0, i + 1).drop_last() =~= lens.subrange(0, i));
    }
}

/// The Kraft sum up to a length, with that length, is no more than the sum up
/// to any later one.
proof fn lemma_kraft_sum_step(lens: Seq<int>, limit: nat, i: int, j: int)
    requires
        0 <= i < j <= lens.len(),
    ensures
        kraft_sum(lens.subrange(0, i), limit) + pow2((limit - lens[i]) as nat) <= kraft_sum(
            lens.subrange(0, j),
            limit,
        ),
{
    let head = lens.subrange(0, j);
    lemma_kraft_sum_prefix(head, limit, i + 1);
    assert(head.subrange(0, i + 1) =~= lens.subrange(0, i + 1));
    assert(lens.subrange(0, i + 1).drop_last() =~= lens.subrange(0, i));
}

/// Scaled to the width `limit`, a canonical code word starts where the words
/// before it end.
proof fn lemma_canonical_value_scaled(lens: Seq<int>, limit: nat, i: int)
    requires
        forall|k: int| 0 <= k < lens.len() ==> 1 <= #[trigger] lens[k] <= limit,
        non_decreasing(lens),
        0 <= i < lens.len(),
    ensures
        canonical_value(lens, i) * pow2((limit - lens[i]) as nat) == kraft_sum(
            lens.subrange(0, i),
            limit,
        ),
    decreases i,
{
    if i == 0 {
        assert(lens.subrange(0, 0) =~= Seq::<int>::empty());
        assert(0 * pow2((limit - lens[i]) as nat) == 0);
    } else {
        lemma_canonical_value_scaled(lens, limit, i - 1);
        assert(lens.subrange(0, i).drop_last() =~= lens.subrange(0, i - 1));
        assert(lens.subrange(0, i).last() == lens[i - 1]);
        let v = canonical_value(lens, i - 1);
        let grow = pow2((lens[i] - lens[i - 1]) as nat);
        let here = pow2((limit - lens[i]) as nat);
        let there = pow2((limit - lens[i - 1]) as nat);
        lemma_pow2_add((lens[i] - lens[i - 1]) as nat, (limit - lens[i]) as nat);
        assert(grow * here == there);
        assert(((v + 1) * grow) * here == v * there + there) by (nonlinear_arith)
            requires
                grow * here == there,
        ;
    }
}

/// Under Kraft's inequality no canonical code word overflows its width, and
/// a later word lies beyond every extension of an earlier one.
proof fn lemma_canonical_value_bounds(lens: Seq<int>, limit: nat, i: int, j: int)
    requires
        forall|k: int| 0 <= k < lens.len() ==> 1 <= #[trigger] lens[k] <= limit,
        non_decreasing(lens),
        kraft_sum(lens, limit) <= pow2(limit),
        0 <= i < j < lens.len(),
    ensures
        lens[i] <= lens[j],
        canonical_value(lens, i) < pow2(lens[i] as nat),
        canonical_value(lens, j) < pow2(lens[j] as nat),
        (canonical_value(lens, i) + 1) * pow2((lens[j] - lens[i]) as nat) <= canonical_value(
            lens,
            j,
        ),
{
    lemma_non_decreasing(lens, i, j);
    lemma_canonical_value_scaled(lens, limit, i);
    lemma_canonical_value_scaled(lens, limit, j);
    lemma_kraft_sum_step(lens, limit, i, j);
    lemma_kraft_sum_step(lens, limit, i, lens.len() as int);
    lemma_kraft_sum_step(lens, limit, j, lens.len() as int);
    assert(lens.subrange(0, lens.len() as int) =~= lens);
    let vi = canonical_value(lens, i) as int;
    let vj = canonical_value(lens, j) as int;
    let ri = pow2((limit - lens[i]) as nat) as int;
    let rj = pow2((limit - lens[j]) as nat) as int;
    let wi = pow2(lens[i] as nat) as int;
    let wj = pow2(lens[j] as nat) as int;
    let grow = pow2((lens[j] - lens[i]) as nat) as int;
    let full = pow2(limit) as int;
    lemma_pow2_add(lens[i] as nat, (limit - lens[i]) as nat);
    lemma_pow2_add(lens[j] as nat, (limit - lens[j]) as nat);
    lemma_pow2_add((lens[j] - lens[i]) as nat, (limit - lens[j]) as nat);
    lemma_pow2_positive((limit - lens[i]) as nat);
    lemma_pow2_positive((limit - lens[j]) as nat);
    assert(vi < wi) by (nonlinear_arith)
        requires
            vi * ri + ri <= full,
            wi * ri == full,
            ri >= 1,
    ;
    assert(vj < wj) by (nonlinear_arith)
        requires
            vj * rj + rj <= full,
            wj * rj == full,
            rj >= 1,
    ;
    assert((vi + 1) * grow <= vj) by (nonlinear_arith)
        requires
            vi * ri + ri <= vj * rj,
            grow * rj == ri,
            rj >= 1,
    ;
}

/// In ascending lengths an earlier one is no larger than a later one.
proof fn lemma_non_decreasing(lens: Seq<int>, i: int, j: int)
    requires
        non_decreasing(lens),
        0 <= i <= j < lens.len(),
    ensures
        lens[i] <= lens[j],
    decreases j - i,
{
    if i < j {
        lemma_non_decreasing(lens, i, j - 1);
        assert(lens[j - 1] <= lens[j]);
    }
}

/// The leading bits of a fixed-width writing write the number without its
/// low bits.
proof fn lemma_fixed_bits_prefix(q: nat, r: nat, width: nat, low: nat)
    requires
        low <= width,
        r < pow2(low),
    ensures
        fixed_bits(q * pow2(low) + r, width).subrange(0, width - low) == fixed_bits(
            q,
            (width - low) as nat,
        ),
    decreases low,
{
    let n = q * pow2(low) + r;
    if low == 0 {
        assert(q * 1 == q) by (nonlinear_arith);
        assert(fixed_bits(n, width).subrange(0, width as int) =~= fixed_bits(n, width)) by {
            lemma_fixed_bits(n, width);
        }
    } else {
        let l1 = (low - 1) as nat;
        let w1 = (width - 1) as nat;
        let half = pow2(l1);
        assert(q * (2 * half) == 2 * (q * half)) by (nonlinear_arith);
        assert(n / 2 == q * half + r / 2);
        lemma_fixed_bits_prefix(q, r / 2, w1, l1);
        lemma_fixed_bits(n / 2, w1);
        assert(fixed_bits(n, width).subrange(0, width - low) =~= fixed_bits(n / 2, w1).subrange(
            0,
            w1 - l1,
        ));
    }
}

/// Canonical code words of lengths that are all positive, in ascending
/// order, and satisfy Kraft's inequality form a prefix code: no word is the
/// beginning of another.
pub proof fn lemma_canonical_codes_prefix_free(lens: Seq<int>, limit: nat, i: int, j: int)
    requires
        forall|k: int| 0 <= k < lens.len() ==> 1 <= #[trigger] lens[k] <= limit,
        non_decreasing(lens),
        kraft_sum(lens, limit) <= pow2(limit),
        0 <= i < lens.len(),
        0 <= j < lens.len(),
        i != j,
    ensures
        !is_prefix(canonical_code(lens, i), canonical_code(lens, j)),
{
    let ci = canonical_code(lens, i);
    let cj = canonical_code(lens, j);
    lemma_fixed_bits(canonical_value(lens, i), lens[i] as nat);
    lemma_fixed_bits(canonical_value(lens, j), lens[j] as nat);
    if is_prefix(ci, cj) {
        if i > j {
            lemma_non_decreasing(lens, j, i);
            assert(cj.subrange(0, ci.len() as int) =~= cj);
            assert(ci.subrange(0, cj.len() as int) =~= ci);
            lemma_earlier_is_no_prefix(lens, limit, j, i);
        } else {
            lemma_earlier_is_no_prefix(lens, limit, i, j);
        }
    }
}

/// An earlier canonical code word is not the beginning of a later one.
proof fn lemma_earlier_is_no_prefix(lens: Seq<int>, limit: nat, i: int, j: int)
    requires
        forall|k: int| 0 <= k < lens.len() ==> 1 <= #[trigger] lens[k] <= limit,
        non_decreasing(lens),
        kraft_sum(lens, limit) <= pow2(limit),
        0 <= i < j < lens.len(),
    ensures
        !is_prefix(canonical_code(lens, i), canonical_code(lens, j)),
{
    lemma_canonical_value_bounds(lens, limit, i, j);
    let vi = canonical_value(lens, i);
    let vj = canonical_value(lens, j);
    let low = (lens[j] - lens[i]) as nat;
    let grow = pow2(low);
    lemma_pow2_positive(low);
    let q = vj / grow;
    let r = vj % grow;
    assert(q * grow + r == vj && 0 <= r < grow && q >= vi + 1) by (nonlinear_arith)
        requires
            q == vj / grow,
            r == vj % grow,
            grow >= 1,
            (vi + 1) * grow <= vj,
    ;
    lemma_fixed_bits_prefix(q, r, lens[j] as nat, low);
    lemma_fixed_bits(vi, lens[i] as nat);
    lemma_fixed_bits(vj, lens[j] as nat);
    lemma_fixed_bits(q, lens[i] as nat);
    if is_prefix(canonical_code(lens, i), canonical_code(lens, j)) {
        assert(fixed_bits(q, lens[i] as nat) == fixed_bits(vi, lens[i] as nat));
        lemma_pow2_add(lens[i] as nat, low);
        let wi = pow2(lens[i] as nat);
        assert(q < wi) by (nonlinear_arith)
            requires
                q * grow + r == vj,
                vj < wi * grow,
                grow >= 1,
                r >= 0,
        ;
        assert(q % wi == q) by (nonlinear_arith)
            requires
                0 <= q < wi,
        ;
        assert(vi % wi == vi) by (nonlinear_arith)
            requires
                0 <= vi < wi,
        ;
    }
}

} // verus!
