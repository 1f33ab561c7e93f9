use vstd::prelude::*;
use crate::bin_num::{fixed_bits, lemma_fixed_bits, pow2};
use crate::canonical::{
    is_prefix, last_index_of_code, last_index_of_key, lemma_last_index_of_code,
    lemma_last_index_of_key, model_code, model_key, CodeModel,
};
use crate::decoder::{read_number, read_symbol, symbol_length};
use crate::format::{code_word, concat_bits};
use crate::tables::prefix_free;

verus! {

/// The bits hold `part` at `pos`.
pub open spec fn has_at(bits: Seq<bool>, pos: int, part: Seq<bool>) -> bool {
    0 <= pos && pos + part.len() <= bits.len() && bits.subrange(pos, pos + part.len()) == part
}

/// Bits that hold two parts in a row hold the first, and the second after it.
pub proof fn lemma_has_at_split(bits: Seq<bool>, pos: int, first: Seq<bool>, second: Seq<bool>)
    requires
        has_at(bits, pos, first + second),
    ensures
        has_at(bits, pos, first),
        has_at(bits, pos + first.len(), second),
{
    let both = first + second;
    let held = bits.subrange(pos, pos + both.len());
    assert(bits.subrange(pos, pos + first.len()) =~= held.subrange(0, first.len() as int));
    assert(held.subrange(0, first.len() as int) =~= first);
    assert(bits.subrange(pos + first.len(), pos + first.len() + second.len()) =~= held.subrange(
        first.len() as int,
        both.len() as int,
    ));
    assert(held.subrange(first.len() as int, both.len() as int) =~= second);
}

/// Bits that hold a part, and another after it, hold both in a row.
pub proof fn lemma_has_at_join(bits: Seq<bool>, pos: int, first: Seq<bool>, second: Seq<bool>)
    requires
        has_at(bits, pos, first),
        has_at(bits, pos + first.len(), second),
    ensures
        has_at(bits, pos, first + second),
{
    let both = first + second;
    assert(bits.subrange(pos, pos + both.len()) =~= both) by {
        assert forall|k: int| 0 <= k < both.len() implies bits.subrange(pos, pos + both.len())[k]
            == both[k] by {
            if k < first.len() {
                assert(bits.subrange(pos, pos + first.len())[k] == first[k]);
            } else {
                assert(bits.subrange(pos + first.len(), pos + first.len() + second.len())[k
                    - first.len()] == second[k - first.len()]);
            }
        }
    }
}

/// Bits that begin with two parts in a row hold the second after the first.
pub proof fn lemma_has_at_after(bits: Seq<bool>, first: Seq<bool>, second: Seq<bool>)
    requires
        (first + second).len() <= bits.len(),
        bits.subrange(0, (first + second).len() as int) == first + second,
    ensures
        has_at(bits, first.len() as int, second),
{
    lemma_has_at_split(bits, 0, first, second);
}

/// What bits hold at a position they hold, behind a lead, that much later.
pub proof fn lemma_has_at_behind(lead: Seq<bool>, bits: Seq<bool>, pos: int, part: Seq<bool>)
    requires
        has_at(bits, pos, part),
    ensures
        has_at(lead + bits, lead.len() + pos, part),
{
    let all = lead + bits;
    assert(all.subrange(lead.len() + pos, lead.len() + pos + part.len()) =~= bits.subrange(
        pos,
        pos + part.len(),
    ));
}

/// Bits from a position on are what they hold there, then the bits after it.
pub proof fn lemma_has_at_tail(bits: Seq<bool>, pos: int, part: Seq<bool>)
    requires
        has_at(bits, pos, part),
    ensures
        bits.subrange(pos, bits.len() as int) == part + bits.subrange(
            pos + part.len(),
            bits.len() as int,
        ),
{
    let held = bits.subrange(pos, bits.len() as int);
    let rest = bits.subrange(pos + part.len(), bits.len() as int);
    assert(held.subrange(0, part.len() as int) =~= bits.subrange(pos, pos + part.len()));
    assert(held =~= held.subrange(0, part.len() as int) + rest);
}

/// The bits of several items in a row are the bits of the first, then those
/// of the others.
pub proof fn lemma_concat_bits_front<A>(items: Seq<A>, bits_of: spec_fn(A) -> Seq<bool>)
    requires
        items.len() > 0,
    ensures
        concat_bits(items, bits_of) == bits_of(items[0]) + concat_bits(items.drop_first(), bits_of),
    decreases items.len(),
{
    if items.len() == 1 {
        assert(items.drop_last() =~= Seq::<A>::empty());
        assert(items.drop_first() =~= Seq::<A>::empty());
        assert(concat_bits(items, bits_of) =~= bits_of(items[0]) + concat_bits(
            items.drop_first(),
            bits_of,
        ));
    } else {
        let front = items.drop_last();
        lemma_concat_bits_front(front, bits_of);
        assert(front[0] == items[0]);
        assert(front.drop_first() =~= items.drop_first().drop_last());
        assert(items.drop_first().last() == items.last());
        assert(concat_bits(items, bits_of) =~= bits_of(items[0]) + concat_bits(
            items.drop_first(),
            bits_of,
        ));
    }
}

/// The bits of two runs of items in a row.
pub proof fn lemma_concat_bits_concat<A>(a: Seq<A>, b: Seq<A>, bits_of: spec_fn(A) -> Seq<bool>)
    ensures
        concat_bits(a + b, bits_of) == concat_bits(a, bits_of) + concat_bits(b, bits_of),
    decreases b.len(),
{
    if b.len() == 0 {
        assert(a + b =~= a);
        assert(concat_bits(a, bits_of) + concat_bits(b, bits_of) =~= concat_bits(a, bits_of));
    } else {
        lemma_concat_bits_concat(a, b.drop_last(), bits_of);
        assert((a + b).drop_last() =~= a + b.drop_last());
        assert((a + b).last() == b.last());
        assert(concat_bits(a + b, bits_of) =~= concat_bits(a, bits_of) + concat_bits(b, bits_of));
    }
}

/// A number that was written in `width` bits is read back.
pub proof fn lemma_read_fixed(bits: Seq<bool>, pos: int, value: nat, width: nat)
    requires
        has_at(bits, pos, fixed_bits(value, width)),
        value < pow2(width),
    ensures
        read_number(bits, pos, width as int) == Some(value as int),
{
    lemma_fixed_bits(value, width);
    assert(value % pow2(width) == value) by (nonlinear_arith)
        requires
            0 <= value < pow2(width),
    ;
}

/// Where no shorter run of bits is a code word, the first one that is decides.
proof fn lemma_symbol_length_skips(model: CodeModel, bits: Seq<bool>, pos: int, n: int, len: int)
    requires
        0 <= pos,
        1 <= n <= len,
        pos + len <= bits.len(),
        forall|m: int| n <= m < len ==> model_key(model, #[trigger] bits.subrange(pos, pos + m)) is None,
        model_key(model, bits.subrange(pos, pos + len)) is Some,
    ensures
        symbol_length(model, bits, pos, n) == len,
    decreases len - n,
{
    if n < len {
        assert(model_key(model, bits.subrange(pos, pos + n)) is None);
        lemma_symbol_length_skips(model, bits, pos, n + 1, len);
    }
}

/// In a prefix code, the code word at a position is read as its symbol, and
/// nothing shorter is.
pub proof fn lemma_read_symbol(model: CodeModel, bits: Seq<bool>, pos: int, i: int)
    requires
        prefix_free(model),
        0 <= i < model.len(),
        has_at(bits, pos, model[i].1),
    ensures
        read_symbol(model, bits, pos) == Some((model[i].0, pos + model[i].1.len())),
{
    let word = model[i].1;
    let len = word.len() as int;
    assert forall|m: int| 1 <= m < len implies model_key(
        model,
        #[trigger] bits.subrange(pos, pos + m),
    ) is None by {
        let piece = bits.subrange(pos, pos + m);
        let j = last_index_of_code(model, piece);
        lemma_last_index_of_code(model, piece);
        if j >= 0 {
            assert(model[j].1 == piece);
            assert(word.subrange(0, m) =~= piece);
            assert(is_prefix(model[j].1, model[i].1));
        }
    }
    let j = last_index_of_code(model, word);
    lemma_last_index_of_code(model, word);
    if j < 0 {
        assert(model[i].1 != word);
    }
    if j != i {
        assert(word.subrange(0, len) =~= word);
        assert(is_prefix(model[j].1, model[i].1));
    }
    lemma_symbol_length_skips(model, bits, pos, 1, len);
}

/// In a prefix code, the code word of a symbol is read as that symbol.
pub proof fn lemma_read_code_word(model: CodeModel, bits: Seq<bool>, pos: int, key: int)
    requires
        prefix_free(model),
        model_code(model, key) is Some,
        has_at(bits, pos, code_word(model, key)),
    ensures
        read_symbol(model, bits, pos) == Some((key, pos + code_word(model, key).len())),
        code_word(model, key).len() >= 1,
{
    let i = last_index_of_key(model, key);
    lemma_last_index_of_key(model, key);
    lemma_read_symbol(model, bits, pos, i);
}

} // verus!
