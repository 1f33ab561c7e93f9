use vstd::prelude::*;
use crate::bin_num::{bits_value, fixed_bits, lemma_fixed_bits, lemma_fixed_bits_of_value, pow2};
use crate::block_round_trip::lemma_block_round_trip;
use crate::decoder::decode_block;
use crate::deflate::{
    all_bits, bit_or_padding, bits_in_use, block_count, block_elements, blocks_bits, byte_bits,
    decode_blocks, deflate_bits, deflate_decoded, lemma_block_begins_with_flag, packed,
    stream_bits, unpacked,
};
use crate::error::DeflateError;
use crate::format::{block_bits, BLOCK_SIZE};
use crate::lz77::{
    apply_element, lemma_lz77_round_trip, lemma_lz77_step, lz77_expand, lz77_from, lz77_parse,
    lz77_step, Lz77Element,
};
use crate::payload_reading::{reaches, references_reach};

verus! {

/// No reference of what the matcher emits from a position on reaches back
/// before the start of the data.
pub proof fn lemma_lz77_from_reaches(data: Seq<u8>, starts: Seq<usize>, i: int)
    requires
        0 <= i <= data.len(),
        forall|k: int| 0 <= k < starts.len() ==> #[trigger] starts[k] < i,
    ensures
        references_reach(data.subrange(0, i), lz77_from(data, starts, i)),
    decreases data.len() - i,
{
    if i < data.len() {
        lemma_lz77_step(data, starts, i);
        let element = lz77_step(data, starts, i);
        let next = starts.push(i as usize);
        let rest = lz77_from(data, next, i + element.span());
        assert forall|k: int| 0 <= k < next.len() implies #[trigger] next[k] < i + element.span() by {
            if k < starts.len() {
                assert(next[k] == starts[k]);
            }
        }
        lemma_lz77_from_reaches(data, next, i + element.span());
        let all = seq![element] + rest;
        assert(all[0] == element);
        assert(all.drop_first() =~= rest);
        lemma_step_reaches(data, starts, i);
    }
}

/// What the matcher emits at a position reaches no further back than the
/// position.
pub proof fn lemma_step_reaches(data: Seq<u8>, starts: Seq<usize>, i: int)
    requires
        0 <= i < data.len(),
        forall|k: int| 0 <= k < starts.len() ==> #[trigger] starts[k] < i,
    ensures
        reaches(i, lz77_step(data, starts, i)),
{
    if i + crate::lz77::MIN_COINCIDENCE_SIZE <= data.len() {
        let key = crate::lz77::key_at(data, i);
        let full = crate::lz77::history(data, starts, key);
        let cands = crate::lz77::newest(full, crate::lz77::CHAIN_LIMIT as int);
        let best = crate::lz77::best_in(data, cands, i, 0);
        crate::lz77::lemma_best_in(data, cands, i, 0);
        if best >= 0 {
            crate::lz77::lemma_history(data, starts, key, i);
            if full.len() > crate::lz77::CHAIN_LIMIT {
                assert(cands[best] == full[full.len() - crate::lz77::CHAIN_LIMIT + best]);
            } else {
                assert(cands[best] == full[best]);
            }
            assert(crate::lz77::keyed_position(data, cands[best], key, i));
        }
    }
}

/// Carrying out two runs of elements in a row.
pub proof fn lemma_expand_concat(out: Seq<u8>, a: Seq<Lz77Element>, b: Seq<Lz77Element>)
    ensures
        lz77_expand(out, a + b) == lz77_expand(lz77_expand(out, a), b),
        references_reach(out, a + b) == (references_reach(out, a) && references_reach(
            lz77_expand(out, a),
            b,
        )),
    decreases a.len(),
{
    if a.len() == 0 {
        assert(a + b =~= b);
    } else {
        let both = a + b;
        assert(both[0] == a[0]);
        assert(both.drop_first() =~= a.drop_first() + b);
        lemma_expand_concat(apply_element(out, a[0]), a.drop_first(), b);
    }
}

/// The bits of the first blocks are the beginning of the bits of more blocks.
pub proof fn lemma_blocks_prefix(elements: Seq<Lz77Element>, fewer: int, more: int)
    requires
        0 <= fewer <= more,
    ensures
        blocks_bits(elements, fewer).len() <= blocks_bits(elements, more).len(),
        blocks_bits(elements, more).subrange(0, blocks_bits(elements, fewer).len() as int)
            == blocks_bits(elements, fewer),
    decreases more - fewer,
{
    if fewer == more {
        assert(blocks_bits(elements, more).subrange(0, blocks_bits(elements, more).len() as int)
            =~= blocks_bits(elements, more));
    } else {
        lemma_blocks_prefix(elements, fewer, more - 1);
        let shorter = blocks_bits(elements, more - 1);
        let longer = blocks_bits(elements, more);
        let want = blocks_bits(elements, fewer);
        assert(longer.subrange(0, want.len() as int) =~= shorter.subrange(0, want.len() as int));
    }
}

/// The elements of the first `k` blocks.
pub open spec fn elements_before(elements: Seq<Lz77Element>, k: int) -> Seq<Lz77Element> {
    if k * BLOCK_SIZE < elements.len() {
        elements.subrange(0, k * BLOCK_SIZE)
    } else {
        elements
    }
}

/// The elements of a block follow those of the blocks before it; carried out
/// onto what those stand for, they reach back no further than the output.
pub proof fn lemma_chunk(elements: Seq<Lz77Element>, k: int)
    requires
        forall|j: int| 0 <= j < elements.len() ==> (#[trigger] elements[j]).well_formed(),
        references_reach(Seq::empty(), elements),
        0 <= k < block_count(elements.len() as int),
    ensures
        elements_before(elements, k + 1) == elements_before(elements, k) + block_elements(
            elements,
            k,
        ),
        k + 1 == block_count(elements.len() as int) ==> elements_before(elements, k + 1)
            == elements,
        forall|j: int|
            0 <= j < block_elements(elements, k).len() ==> (#[trigger] block_elements(
                elements,
                k,
            )[j]).well_formed(),
        references_reach(
            lz77_expand(Seq::empty(), elements_before(elements, k)),
            block_elements(elements, k),
        ),
        lz77_expand(
            lz77_expand(Seq::empty(), elements_before(elements, k)),
            block_elements(elements, k),
        ) == lz77_expand(Seq::empty(), elements_before(elements, k + 1)),
{
    let before = elements_before(elements, k);
    let chunk = block_elements(elements, k);
    let after = elements_before(elements, k + 1);
    assert(after =~= before + chunk);
    lemma_expand_concat(Seq::empty(), before, chunk);
    let tail = elements.subrange(after.len() as int, elements.len() as int);
    assert(elements =~= after + tail);
    lemma_expand_concat(Seq::empty(), after, tail);
    assert forall|j: int| 0 <= j < chunk.len() implies (#[trigger] chunk[j]).well_formed() by {
        assert(chunk[j] == elements[k * BLOCK_SIZE + j]);
    }
}

/// Block `k` lies in the stream after the blocks before it, and ends where
/// the stream ends if and only if it is the last.
pub proof fn lemma_block_at(elements: Seq<Lz77Element>, lead: Seq<bool>, k: int)
    requires
        lead.len() == 3,
        0 <= k < block_count(elements.len() as int),
    ensures
        ({
            let bits = lead + stream_bits(elements);
            let pos = 3 + blocks_bits(elements, k).len() as int;
            let block = block_bits(
                block_elements(elements, k),
                k + 1 == block_count(elements.len() as int),
            );
            &&& pos + block.len() <= bits.len()
            &&& pos + block.len() == 3 + blocks_bits(elements, k + 1).len()
            &&& bits.subrange(pos, bits.len() as int) == block + bits.subrange(
                pos + block.len(),
                bits.len() as int,
            )
            &&& k + 1 == block_count(elements.len() as int) ==> pos + block.len() == bits.len()
        }),
{
    let count = block_count(elements.len() as int);
    let body = stream_bits(elements);
    let before = blocks_bits(elements, k);
    let block = block_bits(block_elements(elements, k), k + 1 == count);
    lemma_blocks_prefix(elements, k + 1, count);
    assert(blocks_bits(elements, k + 1) == before + block);
    crate::reading::lemma_has_at_after(body, before, block);
    crate::reading::lemma_has_at_behind(lead, body, before.len() as int, block);
    crate::reading::lemma_has_at_tail(lead + body, 3 + before.len() as int, block);
    if k + 1 == count {
        assert(before.len() + block.len() == body.len());
    }
}

/// Decoding blocks from a position on decodes the block there, and goes on
/// after it unless it is marked as the last.
pub proof fn lemma_decode_blocks_step(
    bits: Seq<bool>,
    pos: int,
    out: Seq<u8>,
    after: Seq<u8>,
    used: int,
    last: bool,
)
    requires
        0 <= pos <= bits.len(),
        decode_block(bits.subrange(pos, bits.len() as int), out) == Ok::<
            (Seq<u8>, int, bool),
            DeflateError,
        >((after, used, last)),
        0 < used,
        pos + used <= bits.len(),
        last ==> pos + used == bits.len(),
    ensures
        last ==> decode_blocks(bits, pos, out) == Ok::<Seq<u8>, DeflateError>(after),
        !last ==> decode_blocks(bits, pos, out) == decode_blocks(bits, pos + used, after),
{
}

/// Decoding the blocks from block `k` on, onto what the blocks before it
/// stand for, gives what all elements stand for.
pub proof fn lemma_decode_blocks(elements: Seq<Lz77Element>, lead: Seq<bool>, k: int)
    requires
        forall|j: int| 0 <= j < elements.len() ==> (#[trigger] elements[j]).well_formed(),
        references_reach(Seq::empty(), elements),
        lead.len() == 3,
        0 <= k < block_count(elements.len() as int),
    ensures
        decode_blocks(
            lead + stream_bits(elements),
            3 + blocks_bits(elements, k).len() as int,
            lz77_expand(Seq::empty(), elements_before(elements, k)),
        ) == Ok::<Seq<u8>, DeflateError>(lz77_expand(Seq::empty(), elements)),
    decreases block_count(elements.len() as int) - k,
{
    let bits = lead + stream_bits(elements);
    let chunk = block_elements(elements, k);
    let last = k + 1 == block_count(elements.len() as int);
    let block = block_bits(chunk, last);
    let out = lz77_expand(Seq::empty(), elements_before(elements, k));
    let after = lz77_expand(Seq::empty(), elements_before(elements, k + 1));
    let pos: int = 3 + blocks_bits(elements, k).len() as int;
    let rest = bits.subrange(pos + block.len(), bits.len() as int);
    lemma_chunk(elements, k);
    lemma_block_at(elements, lead, k);
    lemma_block_round_trip(chunk, last, rest, out);
    lemma_block_begins_with_flag(chunk, last);
    lemma_decode_blocks_step(bits, pos, out, after, block.len() as int, last);
    if !last {
        lemma_decode_blocks(elements, lead, k + 1);
    }
}

/// The bits that were packed into bytes are unpacked again, where they
/// begin with the three bits that say how many bits of the last byte are in
/// use.
pub proof fn lemma_unpack_packed(bits: Seq<bool>)
    requires
        bits.len() >= 3,
        bits.subrange(0, 3) == fixed_bits((bits.len() % 8) as nat, 3),
    ensures
        unpacked(packed(bits)) == Ok::<Seq<bool>, DeflateError>(bits),
{
    let bytes = packed(bits);
    let all = all_bits(bytes);
    assert(pow2(8) == 256 && pow2(3) == 8) by {
        reveal_with_fuel(pow2, 9);
    }
    assert forall|i: int| 0 <= i < all.len() implies #[trigger] all[i] == bit_or_padding(bits, i) by {
        let k = i / 8;
        let group = byte_bits(bits, k);
        lemma_fixed_bits_of_value(group);
        assert(bytes[k] == bits_value(group) as u8);
        assert(group[i % 8] == bit_or_padding(bits, 8 * k + i % 8));
    }
    assert(all.subrange(0, 3) =~= bits.subrange(0, 3));
    lemma_fixed_bits((bits.len() % 8) as nat, 3);
    assert((bits.len() % 8) % 8 == bits.len() % 8);
    let mark = bits_value(all.subrange(0, 3)) as int;
    assert(mark == bits.len() % 8);
    assert(bits_in_use(bytes) == bits.len());
    assert(all.subrange(0, bits.len() as int) =~= bits);
    assert forall|i: int| bits_in_use(bytes) <= i < 8 * bytes.len() implies !(#[trigger] all_bits(
        bytes,
    )[i]) by {
        assert(all[i] == bit_or_padding(bits, i));
    }
}

/// Decompressing what was compressed gives the data back: for every
/// sequence of bytes, decoding the packed bits of its encoding succeeds and
/// returns the sequence.
pub proof fn lemma_deflate_round_trip(data: Seq<u8>)
    ensures
        deflate_decoded(packed(deflate_bits(data))) == Ok::<Seq<u8>, DeflateError>(data),
{
    let elements = lz77_parse(data);
    let body = stream_bits(elements);
    let lead = fixed_bits(((3 + body.len()) % 8) as nat, 3);
    let bits = deflate_bits(data);
    lemma_fixed_bits(((3 + body.len()) % 8) as nat, 3);
    assert(bits == lead + body);
    assert(bits.subrange(0, 3) =~= lead);
    lemma_unpack_packed(bits);
    lemma_lz77_round_trip(data);
    crate::round_trip::lemma_lz77_from_reaches(data, Seq::empty(), 0);
    assert(data.subrange(0, 0) =~= Seq::<u8>::empty());
    assert(elements_before(elements, 0) =~= Seq::<Lz77Element>::empty());
    lemma_decode_blocks(elements, lead, 0);
}

} // verus!
