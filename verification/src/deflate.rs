use vstd::prelude::*;
use vstd::slice::slice_subrange;
use crate::bin_num::{bits_value, fixed_bits, lemma_fixed_bits, pow2};
use crate::decoder::{decode_block, deflate_block_decoding, take_number};
use crate::encoder::{append_bits, append_number, deflate_block_encoding};
use crate::error::DeflateError;
use crate::format::{block_bits, header_bits, BLOCK_SIZE};
use crate::lz77::{encoding_lz77, lz77_parse, Lz77Element};
use crate::size::{BLOCK_OVERHEAD, ELEMENT_BITS};

verus! {

/// The number of blocks that hold `n` elements: one for none, else as many
/// blocks of `BLOCK_SIZE` elements as it takes.
pub open spec fn block_count(n: int) -> int {
    if n <= 0 {
        1
    } else {
        (n + BLOCK_SIZE - 1) / (BLOCK_SIZE as int)
    }
}

/// The elements of block `k`, counted from zero.
pub open spec fn block_elements(elements: Seq<Lz77Element>, k: int) -> Seq<Lz77Element> {
    let start = k * BLOCK_SIZE;
    let end = if (k + 1) * BLOCK_SIZE < elements.len() {
        (k + 1) * BLOCK_SIZE
    } else {
        elements.len() as int
    };
    elements.subrange(start, end)
}

/// The bits of the first `count` blocks. Only the last block of all is
/// marked as such.
pub open spec fn blocks_bits(elements: Seq<Lz77Element>, count: int) -> Seq<bool>
    decreases count,
{
    if count <= 0 {
        Seq::empty()
    } else {
        blocks_bits(elements, count - 1) + block_bits(
            block_elements(elements, count - 1),
            count == block_count(elements.len() as int),
        )
    }
}

/// The bits of all blocks of the elements.
pub open spec fn stream_bits(elements: Seq<Lz77Element>) -> Seq<bool> {
    blocks_bits(elements, block_count(elements.len() as int))
}

/// The compressed bit stream of the data: three bits that say how many bits
/// of the last byte are in use (zero stands for eight), then the blocks.
pub open spec fn deflate_bits(data: Seq<u8>) -> Seq<bool> {
    let body = stream_bits(lz77_parse(data));
    fixed_bits(((3 + body.len()) % 8) as nat, 3) + body
}

/// A block begins with its last-block flag.
pub proof fn lemma_block_begins_with_flag(elements: Seq<Lz77Element>, is_end_block: bool)
    ensures
        block_bits(elements, is_end_block).len() >= 17,
        block_bits(elements, is_end_block)[0] == is_end_block,
        !block_bits(elements, is_end_block)[1],
        block_bits(elements, is_end_block)[2],
{
    let plan = crate::format::block_plan(elements);
    let header = header_bits(is_end_block, plan.hlit, plan.hdist, plan.hclen);
    lemma_fixed_bits(plan.hlit as nat, 5);
    lemma_fixed_bits(plan.hdist as nat, 5);
    lemma_fixed_bits(plan.hclen as nat, 4);
    assert(header.len() == 17);
    assert(header[0] == is_end_block);
    assert(!header[1]);
    assert(header[2]);
    let all = block_bits(elements, is_end_block);
    assert(all[0] == header[0]);
    assert(all[1] == header[1]);
    assert(all[2] == header[2]);
}

/// More than `BLOCK_SIZE` elements are written as at least two blocks; every
/// block holds at most `BLOCK_SIZE` elements, and exactly the last block
/// begins with a set last-block flag.
pub proof fn lemma_block_boundaries(elements: Seq<Lz77Element>, k: int)
    requires
        0 <= k < block_count(elements.len() as int),
    ensures
        elements.len() > BLOCK_SIZE ==> block_count(elements.len() as int) >= 2,
        block_elements(elements, k).len() <= BLOCK_SIZE,
        blocks_bits(elements, k + 1) == blocks_bits(elements, k) + block_bits(
            block_elements(elements, k),
            k + 1 == block_count(elements.len() as int),
        ),
        blocks_bits(elements, k + 1)[blocks_bits(elements, k).len() as int] == (k + 1
            == block_count(elements.len() as int)),
{
    let count = block_count(elements.len() as int);
    let block = block_bits(block_elements(elements, k), k + 1 == count);
    lemma_block_begins_with_flag(block_elements(elements, k), k + 1 == count);
    assert(blocks_bits(elements, k + 1)[blocks_bits(elements, k).len() as int] == block[0]);
}

/// Compresses the data: the matcher's elements in blocks of at most
/// `BLOCK_SIZE`, the last one marked, behind three bits that say how many bits
/// of the last byte are in use. Decompressing the packed bits gives the data
/// back, and the bits number at most 4516 and 49 for every byte of the data.
pub fn deflate_encoding(data: Vec<u8>) -> (bits: Vec<bool>)
    ensures
        bits@ == deflate_bits(data@),
        deflate_decoded(packed(bits@)) == Ok::<Seq<u8>, DeflateError>(data@),
        bits.len() <= 3 + BLOCK_OVERHEAD + (ELEMENT_BITS + 1) * data.len(),
{
    proof {
        crate::round_trip::lemma_deflate_round_trip(data@);
        crate::size::lemma_deflate_bits_len(data@);
    }
    let lz77_result = encoding_lz77(&data);
    let ghost elements = lz77_result@;
    let total: usize = lz77_result.len();
    let mut bin_result: Vec<bool> = Vec::new();
    bin_result.push(false);
    bin_result.push(false);
    bin_result.push(false);
    let ghost count = block_count(total as int);
    let mut start_block: usize = 0;
    let mut done: bool = false;
    let ghost mut written: int = 0;
    assert(bin_result@.subrange(3, 3) =~= blocks_bits(elements, 0));
    while !done
        invariant
            start_block <= total,
            total == lz77_result.len(),
            elements == lz77_result@,
            count == block_count(total as int),
            forall|k: int| 0 <= k < elements.len() ==> (#[trigger] elements[k]).well_formed(),
            0 <= written <= count,
            !done ==> written < count,
            done ==> written == count,
            start_block == if written * BLOCK_SIZE < total {
                written * BLOCK_SIZE
            } else {
                total as int
            },
            bin_result@.len() >= 3,
            bin_result@.subrange(3, bin_result@.len() as int) == blocks_bits(elements, written),
        decreases count - written,
    {
        let end_block: usize = if total - start_block > BLOCK_SIZE {
            start_block + BLOCK_SIZE
        } else {
            total
        };
        let is_end_block: bool = end_block == total;
        let lz77_local = slice_subrange(lz77_result.as_slice(), start_block, end_block);
        proof {
            assert(lz77_local@ == block_elements(elements, written));
            assert(is_end_block == (written + 1 == count));
            assert forall|k: int| 0 <= k < lz77_local@.len() implies (
            #[trigger] lz77_local@[k]).well_formed() by {
                assert(lz77_local@[k] == elements[start_block + k]);
            }
        }
        let ghost before = bin_result@;
        match deflate_block_encoding(lz77_local, is_end_block) {
            Ok(block) => {
                append_bits(&mut bin_result, &block);
                proof {
                    assert(bin_result@.subrange(3, bin_result@.len() as int) =~= before.subrange(
                        3,
                        before.len() as int,
                    ) + block@);
                }
            },
            Err(_) => {},
        }
        start_block = end_block;
        done = is_end_block;
        proof {
            written = written + 1;
        }
    }
    let ghost body = bin_result@.subrange(3, bin_result@.len() as int);
    let used: i32 = (bin_result.len() % 8) as i32;
    let mut bin_size: Vec<bool> = Vec::new();
    proof {
        assert(pow2(3) == 8) by {
            reveal_with_fuel(pow2, 4);
        }
        lemma_fixed_bits(used as nat, 3);
    }
    append_number(&mut bin_size, used, 3);
    assert(bin_size@ =~= fixed_bits(used as nat, 3));
    let mut i: usize = 0;
    while i < 3
        invariant
            i <= 3,
            bin_size@.len() == 3,
            bin_result@.len() == 3 + body.len(),
            bin_result@.subrange(3, bin_result@.len() as int) == body,
            forall|k: int| 0 <= k < i ==> bin_result@[k] == bin_size@[k],
        decreases 3 - i,
    {
        let ghost before = bin_result@;
        bin_result.set(i, bin_size[i]);
        assert(bin_result@.subrange(3, bin_result@.len() as int) =~= before.subrange(
            3,
            before.len() as int,
        ));
        i += 1;
    }
    assert(bin_result@ =~= bin_size@ + body);
    bin_result
}

/// The bit at `i` where there is one, `false` beyond the end.
pub open spec fn bit_or_padding(bits: Seq<bool>, i: int) -> bool {
    if 0 <= i < bits.len() {
        bits[i]
    } else {
        false
    }
}

/// The eight bits of byte `k` of the packed bits.
pub open spec fn byte_bits(bits: Seq<bool>, k: int) -> Seq<bool> {
    Seq::new(8, |j: int| bit_or_padding(bits, 8 * k + j))
}

/// The bits packed into bytes, eight to a byte and the first bit highest;
/// the last byte is filled up with zeros.
pub open spec fn packed(bits: Seq<bool>) -> Seq<u8> {
    Seq::new(((bits.len() + 7) / 8) as nat, |k: int| bits_value(byte_bits(bits, k)) as u8)
}

/// All bits of the bytes, the highest bit of each byte first.
pub open spec fn all_bits(bytes: Seq<u8>) -> Seq<bool> {
    Seq::new(8 * bytes.len(), |i: int| fixed_bits(bytes[i / 8] as nat, 8)[i % 8])
}

/// How many of the bits of the bytes belong to the stream: the first three
/// bits say how many bits of the last byte do, zero standing for eight.
pub open spec fn bits_in_use(bytes: Seq<u8>) -> int {
    let mark = bits_value(all_bits(bytes).subrange(0, 3)) as int;
    8 * (bytes.len() - 1) + if mark == 0 {
        8
    } else {
        mark
    }
}

/// The bit stream that the bytes hold; `Err(Truncation)` where there is no
/// byte, where fewer than the three leading bits are in use, or where a bit
/// of the padding is set.
pub open spec fn unpacked(bytes: Seq<u8>) -> Result<Seq<bool>, DeflateError> {
    if bytes.len() == 0 {
        Err(DeflateError::Truncation)
    } else if bits_in_use(bytes) < 3 {
        Err(DeflateError::Truncation)
    } else if exists|i: int| bits_in_use(bytes) <= i < 8 * bytes.len() && #[trigger] all_bits(bytes)[i] {
        Err(DeflateError::Truncation)
    } else {
        Ok(all_bits(bytes).subrange(0, bits_in_use(bytes)))
    }
}

/// Decodes the blocks from `pos` on onto the output, up to the block that is
/// marked as the last; `Err(Truncation)` where bits are left over after it.
pub open spec fn decode_blocks(bits: Seq<bool>, pos: int, out: Seq<u8>) -> Result<
    Seq<u8>,
    DeflateError,
>
    decreases bits.len() - pos,
{
    if pos < 0 || pos > bits.len() {
        Err(DeflateError::Truncation)
    } else {
        match decode_block(bits.subrange(pos, bits.len() as int), out) {
            Err(e) => Err(e),
            Ok(block) => if block.1 <= 0 || pos + block.1 > bits.len() {
                Err(DeflateError::Truncation)
            } else if block.2 {
                if pos + block.1 != bits.len() {
                    Err(DeflateError::Truncation)
                } else {
                    Ok(block.0)
                }
            } else {
                decode_blocks(bits, pos + block.1, block.0)
            },
        }
    }
}

/// The data that the bytes of a compressed stream stand for.
pub open spec fn deflate_decoded(bytes: Seq<u8>) -> Result<Seq<u8>, DeflateError> {
    match unpacked(bytes) {
        Err(e) => Err(e),
        Ok(bits) => decode_blocks(bits, 3, Seq::empty()),
    }
}

/// Packs the bits into bytes, eight to a byte and the first bit highest; the
/// last byte is filled up with zeros.
pub fn pack_bits(bits: &Vec<bool>) -> (bytes: Vec<u8>)
    ensures
        bytes@ == packed(bits@),
        bytes.len() == (bits.len() + 7) / 8,
{
    let mut bytes: Vec<u8> = Vec::new();
    let count: usize = bits.len() / 8 + if bits.len() % 8 != 0 {
        1
    } else {
        0
    };
    let mut k: usize = 0;
    while k < count
        invariant
            k <= count,
            count == (bits.len() + 7) / 8,
            bytes.len() == k,
            forall|i: int| 0 <= i < k ==> #[trigger] bytes[i] == packed(bits@)[i],
        decreases count - k,
    {
        let start: usize = 8 * k;
        let ghost group = byte_bits(bits@, k as int);
        let mut byte: u8 = 0;
        let mut j: usize = 0;
        assert(group.subrange(0, 0) =~= Seq::<bool>::empty());
        while j < 8
            invariant
                j <= 8,
                start < bits.len(),
                start == 8 * k,
                group == byte_bits(bits@, k as int),
                byte == bits_value(group.subrange(0, j as int)),
                byte < pow2(j as nat),
            decreases 8 - j,
        {
            let bit: bool = if j < bits.len() - start {
                bits[start + j]
            } else {
                false
            };
            proof {
                let head = group.subrange(0, j + 1);
                assert(head.drop_last() =~= group.subrange(0, j as int));
                assert(head.last() == bit);
                crate::bin_num::lemma_pow2_monotone((j + 1) as nat, 8);
                assert(pow2(8) == 256) by {
                    reveal_with_fuel(pow2, 9);
                }
                assert(pow2((j + 1) as nat) == 2 * pow2(j as nat));
            }
            byte = byte * 2 + if bit {
                1
            } else {
                0
            };
            j += 1;
        }
        assert(group.subrange(0, 8) =~= group);
        bytes.push(byte);
        k += 1;
    }
    assert(bytes@ =~= packed(bits@));
    bytes
}

/// Unpacks the bit stream that the bytes hold.
pub fn unpack_bits(data: &Vec<u8>) -> (bits: Result<Vec<bool>, DeflateError>)
    ensures
        match unpacked(data@) {
            Ok(stream) => bits matches Ok(b) && b@ == stream && b.len() >= 3,
            Err(e) => bits matches Err(f) && f == e,
        },
{
    if data.len() == 0 {
        return Err(DeflateError::Truncation);
    }
    let mut all: Vec<bool> = Vec::new();
    let mut k: usize = 0;
    while k < data.len()
        invariant
            k <= data.len(),
            all.len() == 8 * k,
            forall|i: int| 0 <= i < 8 * k ==> #[trigger] all[i] == all_bits(data@)[i],
        decreases data.len() - k,
    {
        let ghost before = all@;
        proof {
            assert(pow2(8) == 256) by {
                reveal_with_fuel(pow2, 9);
            }
            lemma_fixed_bits(data[k as int] as nat, 8);
        }
        append_number(&mut all, data[k] as i32, 8);
        proof {
            let byte = fixed_bits(data[k as int] as nat, 8);
            assert forall|i: int| 0 <= i < 8 * (k + 1) implies #[trigger] all[i] == all_bits(
                data@,
            )[i] by {
                if i < 8 * k {
                    assert(all[i] == before[i]);
                } else {
                    assert(all[i] == byte[i - 8 * k]);
                    assert(i / 8 == k as int);
                    assert(i % 8 == i - 8 * k);
                }
            }
        }
        k += 1;
    }
    assert(all@ =~= all_bits(data@));
    let mark: usize = match take_number(all.as_slice(), 0, 3) {
        Some(number) => number as usize,
        None => 0,
    };
    proof {
        crate::decoder::lemma_number_bound(all@, 0, 3);
        reveal_with_fuel(pow2, 4);
    }
    let used: usize = 8 * (data.len() - 1) + if mark == 0 {
        8
    } else {
        mark
    };
    if used < 3 {
        return Err(DeflateError::Truncation);
    }
    let mut i: usize = used;
    while i < all.len()
        invariant
            used <= i <= all.len(),
            data.len() > 0,
            all@ == all_bits(data@),
            used == bits_in_use(data@),
            used >= 3,
            forall|j: int| used <= j < i ==> !(#[trigger] all@[j]),
        decreases all.len() - i,
    {
        if all[i] {
            assert(all_bits(data@)[i as int]);
            return Err(DeflateError::Truncation);
        }
        i += 1;
    }
    all.truncate(used);
    Ok(all)
}

/// Decompresses the bytes of a compressed stream: `Err(Truncation)` where
/// the bytes hold no bit stream, where the bits end before the last block
/// does, or where bits are left over after it; and the errors of
/// `deflate_block_decoding` for the blocks.
pub fn deflate_decoding(data: Vec<u8>) -> (decoded: Result<Vec<u8>, DeflateError>)
    ensures
        match deflate_decoded(data@) {
            Ok(bytes) => decoded matches Ok(d) && d@ == bytes,
            Err(e) => decoded matches Err(f) && f == e,
        },
{
    let bin_data = match unpack_bits(&data) {
        Ok(bits) => bits,
        Err(e) => {
            return Err(e);
        },
    };
    let ghost goal = decode_blocks(bin_data@, 3, Seq::empty());
    let mut start_block: usize = 3;
    let mut answer: Vec<u8> = Vec::new();
    loop
        invariant
            3 <= start_block <= bin_data.len(),
            goal == deflate_decoded(data@),
            decode_blocks(bin_data@, start_block as int, answer@) == goal,
        decreases bin_data.len() - start_block,
    {
        let local_data = slice_subrange(bin_data.as_slice(), start_block, bin_data.len());
        let (shift, is_end_block) = match deflate_block_decoding(&mut answer, local_data) {
            Ok(block) => block,
            Err(e) => {
                return Err(e);
            },
        };
        start_block += shift;
        if is_end_block {
            if start_block != bin_data.len() {
                return Err(DeflateError::Truncation);
            }
            return Ok(answer);
        }
    }
}

} // verus!
