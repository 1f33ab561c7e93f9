use vstd::prelude::*;
use std::collections::HashMap;

verus! {

broadcast use vstd::std_specs::hash::group_hash_axioms;

/// How far back a reference may reach.
pub const MAX_SHIFT: u16 = 32768;

/// The longest run that one reference may copy.
pub const MAX_COINCIDENCE_SIZE: u16 = 258;

/// The shortest run that is worth a reference.
pub const MIN_COINCIDENCE_SIZE: u16 = 3;

/// A back-reference: copy `count` bytes starting `offset` bytes back.
#[derive(Debug, Clone, Copy, PartialEq, Eq, Structural)]
pub struct Lz77ReferenceElement {
    pub offset: u16,
    pub count: u16,
}

/// One step of the matcher's output.
#[derive(Debug, Clone, Copy, PartialEq, Eq, Structural)]
pub enum Lz77Element {
    SimpleValue(u8),
    ReferenceValue(Lz77ReferenceElement),
}

impl Lz77Element {
    /// A reference is well formed when its distance is within the window and
    /// its length within the limits of a match; a literal always is.
    pub open spec fn well_formed(self) -> bool {
        match self {
            Lz77Element::SimpleValue(_) => true,
            Lz77Element::ReferenceValue(r) => 1 <= r.offset <= MAX_SHIFT && MIN_COINCIDENCE_SIZE
                <= r.count <= MAX_COINCIDENCE_SIZE,
        }
    }

    /// The number of bytes that the element stands for.
    pub open spec fn span(self) -> nat {
        match self {
            Lz77Element::SimpleValue(_) => 1,
            Lz77Element::ReferenceValue(r) => r.count as nat,
        }
    }
}

/// How many earlier positions of one key the matcher looks at.
pub const CHAIN_LIMIT: usize = 10;

/// The three bytes at `p` as one number.
pub open spec fn key_at(data: Seq<u8>, p: int) -> int {
    data[p] * 65536 + data[p + 1] * 256 + data[p + 2]
}

/// How far the bytes at `p` and at `i` agree, given that they agree on the
/// first `l`: at most `MAX_COINCIDENCE_SIZE`, and not beyond the end.
pub open spec fn extend_match(data: Seq<u8>, p: int, i: int, l: int) -> int
    decreases data.len() - i - l,
{
    if l < MAX_COINCIDENCE_SIZE && i + l < data.len() && data[p + l] == data[i + l] {
        extend_match(data, p, i, l + 1)
    } else {
        l
    }
}

/// The length of the match between the bytes at `p` and those at `i`, where
/// both begin with the same three bytes.
pub open spec fn match_length(data: Seq<u8>, p: int, i: int) -> int {
    extend_match(data, p, i, MIN_COINCIDENCE_SIZE as int)
}

/// Those of the positions `starts` at which `key` begins, in their order.
pub open spec fn history(data: Seq<u8>, starts: Seq<usize>, key: int) -> Seq<usize>
    decreases starts.len(),
{
    if starts.len() == 0 {
        Seq::empty()
    } else {
        let earlier = history(data, starts.drop_last(), key);
        let p = starts.last();
        if p + 3 <= data.len() && key_at(data, p as int) == key {
            earlier.push(p)
        } else {
            earlier
        }
    }
}

/// The last `count` elements, or all where there are fewer.
pub open spec fn newest(positions: Seq<usize>, count: int) -> Seq<usize> {
    if positions.len() <= count {
        positions
    } else {
        positions.subrange(positions.len() - count, positions.len() as int)
    }
}

/// The candidate `p` is within the window of `i`.
pub open spec fn in_window(p: int, i: int) -> bool {
    i - p <= MAX_SHIFT
}

/// The index of the candidate that the matcher picks among `cands[j..]`, or
/// `-1` where none is in the window: the longest match wins, and of several
/// longest ones the newest, which is the last.
pub open spec fn best_in(data: Seq<u8>, cands: Seq<usize>, i: int, j: int) -> int
    decreases cands.len() - j,
{
    if j >= cands.len() || j < 0 {
        -1
    } else {
        let newer = best_in(data, cands, i, j + 1);
        if in_window(cands[j] as int, i) && (newer == -1 || match_length(data, cands[j] as int, i)
            > match_length(data, cands[newer] as int, i)) {
            j
        } else {
            newer
        }
    }
}

/// The element that the matcher emits at position `i`, after elements that
/// began at the positions `starts`.
pub open spec fn lz77_step(data: Seq<u8>, starts: Seq<usize>, i: int) -> Lz77Element {
    if i + MIN_COINCIDENCE_SIZE > data.len() {
        Lz77Element::SimpleValue(data[i])
    } else {
        let cands = newest(history(data, starts, key_at(data, i)), CHAIN_LIMIT as int);
        let best = best_in(data, cands, i, 0);
        if best < 0 {
            Lz77Element::SimpleValue(data[i])
        } else {
            Lz77Element::ReferenceValue(
                Lz77ReferenceElement {
                    offset: (i - cands[best]) as u16,
                    count: match_length(data, cands[best] as int, i) as u16,
                },
            )
        }
    }
}

/// What the matcher emits from position `i` to the end.
pub open spec fn lz77_from(data: Seq<u8>, starts: Seq<usize>, i: int) -> Seq<Lz77Element>
    decreases data.len() - i,
{
    if i >= data.len() || i < 0 {
        Seq::empty()
    } else {
        let element = lz77_step(data, starts, i);
        if element.span() == 0 || i + element.span() > data.len() {
            seq![element]
        } else {
            seq![element] + lz77_from(data, starts.push(i as usize), i + element.span())
        }
    }
}

/// The matcher's output for `data`.
pub open spec fn lz77_parse(data: Seq<u8>) -> Seq<Lz77Element> {
    lz77_from(data, Seq::empty(), 0)
}

/// The output after `count` more bytes were copied from `distance` back,
/// one by one, so that a copy may run into what it has just written.
pub open spec fn copy_back(out: Seq<u8>, distance: int, count: int) -> Seq<u8>
    decreases count,
{
    if count <= 0 {
        out
    } else {
        copy_back(out.push(out[out.len() - distance]), distance, count - 1)
    }
}

/// The output after one element was carried out.
pub open spec fn apply_element(out: Seq<u8>, element: Lz77Element) -> Seq<u8> {
    match element {
        Lz77Element::SimpleValue(v) => out.push(v),
        Lz77Element::ReferenceValue(r) => copy_back(out, r.offset as int, r.count as int),
    }
}

/// The output after the elements were carried out in turn.
pub open spec fn lz77_expand(out: Seq<u8>, elements: Seq<Lz77Element>) -> Seq<u8>
    decreases elements.len(),
{
    if elements.len() == 0 {
        out
    } else {
        lz77_expand(apply_element(out, elements[0]), elements.drop_first())
    }
}

/// The bytes `k` places after `p` and after `i` are the same.
pub open spec fn same_byte(data: Seq<u8>, p: int, i: int, k: int) -> bool {
    data[p + k] == data[i + k]
}

/// A match lies within the data, is no longer than the limit, and agrees byte
/// for byte.
pub proof fn lemma_extend_match(data: Seq<u8>, p: int, i: int, l: int)
    requires
        0 <= p < i,
        0 <= l <= MAX_COINCIDENCE_SIZE,
        i + l <= data.len(),
        forall|k: int| 0 <= k < l ==> #[trigger] same_byte(data, p, i, k),
    ensures
        l <= extend_match(data, p, i, l) <= MAX_COINCIDENCE_SIZE,
        i + extend_match(data, p, i, l) <= data.len(),
        forall|k: int| 0 <= k < extend_match(data, p, i, l) ==> #[trigger] same_byte(data, p, i, k),
    decreases data.len() - i - l,
{
    if l < MAX_COINCIDENCE_SIZE && i + l < data.len() && data[p + l] == data[i + l] {
        assert forall|k: int| 0 <= k < l + 1 implies #[trigger] same_byte(data, p, i, k) by {
            if k == l {
            } else {
                assert(same_byte(data, p, i, k));
            }
        }
        lemma_extend_match(data, p, i, l + 1);
    }
}

/// A position of the history lies before `bound` where all starts do, has
/// three bytes after it, and begins with the key.
pub open spec fn keyed_position(data: Seq<u8>, p: usize, key: int, bound: int) -> bool {
    p < bound && p + 3 <= data.len() && key_at(data, p as int) == key
}

/// Every position of a history is a start before the bound at which the key
/// begins.
pub proof fn lemma_history(data: Seq<u8>, starts: Seq<usize>, key: int, bound: int)
    requires
        forall|k: int| 0 <= k < starts.len() ==> #[trigger] starts[k] < bound,
    ensures
        forall|k: int|
            0 <= k < history(data, starts, key).len() ==> keyed_position(
                data,
                #[trigger] history(data, starts, key)[k],
                key,
                bound,
            ),
    decreases starts.len(),
{
    if starts.len() > 0 {
        let front = starts.drop_last();
        assert forall|k: int| 0 <= k < front.len() implies #[trigger] front[k] < bound by {
            assert(front[k] == starts[k]);
        }
        lemma_history(data, front, key, bound);
        assert(starts.last() == starts[starts.len() - 1]);
        let earlier = history(data, front, key);
        let all = history(data, starts, key);
        assert forall|k: int| 0 <= k < all.len() implies keyed_position(
            data,
            #[trigger] all[k],
            key,
            bound,
        ) by {
            if k < earlier.len() {
                assert(all[k] == earlier[k]);
            }
        }
    }
}

/// The candidate that is picked is in the window; no candidate in the window
/// matches longer, and none after it as long.
pub proof fn lemma_best_in(data: Seq<u8>, cands: Seq<usize>, i: int, j: int)
    requires
        0 <= j <= cands.len(),
    ensures
        -1 <= best_in(data, cands, i, j) < cands.len(),
        best_in(data, cands, i, j) >= 0 ==> j <= best_in(data, cands, i, j) && in_window(
            cands[best_in(data, cands, i, j)] as int,
            i,
        ),
        forall|k: int|
            j <= k < cands.len() && in_window(#[trigger] cands[k] as int, i) ==> {
                let best = best_in(data, cands, i, j);
                &&& best >= 0
                &&& match_length(data, cands[k] as int, i) <= match_length(
                    data,
                    cands[best] as int,
                    i,
                )
                &&& k > best ==> match_length(data, cands[k] as int, i) < match_length(
                    data,
                    cands[best] as int,
                    i,
                )
            },
    decreases cands.len() - j,
{
    if j < cands.len() {
        lemma_best_in(data, cands, i, j + 1);
    }
}

/// Copying a match that lies in the data extends a prefix of the data to a
/// longer prefix.
pub proof fn lemma_copy_back_match(data: Seq<u8>, p: int, i: int, count: int)
    requires
        0 <= p < i,
        0 <= count,
        i + count <= data.len(),
        forall|k: int| 0 <= k < count ==> #[trigger] same_byte(data, p, i, k),
    ensures
        copy_back(data.subrange(0, i), i - p, count) == data.subrange(0, i + count),
    decreases count,
{
    if count > 0 {
        let out = data.subrange(0, i);
        assert(out[out.len() - (i - p)] == data[p]);
        assert(same_byte(data, p, i, 0));
        assert(out.push(data[p]) =~= data.subrange(0, i + 1));
        assert forall|k: int| 0 <= k < count - 1 implies #[trigger] same_byte(
            data,
            p + 1,
            i + 1,
            k,
        ) by {
            assert(same_byte(data, p, i, k + 1));
        }
        lemma_copy_back_match(data, p + 1, i + 1, count - 1);
    } else {
        assert(data.subrange(0, i + count) =~= data.subrange(0, i));
    }
}

/// What the matcher emits at a position: a well-formed element that covers
/// at least one byte, stays within the data, and carries the data on.
pub proof fn lemma_lz77_step(data: Seq<u8>, starts: Seq<usize>, i: int)
    requires
        0 <= i < data.len(),
        forall|k: int| 0 <= k < starts.len() ==> #[trigger] starts[k] < i,
    ensures
        lz77_step(data, starts, i).well_formed(),
        1 <= lz77_step(data, starts, i).span(),
        i + lz77_step(data, starts, i).span() <= data.len(),
        apply_element(data.subrange(0, i), lz77_step(data, starts, i)) == data.subrange(
            0,
            i + lz77_step(data, starts, i).span(),
        ),
{
    let element = lz77_step(data, starts, i);
    if i + MIN_COINCIDENCE_SIZE <= data.len() {
        let key = key_at(data, i);
        let full = history(data, starts, key);
        let cands = newest(full, CHAIN_LIMIT as int);
        let best = best_in(data, cands, i, 0);
        lemma_best_in(data, cands, i, 0);
        if best >= 0 {
            lemma_history(data, starts, key, i);
            let p = cands[best] as int;
            if full.len() > CHAIN_LIMIT {
                assert(cands[best] == full[full.len() - CHAIN_LIMIT + best]);
            }
            if full.len() <= CHAIN_LIMIT {
                assert(cands[best] == full[best]);
            }
            assert(keyed_position(data, cands[best], key, i));
            assert(p < i && p + 3 <= data.len() && key_at(data, p) == key);
            assert(data[p] == data[i] && data[p + 1] == data[i + 1] && data[p + 2] == data[i + 2]);
            assert forall|k: int| 0 <= k < 3 implies #[trigger] same_byte(data, p, i, k) by {
                if k == 0 {
                } else if k == 1 {
                } else {
                    assert(k == 2);
                }
            }
            lemma_extend_match(data, p, i, 3);
            lemma_copy_back_match(data, p, i, match_length(data, p, i));
        } else {
            assert(data.subrange(0, i).push(data[i]) =~= data.subrange(0, i + 1));
        }
    } else {
        assert(data.subrange(0, i).push(data[i]) =~= data.subrange(0, i + 1));
    }
}

/// Carrying out what the matcher emits from a position on completes the data
/// from the bytes before that position.
pub proof fn lemma_lz77_from_expands(data: Seq<u8>, starts: Seq<usize>, i: int)
    requires
        0 <= i <= data.len(),
        forall|k: int| 0 <= k < starts.len() ==> #[trigger] starts[k] < i,
    ensures
        lz77_expand(data.subrange(0, i), lz77_from(data, starts, i)) == data,
        forall|k: int|
            0 <= k < lz77_from(data, starts, i).len() ==> (#[trigger] lz77_from(
                data,
                starts,
                i,
            )[k]).well_formed(),
    decreases data.len() - i,
{
    if i >= data.len() {
        assert(data.subrange(0, i) =~= data);
    } else {
        lemma_lz77_step(data, starts, i);
        let element = lz77_step(data, starts, i);
        let next = starts.push(i as usize);
        let rest = lz77_from(data, next, i + element.span());
        assert forall|k: int| 0 <= k < next.len() implies #[trigger] next[k] < i + element.span() by {
            if k < starts.len() {
                assert(next[k] == starts[k]);
            }
        }
        lemma_lz77_from_expands(data, next, i + element.span());
        let all = seq![element] + rest;
        assert(all[0] == element);
        assert(all.drop_first() =~= rest);
        assert forall|k: int| 0 <= k < all.len() implies (#[trigger] all[k]).well_formed() by {
            if k > 0 {
                assert(all[k] == rest[k - 1]);
            }
        }
    }
}

/// Carrying out the matcher's output gives the data back, and every element
/// of the output is well formed.
pub proof fn lemma_lz77_round_trip(data: Seq<u8>)
    ensures
        lz77_expand(Seq::empty(), lz77_parse(data)) == data,
        forall|k: int|
            0 <= k < lz77_parse(data).len() ==> (#[trigger] lz77_parse(data)[k]).well_formed(),
{
    lemma_lz77_from_expands(data, Seq::empty(), 0);
    assert(data.subrange(0, 0) =~= Seq::<u8>::empty());
}

/// What the table of positions holds under `key`: the newest eleven of the
/// key's history, or nothing where the key has not occurred.
pub open spec fn stored_ok(
    data: Seq<u8>,
    starts: Seq<usize>,
    table: Map<u32, Vec<usize>>,
    key: u32,
) -> bool {
    let past = history(data, starts, key as int);
    if table.contains_key(key) {
        table[key]@ == newest(past, CHAIN_LIMIT + 1)
    } else {
        past.len() == 0
    }
}

/// The length of the match between the bytes at `p` and those at `i`.
fn measure_match(data: &Vec<u8>, p: usize, i: usize) -> (size: u16)
    requires
        p < i,
        i + 3 <= data.len(),
    ensures
        size == match_length(data@, p as int, i as int),
        3 <= size <= MAX_COINCIDENCE_SIZE,
        i + size <= data.len(),
{
    let mut size: u16 = MIN_COINCIDENCE_SIZE;
    while size < MAX_COINCIDENCE_SIZE && (size as usize) < data.len() - i && data[p + (
    size as usize)] == data[i + (size as usize)]
        invariant
            p < i,
            3 <= size <= MAX_COINCIDENCE_SIZE,
            i + size <= data.len(),
            match_length(data@, p as int, i as int) == extend_match(
                data@,
                p as int,
                i as int,
                size as int,
            ),
        decreases MAX_COINCIDENCE_SIZE - size,
    {
        size += 1;
    }
    size
}

/// The candidate that the matcher picks: the length of its match and its
/// position, or a length of zero where no candidate is in the window.
fn pick_match(data: &Vec<u8>, cands: &Vec<usize>, i: usize) -> (picked: (u16, usize))
    requires
        i + 3 <= data.len(),
        forall|k: int| 0 <= k < cands.len() ==> #[trigger] cands[k] < i,
    ensures
        best_in(data@, cands@, i as int, 0) < 0 ==> picked.0 == 0,
        best_in(data@, cands@, i as int, 0) >= 0 ==> picked.1 == cands[best_in(
            data@,
            cands@,
            i as int,
            0,
        )] && picked.0 == match_length(data@, picked.1 as int, i as int) && picked.0 >= 3,
{
    let mut max_slice: u16 = 0;
    let mut index_slice: usize = 0;
    let mut j: usize = cands.len();
    while j > 0
        invariant
            j <= cands.len(),
            i + 3 <= data.len(),
            forall|k: int| 0 <= k < cands.len() ==> #[trigger] cands[k] < i,
            best_in(data@, cands@, i as int, j as int) < 0 ==> max_slice == 0,
            best_in(data@, cands@, i as int, j as int) >= 0 ==> index_slice == cands[best_in(
                data@,
                cands@,
                i as int,
                j as int,
            )] && max_slice == match_length(data@, index_slice as int, i as int) && max_slice >= 3,
        decreases j,
    {
        j -= 1;
        let p: usize = cands[j];
        proof {
            lemma_best_in(data@, cands@, i as int, j + 1);
        }
        if i - p <= MAX_SHIFT as usize {
            let size = measure_match(data, p, i);
            if size > max_slice {
                max_slice = size;
                index_slice = p;
            }
        }
    }
    (max_slice, index_slice)
}

/// Parses the data into literals and back-references: at every position the
/// longest match among the ten newest earlier positions that begin with the
/// same three bytes and lie within the window, the newest of several longest
/// ones; a literal where there is none, and for the last two bytes. Carrying
/// out the elements gives the data back.
pub fn encoding_lz77(data: &Vec<u8>) -> (elements: Vec<Lz77Element>)
    ensures
        elements@ == lz77_parse(data@),
        lz77_expand(Seq::empty(), elements@) == data@,
        forall|k: int| 0 <= k < elements.len() ==> (#[trigger] elements[k]).well_formed(),
{
    let mut answer: Vec<Lz77Element> = Vec::new();
    let mut lib: HashMap<u32, Vec<usize>> = HashMap::new();
    let ghost mut starts: Seq<usize> = Seq::empty();
    let mut i: usize = 0;
    assert(answer@ + lz77_from(data@, starts, 0) =~= lz77_parse(data@));
    while i < data.len()
        invariant
            i <= data.len(),
            answer@ + lz77_from(data@, starts, i as int) == lz77_parse(data@),
            forall|k: int| 0 <= k < starts.len() ==> #[trigger] starts[k] < i,
            forall|key: u32| #[trigger] stored_ok(data@, starts, lib@, key),
        decreases data.len() - i,
    {
        let ghost element = lz77_step(data@, starts, i as int);
        let ghost next = starts.push(i);
        proof {
            lemma_lz77_step(data@, starts, i as int);
            let rest = lz77_from(data@, next, i + element.span());
            assert(answer@ + (seq![element] + rest) =~= answer@.push(element) + rest);
            assert(next.drop_last() =~= starts);
        }
        if data.len() - i >= MIN_COINCIDENCE_SIZE as usize {
            let key: u32 = (data[i] as u32) * 65536 + (data[i + 1] as u32) * 256 + (data[i
                + 2] as u32);
            let ghost past = history(data@, starts, key as int);
            proof {
                assert(stored_ok(data@, starts, lib@, key));
                lemma_history(data@, starts, key as int, i as int);
            }
            let ghost table = lib@;
            let stored = lib.remove(&key);
            let mut list: Vec<usize> = match stored {
                Some(l) => l,
                None => Vec::new(),
            };
            assert(list@ =~= newest(past, CHAIN_LIMIT + 1));
            while list.len() > CHAIN_LIMIT
                invariant
                    list@ == newest(past, list.len() as int),
                    list.len() >= CHAIN_LIMIT || list.len() == past.len(),
                decreases list.len(),
            {
                list.remove(0);
                assert(list@ =~= newest(past, list.len() as int));
            }
            assert(list@ =~= newest(past, CHAIN_LIMIT as int));
            proof {
                assert forall|k: int| 0 <= k < list.len() implies #[trigger] list[k] < i by {
                    if past.len() > CHAIN_LIMIT {
                        assert(list[k] == past[past.len() - CHAIN_LIMIT + k]);
                    } else {
                        assert(list[k] == past[k]);
                    }
                    assert(keyed_position(data@, list[k], key as int, i as int));
                }
            }
            let (max_slice, index_slice) = pick_match(data, &list, i);
            proof {
                lemma_best_in(data@, list@, i as int, 0);
            }
            let step: usize;
            if max_slice != 0 {
                answer.push(
                    Lz77Element::ReferenceValue(
                        Lz77ReferenceElement {
                            offset: (i - index_slice) as u16,
                            count: max_slice,
                        },
                    ),
                );
                step = max_slice as usize;
            } else {
                answer.push(Lz77Element::SimpleValue(data[i]));
                step = 1;
            }
            list.push(i);
            lib.insert(key, list);
            proof {
                assert forall|other: u32| #[trigger] stored_ok(data@, next, lib@, other) by {
                    assert(stored_ok(data@, starts, table, other));
                    if other == key {
                        assert(history(data@, next, key as int) == past.push(i));
                        assert(newest(past, CHAIN_LIMIT as int).push(i) =~= newest(
                            past.push(i),
                            CHAIN_LIMIT + 1,
                        ));
                    } else {
                        assert(history(data@, next, other as int) == history(
                            data@,
                            starts,
                            other as int,
                        ));
                    }
                }
            }
            i += step;
        } else {
            answer.push(Lz77Element::SimpleValue(data[i]));
            proof {
                assert forall|other: u32| #[trigger] stored_ok(data@, next, lib@, other) by {
                    assert(stored_ok(data@, starts, lib@, other));
                    assert(history(data@, next, other as int) == history(
                        data@,
                        starts,
                        other as int,
                    ));
                }
            }
            i += 1;
        }
        proof {
            starts = next;
        }
    }
    proof {
        assert(answer@ + lz77_from(data@, starts, i as int) =~= answer@);
        lemma_lz77_round_trip(data@);
    }
    answer
}

} // verus!
