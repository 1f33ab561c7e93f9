use vstd::prelude::*;

verus! {

/// Something that is ordered by an integer key.
pub trait SortKey {
    /// The key by which the value is ordered.
    spec fn sort_key(&self) -> int;

    /// Computes the key by which the value is ordered.
    fn compute_sort_key(&self) -> (key: i128)
        ensures
            key == self.sort_key(),
    ;
}

/// The index of the first element whose key is not less than `key`; the
/// length where there is none.
pub open spec fn lower_bound<A>(s: Seq<A>, key_of: spec_fn(A) -> int, key: int) -> int
    decreases s.len(),
{
    if s.len() == 0 {
        0
    } else if key_of(s[0]) >= key {
        0
    } else {
        1 + lower_bound(s.drop_first(), key_of, key)
    }
}

/// The sequence in ascending order of key, elements of equal key in the order
/// in which they stood.
pub open spec fn stable_sorted<A>(s: Seq<A>, key_of: spec_fn(A) -> int) -> Seq<A>
    decreases s.len(),
{
    if s.len() == 0 {
        s
    } else {
        let rest = stable_sorted(s.drop_first(), key_of);
        rest.insert(lower_bound(rest, key_of, key_of(s[0])), s[0])
    }
}

/// The sum of `f` over the elements.
pub open spec fn sum_by<A>(s: Seq<A>, f: spec_fn(A) -> int) -> int
    decreases s.len(),
{
    if s.len() == 0 {
        0
    } else {
        sum_by(s.drop_last(), f) + f(s.last())
    }
}

/// Before the lower bound every key is smaller, and at it none is.
pub proof fn lemma_lower_bound_range<A>(s: Seq<A>, key_of: spec_fn(A) -> int, key: int)
    ensures
        0 <= lower_bound(s, key_of, key) <= s.len(),
        forall|i: int| 0 <= i < lower_bound(s, key_of, key) ==> key_of(#[trigger] s[i]) < key,
        lower_bound(s, key_of, key) < s.len() ==> key_of(s[lower_bound(s, key_of, key)]) >= key,
    decreases s.len(),
{
    if s.len() > 0 && key_of(s[0]) < key {
        let t = s.drop_first();
        lemma_lower_bound_range(t, key_of, key);
        assert forall|i: int| 0 <= i < lower_bound(s, key_of, key) implies key_of(#[trigger] s[i])
            < key by {
            if i > 0 {
                assert(s[i] == t[i - 1]);
            }
        }
    }
}

/// One more element adds its term to the sum.
pub proof fn lemma_sum_by_push<A>(s: Seq<A>, x: A, f: spec_fn(A) -> int)
    ensures
        sum_by(s.push(x), f) == sum_by(s, f) + f(x),
{
    assert(s.push(x).drop_last() =~= s);
}

/// The sum over two sequences in a row is the sum of their sums.
pub proof fn lemma_sum_by_concat<A>(a: Seq<A>, b: Seq<A>, f: spec_fn(A) -> int)
    ensures
        sum_by(a + b, f) == sum_by(a, f) + sum_by(b, f),
    decreases b.len(),
{
    if b.len() == 0 {
        assert(a + b =~= a);
    } else {
        lemma_sum_by_concat(a, b.drop_last(), f);
        assert((a + b).drop_last() =~= a + b.drop_last());
    }
}

/// Inserting an element anywhere adds its term to the sum.
pub proof fn lemma_sum_by_insert<A>(s: Seq<A>, p: int, x: A, f: spec_fn(A) -> int)
    requires
        0 <= p <= s.len(),
    ensures
        sum_by(s.insert(p, x), f) == sum_by(s, f) + f(x),
{
    let a = s.subrange(0, p);
    let b = s.subrange(p, s.len() as int);
    assert(s =~= a + b);
    assert(s.insert(p, x) =~= a.push(x) + b);
    lemma_sum_by_concat(a, b, f);
    lemma_sum_by_concat(a.push(x), b, f);
    lemma_sum_by_push(a, x, f);
}

/// Where `f` is nowhere negative, no element weighs more than the sum, and no
/// two elements together do.
pub proof fn lemma_sum_by_bounds<A>(s: Seq<A>, f: spec_fn(A) -> int, j: int, k: int)
    requires
        forall|i: int| 0 <= i < s.len() ==> f(#[trigger] s[i]) >= 0,
        0 <= j < k < s.len(),
    ensures
        sum_by(s, f) >= 0,
        f(s[j]) + f(s[k]) <= sum_by(s, f),
    decreases s.len(),
{
    lemma_sum_by_nonnegative(s.drop_last(), f);
    if k == s.len() - 1 {
        lemma_sum_by_single(s.drop_last(), f, j);
    } else {
        lemma_sum_by_bounds(s.drop_last(), f, j, k);
    }
}

/// Terms that are nowhere negative have a sum that is not negative.
pub proof fn lemma_sum_by_nonnegative<A>(s: Seq<A>, f: spec_fn(A) -> int)
    requires
        forall|i: int| 0 <= i < s.len() ==> f(#[trigger] s[i]) >= 0,
    ensures
        sum_by(s, f) >= 0,
    decreases s.len(),
{
    if s.len() > 0 {
        lemma_sum_by_nonnegative(s.drop_last(), f);
    }
}

/// No term is larger than a sum of terms that are nowhere negative.
pub proof fn lemma_sum_by_single<A>(s: Seq<A>, f: spec_fn(A) -> int, j: int)
    requires
        forall|i: int| 0 <= i < s.len() ==> f(#[trigger] s[i]) >= 0,
        0 <= j < s.len(),
    ensures
        f(s[j]) <= sum_by(s, f),
    decreases s.len(),
{
    lemma_sum_by_nonnegative(s.drop_last(), f);
    if j < s.len() - 1 {
        lemma_sum_by_single(s.drop_last(), f, j);
    }
}

/// A prefix sums to no more than the whole where `f` is nowhere negative.
pub proof fn lemma_sum_by_prefix<A>(s: Seq<A>, f: spec_fn(A) -> int, k: int)
    requires
        forall|i: int| 0 <= i < s.len() ==> f(#[trigger] s[i]) >= 0,
        0 <= k <= s.len(),
    ensures
        0 <= sum_by(s.subrange(0, k), f) <= sum_by(s, f),
{
    let a = s.subrange(0, k);
    let b = s.subrange(k, s.len() as int);
    assert(s =~= a + b);
    lemma_sum_by_concat(a, b, f);
    lemma_sum_by_nonnegative(a, f);
    lemma_sum_by_nonnegative(b, f);
}

/// Sorting keeps the length, every sum, and every property that holds of all
/// elements; and what comes out is in ascending order of key.
pub proof fn lemma_stable_sorted<A>(s: Seq<A>, key_of: spec_fn(A) -> int)
    ensures
        stable_sorted(s, key_of).len() == s.len(),
        forall|f: spec_fn(A) -> int| #[trigger] sum_by(stable_sorted(s, key_of), f) == sum_by(s, f),
        forall|i: int|
            0 <= i < s.len() ==> s.contains(#[trigger] stable_sorted(s, key_of)[i]),
        forall|i: int, j: int|
            0 <= i <= j < s.len() ==> key_of(#[trigger] stable_sorted(s, key_of)[i]) <= key_of(
                #[trigger] stable_sorted(s, key_of)[j],
            ),
    decreases s.len(),
{
    if s.len() > 0 {
        let t = s.drop_first();
        let rest = stable_sorted(t, key_of);
        lemma_stable_sorted(t, key_of);
        let p = lower_bound(rest, key_of, key_of(s[0]));
        lemma_lower_bound_range(rest, key_of, key_of(s[0]));
        let out = rest.insert(p, s[0]);
        assert(out == stable_sorted(s, key_of));
        assert forall|f: spec_fn(A) -> int| #[trigger] sum_by(out, f) == sum_by(s, f) by {
            lemma_sum_by_insert(rest, p, s[0], f);
            assert(sum_by(rest, f) == sum_by(t, f));
            assert(s =~= seq![s[0]] + t);
            lemma_sum_by_concat(seq![s[0]], t, f);
            lemma_sum_by_push(Seq::<A>::empty(), s[0], f);
            assert(Seq::<A>::empty().push(s[0]) =~= seq![s[0]]);
        }
        assert forall|i: int| 0 <= i < s.len() implies s.contains(#[trigger] out[i]) by {
            if i < p {
                assert(out[i] == rest[i]);
                assert(t.contains(rest[i]));
                let w = choose|w: int| 0 <= w < t.len() && t[w] == rest[i];
                assert(s[w + 1] == rest[i]);
            } else if i == p {
                assert(out[i] == s[0]);
            } else {
                assert(out[i] == rest[i - 1]);
                assert(t.contains(rest[i - 1]));
                let w = choose|w: int| 0 <= w < t.len() && t[w] == rest[i - 1];
                assert(s[w + 1] == rest[i - 1]);
            }
        }
        assert forall|i: int, j: int| 0 <= i <= j < s.len() implies key_of(#[trigger] out[i])
            <= key_of(#[trigger] out[j]) by {
            let ri = if i < p { i } else { i - 1 };
            let rj = if j < p { j } else { j - 1 };
            if i != p && j != p {
                assert(out[i] == rest[ri]);
                assert(out[j] == rest[rj]);
            } else if i == p && j != p {
                assert(out[j] == rest[rj]);
                assert(key_of(rest[p]) <= key_of(rest[rj]));
            } else if i != p && j == p {
                assert(out[i] == rest[ri]);
            }
        }
    }
}

/// Sorting two sequences whose keys agree position by position moves their
/// elements alike: whatever relates them pairwise still does afterwards.
pub proof fn lemma_stable_sorted_alike<A, B>(
    a: Seq<A>,
    key_a: spec_fn(A) -> int,
    b: Seq<B>,
    key_b: spec_fn(B) -> int,
    related: spec_fn(A, B) -> bool,
)
    requires
        a.len() == b.len(),
        forall|i: int| 0 <= i < a.len() ==> #[trigger] related(a[i], b[i]),
        forall|x: A, y: B| #[trigger] related(x, y) ==> key_a(x) == key_b(y),
    ensures
        stable_sorted(a, key_a).len() == stable_sorted(b, key_b).len(),
        forall|i: int|
            0 <= i < a.len() ==> #[trigger] related(
                stable_sorted(a, key_a)[i],
                stable_sorted(b, key_b)[i],
            ),
    decreases a.len(),
{
    if a.len() > 0 {
        let ta = a.drop_first();
        let tb = b.drop_first();
        assert forall|i: int| 0 <= i < ta.len() implies #[trigger] related(ta[i], tb[i]) by {
            assert(related(a[i + 1], b[i + 1]));
        }
        lemma_stable_sorted_alike(ta, key_a, tb, key_b, related);
        lemma_stable_sorted(ta, key_a);
        lemma_stable_sorted(tb, key_b);
        let ra = stable_sorted(ta, key_a);
        let rb = stable_sorted(tb, key_b);
        assert(related(a[0], b[0]));
        lemma_lower_bound_alike(ra, key_a, rb, key_b, related, key_a(a[0]));
        let p = lower_bound(ra, key_a, key_a(a[0]));
        lemma_lower_bound_range(ra, key_a, key_a(a[0]));
        assert forall|i: int| 0 <= i < a.len() implies #[trigger] related(
            stable_sorted(a, key_a)[i],
            stable_sorted(b, key_b)[i],
        ) by {
            if i < p {
                assert(related(ra[i], rb[i]));
            } else if i > p {
                assert(related(ra[i - 1], rb[i - 1]));
            }
        }
    }
}

/// Sequences whose keys agree position by position have the same lower bounds.
proof fn lemma_lower_bound_alike<A, B>(
    a: Seq<A>,
    key_a: spec_fn(A) -> int,
    b: Seq<B>,
    key_b: spec_fn(B) -> int,
    related: spec_fn(A, B) -> bool,
    key: int,
)
    requires
        a.len() == b.len(),
        forall|i: int| 0 <= i < a.len() ==> #[trigger] related(a[i], b[i]),
        forall|x: A, y: B| #[trigger] related(x, y) ==> key_a(x) == key_b(y),
    ensures
        lower_bound(a, key_a, key) == lower_bound(b, key_b, key),
    decreases a.len(),
{
    if a.len() > 0 {
        assert(related(a[0], b[0]));
        let ta = a.drop_first();
        let tb = b.drop_first();
        assert forall|i: int| 0 <= i < ta.len() implies #[trigger] related(ta[i], tb[i]) by {
            assert(related(a[i + 1], b[i + 1]));
        }
        lemma_lower_bound_alike(ta, key_a, tb, key_b, related, key);
    }
}

/// Sorts in ascending order of key; elements of equal key keep their order.
pub fn stable_sort<A: SortKey>(items: &mut Vec<A>)
    ensures
        final(items)@ == stable_sorted(old(items)@, |a: A| a.sort_key()),
{
    let ghost key_of = |a: A| a.sort_key();
    let ghost all = items@;
    let mut sorted: Vec<A> = Vec::new();
    while items.len() > 0
        invariant
            items@.len() <= all.len(),
            items@ == all.subrange(0, items@.len() as int),
            sorted@ == stable_sorted(all.subrange(items@.len() as int, all.len() as int), key_of),
            key_of == (|a: A| a.sort_key()),
        decreases items@.len(),
    {
        let ghost before = items@.len() as int;
        let item = items.pop().unwrap();
        let key = item.compute_sort_key();
        let mut place: usize = 0;
        proof {
            lemma_stable_sorted(all.subrange(before, all.len() as int), key_of);
            assert(sorted@.subrange(0, sorted@.len() as int) =~= sorted@);
        }
        while place < sorted.len() && sorted[place].compute_sort_key() < key
            invariant
                place <= sorted.len(),
                key == key_of(item),
                key_of == (|a: A| a.sort_key()),
                lower_bound(sorted@, key_of, key as int) == place + lower_bound(
                    sorted@.subrange(place as int, sorted@.len() as int),
                    key_of,
                    key as int,
                ),
            decreases sorted.len() - place,
        {
            proof {
                let tail = sorted@.subrange(place as int, sorted@.len() as int);
                assert(tail[0] == sorted@[place as int]);
                assert(tail.drop_first() =~= sorted@.subrange(place + 1, sorted@.len() as int));
            }
            place += 1;
        }
        proof {
            let tail = sorted@.subrange(place as int, sorted@.len() as int);
            if place < sorted.len() {
                assert(tail[0] == sorted@[place as int]);
            }
            assert(lower_bound(tail, key_of, key as int) == 0);
            let now = all.subrange(before - 1, all.len() as int);
            assert(now[0] == item);
            assert(now.drop_first() =~= all.subrange(before, all.len() as int));
            assert(items@ =~= all.subrange(0, before - 1));
        }
        sorted.insert(place, item);
    }
    proof {
        assert(all.subrange(0, all.len() as int) =~= all);
    }
    *items = sorted;
}

} // verus!
