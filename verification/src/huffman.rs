use vstd::prelude::*;
use crate::bin_num::{lemma_pow2_monotone, lemma_pow2_positive, pow2};
use crate::canonical::kraft_sum;
use crate::error::DeflateError;
use crate::sorting::{
    lemma_stable_sorted, lemma_stable_sorted_alike, lemma_sum_by_bounds, lemma_sum_by_concat,
    lemma_sum_by_nonnegative, lemma_sum_by_prefix, lemma_sum_by_push, stable_sort, stable_sorted,
    sum_by, SortKey,
};

verus! {

/// A coin of the package-merge construction: a weight, and for every symbol
/// the deepest level at which the coin holds one of the symbol's leaves (zero
/// where it holds none).
#[derive(Debug)]
pub struct Coin {
    pub weight: i128,
    pub levels: Vec<i32>,
}

impl SortKey for Coin {
    open spec fn sort_key(&self) -> int {
        self.weight as int
    }

    fn compute_sort_key(&self) -> (key: i128) {
        self.weight
    }
}

/// The mathematical model of a coin. Beside what a `Coin` holds it records,
/// for every symbol, the Kraft measure of the symbol's leaves in the coin: the
/// sum of two to the power `limit - level` over those leaves.
pub struct CoinModel {
    pub weight: int,
    pub levels: Seq<int>,
    pub widths: Seq<int>,
}

/// The coin holds what the model says.
pub open spec fn coin_models(coin: Coin, model: CoinModel) -> bool {
    &&& coin.weight == model.weight
    &&& coin.levels@.len() == model.levels.len()
    &&& forall|k: int| 0 <= k < model.levels.len() ==> #[trigger] coin.levels@[k] == model.levels[k]
}

/// The coins hold what the models say, one by one.
pub open spec fn coins_model(coins: Seq<Coin>, models: Seq<CoinModel>) -> bool {
    &&& coins.len() == models.len()
    &&& forall|k: int| 0 <= k < coins.len() ==> coin_models(#[trigger] coins[k], models[k])
}

/// The larger of two integers.
pub open spec fn larger(a: int, b: int) -> int {
    if a >= b {
        a
    } else {
        b
    }
}

/// The coin of one leaf: symbol `symbol` at level `level`.
pub open spec fn fresh_coin(weights: Seq<int>, limit: int, level: int, symbol: int) -> CoinModel {
    CoinModel {
        weight: weights[symbol],
        levels: Seq::new(
            weights.len(),
            |k: int|
                if k == symbol {
                    level
                } else {
                    0
                },
        ),
        widths: Seq::new(
            weights.len(),
            |k: int|
                if k == symbol {
                    pow2((limit - level) as nat) as int
                } else {
                    0
                },
        ),
    }
}

/// One fresh coin for every symbol, in the order of the symbols.
pub open spec fn fresh_coins(weights: Seq<int>, limit: int, level: int) -> Seq<CoinModel> {
    Seq::new(weights.len(), |i: int| fresh_coin(weights, limit, level, i))
}

/// The package of two coins: the weights add up, and of each symbol the
/// deeper of the two levels stays.
pub open spec fn merged(a: CoinModel, b: CoinModel) -> CoinModel {
    CoinModel {
        weight: a.weight + b.weight,
        levels: Seq::new(a.levels.len(), |k: int| larger(a.levels[k], b.levels[k])),
        widths: Seq::new(a.widths.len(), |k: int| a.widths[k] + b.widths[k]),
    }
}

/// The packages of the first and second coin, the third and fourth, and so
/// on; an odd last coin is dropped.
pub open spec fn paired(coins: Seq<CoinModel>) -> Seq<CoinModel>
    decreases coins.len(),
{
    if coins.len() < 2 {
        Seq::empty()
    } else if coins.len() % 2 == 1 {
        paired(coins.drop_last())
    } else {
        paired(coins.subrange(0, coins.len() - 2)).push(
            merged(coins[coins.len() - 2], coins[coins.len() - 1]),
        )
    }
}

/// The weight of a coin.
pub open spec fn weight_of() -> spec_fn(CoinModel) -> int {
    |c: CoinModel| c.weight
}

/// The list of coins of a level: the packages of the level below it followed
/// by the level's fresh coins, in ascending order of weight (coins of equal
/// weight in that order). Levels run from `limit`, the deepest, up to one.
pub open spec fn coins_at(weights: Seq<int>, limit: int, level: int) -> Seq<CoinModel>
    decreases limit + 1 - level,
{
    if level > limit {
        Seq::empty()
    } else {
        stable_sorted(
            paired(coins_at(weights, limit, level + 1)) + fresh_coins(weights, limit, level),
            weight_of(),
        )
    }
}

/// The deepest level at which any of the coins holds a leaf of the symbol.
pub open spec fn deepest_level(coins: Seq<CoinModel>, symbol: int) -> int
    decreases coins.len(),
{
    if coins.len() == 0 {
        0
    } else {
        larger(deepest_level(coins.drop_last(), symbol), coins.last().levels[symbol])
    }
}

/// How many coins of the last list are taken: `max(n, 2n - 2)`.
pub open spec fn coins_taken(n: int) -> int {
    larger(n, 2 * n - 2)
}

/// The code lengths that package-merge gives to symbols of these weights when
/// no code may be longer than `limit`: for every symbol, the deepest level at
/// which one of the first `max(n, 2n - 2)` coins of the last list holds it.
pub open spec fn package_merge_lengths(weights: Seq<int>, limit: int) -> Seq<int> {
    let taken = coins_at(weights, limit, 1).subrange(0, coins_taken(weights.len() as int));
    Seq::new(weights.len(), |i: int| deepest_level(taken, i))
}

/// The sum of a sequence of integers.
pub open spec fn seq_sum(s: Seq<int>) -> int
    decreases s.len(),
{
    if s.len() == 0 {
        0
    } else {
        seq_sum(s.drop_last()) + s.last()
    }
}

/// The weights as mathematical integers.
pub open spec fn weights_of(weights: Seq<i32>) -> Seq<int> {
    Seq::new(weights.len(), |i: int| weights[i] as int)
}

/// The package of two coins.
pub fn merge_coins(c1: &Coin, c2: &Coin) -> (package: Coin)
    requires
        c1.levels.len() == c2.levels.len(),
        i128::MIN <= c1.weight + c2.weight <= i128::MAX,
    ensures
        package.weight == c1.weight + c2.weight,
        package.levels.len() == c1.levels.len(),
        forall|k: int|
            0 <= k < c1.levels.len() ==> #[trigger] package.levels[k] == larger(
                c1.levels[k] as int,
                c2.levels[k] as int,
            ),
{
    let mut levels: Vec<i32> = Vec::new();
    let mut k: usize = 0;
    while k < c1.levels.len()
        invariant
            k <= c1.levels.len(),
            c1.levels.len() == c2.levels.len(),
            levels.len() == k,
            forall|j: int|
                0 <= j < k ==> #[trigger] levels[j] == larger(
                    c1.levels[j] as int,
                    c2.levels[j] as int,
                ),
        decreases c1.levels.len() - k,
    {
        let a: i32 = c1.levels[k];
        let b: i32 = c2.levels[k];
        levels.push(if a >= b { a } else { b });
        k += 1;
    }
    Coin { weight: c1.weight + c2.weight, levels }
}

/// The Kraft measure that a coin holds of `symbol`, counted only where the
/// coin's deepest level for the symbol is at most `depth`.
pub open spec fn width_below(symbol: int, depth: int) -> spec_fn(CoinModel) -> int {
    |c: CoinModel|
        if 1 <= c.levels[symbol] <= depth {
            c.widths[symbol]
        } else {
            0
        }
}

/// What holds of every coin in the list of a level.
pub open spec fn coin_ok(c: CoinModel, n: int, level: int, limit: int) -> bool {
    &&& c.levels.len() == n
    &&& c.widths.len() == n
    &&& c.weight >= 1
    &&& forall|k: int| 0 <= k < n ==> #[trigger] c.levels[k] == 0 || level <= c.levels[k] <= limit
    &&& forall|k: int| 0 <= k < n ==> #[trigger] c.widths[k] >= 0
    &&& forall|k: int| 0 <= k < n ==> c.levels[k] == 0 ==> #[trigger] c.widths[k] == 0
    &&& seq_sum(c.widths) == pow2((limit - level) as nat)
}

/// What holds of the list of a level.
pub open spec fn list_ok(list: Seq<CoinModel>, weights: Seq<int>, limit: int, level: int) -> bool {
    let n = weights.len() as int;
    &&& forall|c: int| 0 <= c < list.len() ==> coin_ok(#[trigger] list[c], n, level, limit)
    &&& forall|i: int, t: int|
        0 <= i < n && level <= t <= limit ==> #[trigger] sum_by(list, width_below(i, t)) <= pow2(
            (limit - level + 1) as nat,
        ) - pow2((limit - t) as nat)
    &&& n <= list.len()
    &&& n >= 1 ==> list.len() <= 2 * n - 1
    &&& n >= 1 ==> (2 * n - 1 - list.len()) * pow2((limit - level) as nat) <= n - 1
    &&& n == 0 ==> list.len() == 0
    &&& sum_by(list, weight_of()) <= (limit - level + 1) * seq_sum(weights)
}

/// Adding two sequences element by element adds their sums.
proof fn lemma_seq_sum_pointwise(a: Seq<int>, b: Seq<int>)
    requires
        a.len() == b.len(),
    ensures
        seq_sum(Seq::new(a.len(), |k: int| a[k] + b[k])) == seq_sum(a) + seq_sum(b),
    decreases a.len(),
{
    let both = Seq::new(a.len(), |k: int| a[k] + b[k]);
    if a.len() > 0 {
        let a1 = a.drop_last();
        let b1 = b.drop_last();
        lemma_seq_sum_pointwise(a1, b1);
        assert(both.drop_last() =~= Seq::new(a1.len(), |k: int| a1[k] + b1[k]));
    }
}

/// A sequence with one element that is not zero sums to that element.
proof fn lemma_seq_sum_unit(s: Seq<int>, at: int, x: int)
    requires
        forall|k: int| 0 <= k < s.len() ==> #[trigger] s[k] == if k == at {
            x
        } else {
            0
        },
    ensures
        seq_sum(s) == if 0 <= at < s.len() {
            x
        } else {
            0
        },
    decreases s.len(),
{
    if s.len() > 0 {
        let front = s.drop_last();
        assert forall|k: int| 0 <= k < front.len() implies #[trigger] front[k] == if k == at {
            x
        } else {
            0
        } by {
            assert(front[k] == s[k]);
        }
        lemma_seq_sum_unit(front, at, x);
    }
}

/// Numbers that are nowhere negative have a sum that is not negative.
proof fn lemma_seq_sum_nonnegative(s: Seq<int>)
    requires
        forall|k: int| 0 <= k < s.len() ==> #[trigger] s[k] >= 0,
    ensures
        seq_sum(s) >= 0,
    decreases s.len(),
{
    if s.len() > 0 {
        lemma_seq_sum_nonnegative(s.drop_last());
    }
}

/// Packages of coins of the level below are coins of this level, and hold no
/// more of anything than the coins they were made of.
proof fn lemma_paired(list: Seq<CoinModel>, n: int, level: int, limit: int)
    requires
        1 <= level < limit,
        forall|c: int| 0 <= c < list.len() ==> coin_ok(#[trigger] list[c], n, level + 1, limit),
    ensures
        paired(list).len() == list.len() / 2,
        forall|c: int|
            0 <= c < paired(list).len() ==> coin_ok(#[trigger] paired(list)[c], n, level, limit),
        forall|c: int|
            0 <= c < paired(list).len() ==> #[trigger] paired(list)[c] == merged(
                list[2 * c],
                list[2 * c + 1],
            ),
        forall|i: int, t: int|
            0 <= i < n ==> #[trigger] sum_by(paired(list), width_below(i, t)) <= sum_by(
                list,
                width_below(i, t),
            ),
        sum_by(paired(list), weight_of()) <= sum_by(list, weight_of()),
    decreases list.len(),
{
    if list.len() < 2 {
        assert forall|i: int, t: int| 0 <= i < n implies #[trigger] sum_by(
            paired(list),
            width_below(i, t),
        ) <= sum_by(list, width_below(i, t)) by {
            lemma_width_below_nonnegative(list, n, level + 1, limit, i, t);
        }
        lemma_weights_nonnegative(list, n, level + 1, limit);
    } else if list.len() % 2 == 1 {
        let front = list.drop_last();
        lemma_paired(front, n, level, limit);
        assert forall|i: int, t: int| 0 <= i < n implies #[trigger] sum_by(
            paired(list),
            width_below(i, t),
        ) <= sum_by(list, width_below(i, t)) by {
            assert(sum_by(paired(front), width_below(i, t)) <= sum_by(front, width_below(i, t)));
            let last = list.last();
            assert(coin_ok(last, n, level + 1, limit));
            assert(last.widths[i] >= 0);
        }
        assert(coin_ok(list.last(), n, level + 1, limit));
    } else {
        let front = list.subrange(0, list.len() - 2);
        assert forall|c: int| 0 <= c < front.len() implies coin_ok(
            #[trigger] front[c],
            n,
            level + 1,
            limit,
        ) by {
            assert(front[c] == list[c]);
        }
        lemma_paired(front, n, level, limit);
        let a = list[list.len() - 2];
        let b = list[list.len() - 1];
        let m = merged(a, b);
        assert(coin_ok(a, n, level + 1, limit));
        assert(coin_ok(b, n, level + 1, limit));
        assert(coin_ok(m, n, level, limit)) by {
            lemma_seq_sum_pointwise(a.widths, b.widths);
            assert(pow2((limit - level) as nat) == 2 * pow2((limit - level - 1) as nat));
            assert forall|k: int| 0 <= k < n implies #[trigger] m.levels[k] == 0 || level
                <= m.levels[k] <= limit by {
                assert(a.levels[k] == 0 || level + 1 <= a.levels[k] <= limit);
                assert(b.levels[k] == 0 || level + 1 <= b.levels[k] <= limit);
            }
            assert forall|k: int| 0 <= k < n implies #[trigger] m.widths[k] >= 0 by {
                assert(a.widths[k] >= 0);
                assert(b.widths[k] >= 0);
            }
            assert forall|k: int| 0 <= k < n && m.levels[k] == 0 implies #[trigger] m.widths[k]
                == 0 by {
                assert(a.levels[k] == 0 || level + 1 <= a.levels[k] <= limit);
                assert(b.levels[k] == 0 || level + 1 <= b.levels[k] <= limit);
                assert(a.widths[k] == 0);
                assert(b.widths[k] == 0);
            }
        }
        let out = paired(list);
        assert(out == paired(front).push(m));
        assert forall|c: int| 0 <= c < out.len() implies coin_ok(#[trigger] out[c], n, level, limit)
            && out[c] == merged(list[2 * c], list[2 * c + 1]) by {
            if c < out.len() - 1 {
                assert(out[c] == paired(front)[c]);
                assert(front[2 * c] == list[2 * c]);
                assert(front[2 * c + 1] == list[2 * c + 1]);
            }
        }
        assert(list =~= front.push(a).push(b));
        assert forall|i: int, t: int| 0 <= i < n implies #[trigger] sum_by(out, width_below(i, t))
            <= sum_by(list, width_below(i, t)) by {
            let f = width_below(i, t);
            lemma_sum_by_push(paired(front), m, f);
            lemma_sum_by_push(front, a, f);
            lemma_sum_by_push(front.push(a), b, f);
            assert(sum_by(paired(front), f) <= sum_by(front, f));
            assert(a.levels[i] == 0 || level + 1 <= a.levels[i] <= limit);
            assert(b.levels[i] == 0 || level + 1 <= b.levels[i] <= limit);
            assert(a.widths[i] >= 0);
            assert(b.widths[i] >= 0);
            assert(a.levels[i] == 0 ==> a.widths[i] == 0);
            assert(b.levels[i] == 0 ==> b.widths[i] == 0);
            assert(f(m) <= f(a) + f(b));
        }
        lemma_sum_by_push(paired(front), m, weight_of());
        lemma_sum_by_push(front, a, weight_of());
        lemma_sum_by_push(front.push(a), b, weight_of());
    }
}

/// No coin holds a negative measure of a symbol.
proof fn lemma_width_below_nonnegative(
    list: Seq<CoinModel>,
    n: int,
    level: int,
    limit: int,
    i: int,
    t: int,
)
    requires
        forall|c: int| 0 <= c < list.len() ==> coin_ok(#[trigger] list[c], n, level, limit),
        0 <= i < n,
    ensures
        forall|c: int| 0 <= c < list.len() ==> width_below(i, t)(#[trigger] list[c]) >= 0,
        sum_by(list, width_below(i, t)) >= 0,
{
    assert forall|c: int| 0 <= c < list.len() implies width_below(i, t)(#[trigger] list[c])
        >= 0 by {
        assert(coin_ok(list[c], n, level, limit));
        assert(list[c].widths[i] >= 0);
    }
    lemma_sum_by_nonnegative(list, width_below(i, t));
}

/// No coin has a negative weight.
proof fn lemma_weights_nonnegative(list: Seq<CoinModel>, n: int, level: int, limit: int)
    requires
        forall|c: int| 0 <= c < list.len() ==> coin_ok(#[trigger] list[c], n, level, limit),
    ensures
        forall|c: int| 0 <= c < list.len() ==> weight_of()(#[trigger] list[c]) >= 0,
        sum_by(list, weight_of()) >= 0,
{
    assert forall|c: int| 0 <= c < list.len() implies weight_of()(#[trigger] list[c]) >= 0 by {
        assert(coin_ok(list[c], n, level, limit));
    }
    lemma_sum_by_nonnegative(list, weight_of());
}

/// Among the first fresh coins only that of the symbol holds any of it.
proof fn lemma_fresh_prefix(weights: Seq<int>, limit: int, level: int, i: int, t: int, k: int)
    requires
        1 <= level <= limit,
        0 <= i < weights.len(),
        level <= t,
        0 <= k <= weights.len(),
    ensures
        sum_by(fresh_coins(weights, limit, level).subrange(0, k), width_below(i, t)) == if k > i {
            pow2((limit - level) as nat) as int
        } else {
            0
        },
        sum_by(fresh_coins(weights, limit, level).subrange(0, k), weight_of()) == seq_sum(
            weights.subrange(0, k),
        ),
    decreases k,
{
    let fresh = fresh_coins(weights, limit, level);
    if k > 0 {
        lemma_fresh_prefix(weights, limit, level, i, t, k - 1);
        assert(fresh.subrange(0, k).drop_last() =~= fresh.subrange(0, k - 1));
        assert(weights.subrange(0, k).drop_last() =~= weights.subrange(0, k - 1));
        assert(fresh.subrange(0, k).last() == fresh_coin(weights, limit, level, k - 1));
    }
}

/// The fresh coins of a level are coins of that level; together they hold
/// one leaf of every symbol, and the weights of all symbols.
proof fn lemma_fresh(weights: Seq<int>, limit: int, level: int)
    requires
        1 <= level <= limit,
        forall|k: int| 0 <= k < weights.len() ==> #[trigger] weights[k] >= 1,
    ensures
        fresh_coins(weights, limit, level).len() == weights.len(),
        forall|c: int|
            0 <= c < weights.len() ==> coin_ok(
                #[trigger] fresh_coins(weights, limit, level)[c],
                weights.len() as int,
                level,
                limit,
            ),
        forall|i: int, t: int|
            0 <= i < weights.len() && level <= t ==> #[trigger] sum_by(
                fresh_coins(weights, limit, level),
                width_below(i, t),
            ) == pow2((limit - level) as nat),
        sum_by(fresh_coins(weights, limit, level), weight_of()) == seq_sum(weights),
{
    let fresh = fresh_coins(weights, limit, level);
    let n = weights.len();
    assert(fresh.subrange(0, n as int) =~= fresh);
    assert(weights.subrange(0, n as int) =~= weights);
    assert forall|c: int| 0 <= c < n implies coin_ok(#[trigger] fresh[c], n as int, level, limit) by {
        let x = pow2((limit - level) as nat) as int;
        lemma_pow2_positive((limit - level) as nat);
        let coin = fresh[c];
        assert(coin == fresh_coin(weights, limit, level, c));
        lemma_seq_sum_unit(coin.widths, c, x);
    }
    assert forall|i: int, t: int| 0 <= i < n && level <= t implies #[trigger] sum_by(
        fresh,
        width_below(i, t),
    ) == pow2((limit - level) as nat) by {
        lemma_fresh_prefix(weights, limit, level, i, t, n as int);
    }
    if n > 0 {
        lemma_fresh_prefix(weights, limit, level, 0, level, n as int);
    } else {
        assert(fresh =~= Seq::<CoinModel>::empty());
    }
}

/// The list of every level holds coins of that level; of no symbol does it
/// hold more Kraft measure, up to any depth, than the leaves of the symbol
/// between the level and that depth have; and it is long enough.
pub proof fn lemma_coins_at(weights: Seq<int>, limit: int, level: int)
    requires
        1 <= level <= limit,
        forall|k: int| 0 <= k < weights.len() ==> #[trigger] weights[k] >= 1,
    ensures
        list_ok(coins_at(weights, limit, level), weights, limit, level),
    decreases limit - level,
{
    let n = weights.len() as int;
    let below = coins_at(weights, limit, level + 1);
    let fresh = fresh_coins(weights, limit, level);
    let joined = paired(below) + fresh;
    let list = coins_at(weights, limit, level);
    assert(list == stable_sorted(joined, weight_of()));
    lemma_fresh(weights, limit, level);
    lemma_stable_sorted(joined, weight_of());
    lemma_seq_sum_nonnegative(weights);
    let here = pow2((limit - level) as nat) as int;
    lemma_pow2_positive((limit - level) as nat);
    assert(pow2((limit - level + 1) as nat) == 2 * here);
    if level == limit {
        assert(below =~= Seq::<CoinModel>::empty());
        assert(paired(below) =~= Seq::<CoinModel>::empty());
        assert(joined =~= fresh);
        assert forall|c: int| 0 <= c < list.len() implies coin_ok(
            #[trigger] list[c],
            n,
            level,
            limit,
        ) by {
            assert(joined.contains(list[c]));
        }
        assert forall|i: int, t: int| 0 <= i < n && level <= t <= limit implies #[trigger] sum_by(
            list,
            width_below(i, t),
        ) <= pow2((limit - level + 1) as nat) - pow2((limit - t) as nat) by {
            assert(sum_by(fresh, width_below(i, t)) == here);
        }
        assert(here == 1);
        assert(sum_by(list, weight_of()) == seq_sum(weights));
        assert(list.len() == n);
        let total = seq_sum(weights);
        assert((limit - level + 1) * total == total) by (nonlinear_arith)
            requires
                level == limit,
        ;
        assert((2 * n - 1 - list.len()) * here == n - 1) by (nonlinear_arith)
            requires
                here == 1,
                list.len() == n,
        ;
    } else {
        lemma_coins_at(weights, limit, level + 1);
        lemma_paired(below, n, level, limit);
        let packs = paired(below);
        let deeper = pow2((limit - level - 1) as nat) as int;
        assert(here == 2 * deeper);
        assert forall|c: int| 0 <= c < list.len() implies coin_ok(
            #[trigger] list[c],
            n,
            level,
            limit,
        ) by {
            assert(joined.contains(list[c]));
            let w = choose|w: int| 0 <= w < joined.len() && joined[w] == list[c];
            if w < packs.len() {
                assert(joined[w] == packs[w]);
            } else {
                assert(joined[w] == fresh[w - packs.len()]);
            }
        }
        assert forall|i: int, t: int| 0 <= i < n && level <= t <= limit implies #[trigger] sum_by(
            list,
            width_below(i, t),
        ) <= pow2((limit - level + 1) as nat) - pow2((limit - t) as nat) by {
            let f = width_below(i, t);
            assert(sum_by(list, f) == sum_by(joined, f));
            lemma_sum_by_concat(packs, fresh, f);
            assert(sum_by(fresh, f) == here);
            assert(sum_by(packs, f) <= sum_by(below, f));
            if t >= level + 1 {
                assert(sum_by(below, f) <= pow2((limit - level) as nat) - pow2((limit - t) as nat));
            } else {
                lemma_none_below(below, n, level + 1, limit, i, t);
            }
        }
        assert(sum_by(list, weight_of()) == sum_by(joined, weight_of()));
        lemma_sum_by_concat(packs, fresh, weight_of());
        let total = seq_sum(weights);
        assert((limit - level) * total + total == (limit - level + 1) * total)
            by (nonlinear_arith);
        assert(sum_by(below, weight_of()) <= (limit - level) * total);
        assert(sum_by(list, weight_of()) <= (limit - level + 1) * total);
        assert(list.len() == below.len() / 2 + n);
        if n >= 1 {
            let gap_below = 2 * n - 1 - below.len();
            let gap = 2 * n - 1 - list.len();
            assert(list.len() == below.len() / 2 + n);
            assert(2 * gap <= gap_below);
            assert(gap * here <= gap_below * deeper) by (nonlinear_arith)
                requires
                    here == 2 * deeper,
                    2 * gap <= gap_below,
                    deeper >= 0,
            ;
            assert(gap_below * deeper <= n - 1);
        }
    }
}

/// Above its own level a list holds nothing of any symbol.
proof fn lemma_none_below(list: Seq<CoinModel>, n: int, level: int, limit: int, i: int, t: int)
    requires
        forall|c: int| 0 <= c < list.len() ==> coin_ok(#[trigger] list[c], n, level, limit),
        0 <= i < n,
        t < level,
    ensures
        sum_by(list, width_below(i, t)) == 0,
    decreases list.len(),
{
    if list.len() > 0 {
        let front = list.drop_last();
        assert forall|c: int| 0 <= c < front.len() implies coin_ok(
            #[trigger] front[c],
            n,
            level,
            limit,
        ) by {
            assert(front[c] == list[c]);
        }
        lemma_none_below(front, n, level, limit, i, t);
        let last = list.last();
        assert(coin_ok(last, n, level, limit));
        assert(last.levels[i] == 0 || level <= last.levels[i] <= limit);
    }
}

/// The Kraft measure that a coin holds of `symbol`.
pub open spec fn width_of(symbol: int) -> spec_fn(CoinModel) -> int {
    |c: CoinModel| c.widths[symbol]
}

/// The Kraft measure that a coin holds of all symbols together.
pub open spec fn total_width() -> spec_fn(CoinModel) -> int {
    |c: CoinModel| seq_sum(c.widths)
}

/// For every symbol, the Kraft measure that the coins hold of it.
pub open spec fn columns(coins: Seq<CoinModel>, n: nat) -> Seq<int> {
    Seq::new(n, |i: int| sum_by(coins, width_of(i)))
}

/// Summing the measure by symbol or by coin gives the same.
proof fn lemma_columns(coins: Seq<CoinModel>, n: nat)
    requires
        forall|c: int| 0 <= c < coins.len() ==> (#[trigger] coins[c]).widths.len() == n,
    ensures
        seq_sum(columns(coins, n)) == sum_by(coins, total_width()),
    decreases coins.len(),
{
    if coins.len() == 0 {
        lemma_seq_sum_unit(columns(coins, n), -1, 0);
    } else {
        let front = coins.drop_last();
        lemma_columns(front, n);
        lemma_seq_sum_pointwise(columns(front, n), coins.last().widths);
        let a = columns(front, n);
        let b = coins.last().widths;
        assert(columns(coins, n) =~= Seq::new(a.len(), |k: int| a[k] + b[k]));
    }
}

/// The sum of a term that is the same for every element.
proof fn lemma_sum_by_constant<A>(s: Seq<A>, f: spec_fn(A) -> int, v: int)
    requires
        forall|c: int| 0 <= c < s.len() ==> f(#[trigger] s[c]) == v,
    ensures
        sum_by(s, f) == s.len() * v,
    decreases s.len(),
{
    if s.len() > 0 {
        lemma_sum_by_constant(s.drop_last(), f, v);
        assert((s.len() - 1) * v + v == s.len() * v) by (nonlinear_arith);
    } else {
        assert(0 * v == 0);
    }
}

/// Terms that agree on every element have the same sum.
proof fn lemma_sum_by_same<A>(s: Seq<A>, f: spec_fn(A) -> int, g: spec_fn(A) -> int)
    requires
        forall|c: int| 0 <= c < s.len() ==> f(#[trigger] s[c]) == g(s[c]),
    ensures
        sum_by(s, f) == sum_by(s, g),
    decreases s.len(),
{
    if s.len() > 0 {
        lemma_sum_by_same(s.drop_last(), f, g);
    }
}

/// The deepest level is zero or a level of the list, and no coin holds the
/// symbol deeper.
proof fn lemma_deepest_level(coins: Seq<CoinModel>, n: int, level: int, limit: int, i: int)
    requires
        1 <= level <= limit,
        forall|c: int| 0 <= c < coins.len() ==> coin_ok(#[trigger] coins[c], n, level, limit),
        0 <= i < n,
    ensures
        deepest_level(coins, i) == 0 || level <= deepest_level(coins, i) <= limit,
        forall|c: int| 0 <= c < coins.len() ==> (#[trigger] coins[c]).levels[i] <= deepest_level(
            coins,
            i,
        ),
    decreases coins.len(),
{
    if coins.len() > 0 {
        let front = coins.drop_last();
        assert forall|c: int| 0 <= c < front.len() implies coin_ok(
            #[trigger] front[c],
            n,
            level,
            limit,
        ) by {
            assert(front[c] == coins[c]);
        }
        lemma_deepest_level(front, n, level, limit, i);
        let last = coins.last();
        assert(coin_ok(last, n, level, limit));
        assert(last.levels[i] == 0 || level <= last.levels[i] <= limit);
        assert forall|c: int| 0 <= c < coins.len() implies (#[trigger] coins[c]).levels[i]
            <= deepest_level(coins, i) by {
            if c < front.len() {
                assert(front[c] == coins[c]);
            }
        }
    }
}

/// Where every symbol leaves room for its code, the measures and the Kraft sum
/// together fill no more than the whole of every symbol.
proof fn lemma_columns_kraft(cols: Seq<int>, lens: Seq<int>, limit: nat, whole: int)
    requires
        cols.len() == lens.len(),
        forall|i: int|
            0 <= i < cols.len() ==> #[trigger] cols[i] <= whole - pow2((limit - lens[i]) as nat),
    ensures
        seq_sum(cols) + kraft_sum(lens, limit) <= cols.len() * whole,
    decreases cols.len(),
{
    if cols.len() > 0 {
        let c1 = cols.drop_last();
        let l1 = lens.drop_last();
        assert forall|i: int| 0 <= i < c1.len() implies #[trigger] c1[i] <= whole - pow2(
            (limit - l1[i]) as nat,
        ) by {
            assert(c1[i] == cols[i]);
        }
        lemma_columns_kraft(c1, l1, limit, whole);
        assert(cols.last() == cols[cols.len() - 1]);
        assert((cols.len() - 1) * whole + whole == cols.len() * whole) by (nonlinear_arith);
    } else {
        assert(0 * whole == 0);
    }
}

/// Every length adds at least one to the Kraft sum.
proof fn lemma_kraft_sum_lower(lens: Seq<int>, limit: nat, i: int)
    requires
        0 <= i < lens.len(),
    ensures
        kraft_sum(lens, limit) >= pow2((limit - lens[i]) as nat) + lens.len() - 1,
        kraft_sum(lens, limit) >= lens.len(),
    decreases lens.len(),
{
    lemma_pow2_positive((limit - lens.last()) as nat);
    if lens.len() > 1 {
        let front = lens.drop_last();
        if i < lens.len() - 1 {
            lemma_kraft_sum_lower(front, limit, i);
        } else {
            lemma_kraft_sum_lower(front, limit, 0);
        }
    } else {
        assert(kraft_sum(lens.drop_last(), limit) == 0);
    }
}

/// Package-merge on weights that are all positive, with at most two to the
/// power `limit` symbols: enough coins are there to take, every symbol gets a
/// length between one and `limit`, and the lengths satisfy Kraft's inequality.
pub proof fn lemma_package_merge_lengths(weights: Seq<int>, limit: int)
    requires
        limit >= 1,
        forall|k: int| 0 <= k < weights.len() ==> #[trigger] weights[k] >= 1,
        weights.len() <= pow2(limit as nat),
    ensures
        coins_taken(weights.len() as int) <= coins_at(weights, limit, 1).len(),
        package_merge_lengths(weights, limit).len() == weights.len(),
        forall|i: int|
            0 <= i < weights.len() ==> 1 <= #[trigger] package_merge_lengths(weights, limit)[i]
                <= limit,
        kraft_sum(package_merge_lengths(weights, limit), limit as nat) <= pow2(limit as nat),
{
    let n = weights.len() as int;
    let list = coins_at(weights, limit, 1);
    lemma_coins_at(weights, limit, 1);
    let half = pow2((limit - 1) as nat) as int;
    let whole = pow2(limit as nat) as int;
    assert(whole == 2 * half);
    lemma_pow2_positive((limit - 1) as nat);
    let lens = package_merge_lengths(weights, limit);
    if n == 0 {
        assert(lens =~= Seq::<int>::empty());
    } else {
        let gap = 2 * n - 1 - list.len();
        assert(gap <= 1) by (nonlinear_arith)
            requires
                gap * half <= n - 1,
                n <= 2 * half,
                half >= 1,
        ;
        let k = coins_taken(n);
        let taken = list.subrange(0, k);
        assert forall|c: int| 0 <= c < taken.len() implies coin_ok(
            #[trigger] taken[c],
            n,
            1,
            limit,
        ) by {
            assert(taken[c] == list[c]);
        }
        let cols = columns(taken, n as nat);
        assert forall|i: int| 0 <= i < n implies #[trigger] cols[i] <= whole - pow2(
            (limit - lens[i]) as nat,
        ) && lens[i] <= limit && lens[i] >= 0 by {
            let d = deepest_level(taken, i);
            assert(lens[i] == d);
            lemma_deepest_level(taken, n, 1, limit, i);
            assert forall|c: int| 0 <= c < taken.len() implies width_of(i)(#[trigger] taken[c])
                == width_below(i, d)(taken[c]) by {
                assert(coin_ok(taken[c], n, 1, limit));
                assert(taken[c].levels[i] <= d);
                assert(taken[c].levels[i] == 0 || 1 <= taken[c].levels[i] <= limit);
                assert(taken[c].levels[i] == 0 ==> taken[c].widths[i] == 0);
            }
            lemma_sum_by_same(taken, width_of(i), width_below(i, d));
            lemma_width_below_nonnegative(list, n, 1, limit, i, d);
            lemma_sum_by_prefix(list, width_below(i, d), k);
            if d >= 1 {
                assert(sum_by(list, width_below(i, d)) <= pow2((limit - 1 + 1) as nat) - pow2(
                    (limit - d) as nat,
                ));
            } else {
                lemma_none_below(list, n, 1, limit, i, d);
            }
        }
        lemma_columns_kraft(cols, lens, limit as nat, whole);
        assert forall|c: int| 0 <= c < taken.len() implies (#[trigger] taken[c]).widths.len()
            == n by {
            assert(coin_ok(taken[c], n, 1, limit));
        }
        lemma_columns(taken, n as nat);
        assert forall|c: int| 0 <= c < taken.len() implies total_width()(#[trigger] taken[c])
            == half by {
            assert(coin_ok(taken[c], n, 1, limit));
        }
        lemma_sum_by_constant(taken, total_width(), half);
        assert(seq_sum(cols) == k * half);
        assert(k * half + kraft_sum(lens, limit as nat) <= n * whole);
        assert(n * whole == 2 * n * half) by (nonlinear_arith)
            requires
                whole == 2 * half,
        ;
        if n >= 2 {
            assert(k * half == 2 * n * half - whole) by (nonlinear_arith)
                requires
                    k == 2 * n - 2,
                    whole == 2 * half,
            ;
        } else {
            assert(k * half == half) by (nonlinear_arith)
                requires
                    k == 1,
            ;
            assert(2 * n * half == whole) by (nonlinear_arith)
                requires
                    n == 1,
                    whole == 2 * half,
            ;
        }
        assert forall|i: int| 0 <= i < n implies 1 <= #[trigger] lens[i] <= limit by {
            assert(lens[i] == deepest_level(taken, i));
            lemma_deepest_level(taken, n, 1, limit, i);
            if lens[i] == 0 {
                lemma_kraft_sum_lower(lens, limit as nat, i);
            }
        }
    }
}

/// The code lengths as mathematical integers.
pub open spec fn lengths_as_ints(lengths: Seq<i32>) -> Seq<int> {
    Seq::new(lengths.len(), |i: int| lengths[i] as int)
}

/// Positive numbers add up to at least their count.
proof fn lemma_seq_sum_at_least_len(s: Seq<int>)
    requires
        forall|k: int| 0 <= k < s.len() ==> #[trigger] s[k] >= 1,
    ensures
        seq_sum(s) >= s.len(),
    decreases s.len(),
{
    if s.len() > 0 {
        lemma_seq_sum_at_least_len(s.drop_last());
    }
}

/// Numbers that are nowhere above a bound add up to at most their count
/// times the bound.
proof fn lemma_seq_sum_at_most(s: Seq<int>, bound: int)
    requires
        forall|k: int| 0 <= k < s.len() ==> #[trigger] s[k] <= bound,
    ensures
        seq_sum(s) <= s.len() * bound,
    decreases s.len(),
{
    if s.len() > 0 {
        lemma_seq_sum_at_most(s.drop_last(), bound);
        assert((s.len() - 1) * bound + bound == s.len() * bound) by (nonlinear_arith);
    } else {
        assert(0 * bound == 0);
    }
}

/// No coin of any list weighs more than a 128-bit integer holds.
proof fn lemma_weights_fit(weights: Seq<i32>, limit: int, factor: int)
    requires
        0 <= factor <= limit <= i32::MAX,
        weights.len() <= usize::MAX,
        forall|k: int| 0 <= k < weights.len() ==> #[trigger] weights[k] >= 1,
    ensures
        0 <= factor * seq_sum(weights_of(weights)) <= i128::MAX,
{
    let w = weights_of(weights);
    let total = seq_sum(w);
    let n = weights.len() as int;
    lemma_seq_sum_at_least_len(w);
    lemma_seq_sum_at_most(w, 0x7fff_ffff);
    assert(0 <= factor * total <= i128::MAX) by (nonlinear_arith)
        requires
            0 <= factor <= 0x7fff_ffff,
            0 <= total <= n * 0x7fff_ffff,
            0 <= n <= 0xffff_ffff_ffff_ffff,
    ;
}

/// Whether `n` symbols can have codes of at most `max_len` bits.
fn is_feasible(max_len: i32, n: usize) -> (feasible: bool)
    requires
        max_len >= 1,
    ensures
        feasible == (n <= pow2(max_len as nat)),
{
    let mut capacity: usize = 1;
    let mut steps: i32 = 0;
    while steps < max_len && capacity < n
        invariant
            0 <= steps <= max_len,
            capacity == pow2(steps as nat),
        decreases max_len - steps,
    {
        if capacity > usize::MAX / 2 {
            proof {
                lemma_pow2_monotone((steps + 1) as nat, max_len as nat);
            }
            return true;
        }
        capacity = capacity * 2;
        steps = steps + 1;
    }
    proof {
        lemma_pow2_monotone(steps as nat, max_len as nat);
    }
    capacity >= n
}

/// The levels of a fresh coin: `level` at `symbol`, zero elsewhere.
fn unit_levels(n: usize, symbol: usize, level: i32) -> (levels: Vec<i32>)
    ensures
        levels.len() == n,
        forall|k: int|
            0 <= k < n ==> #[trigger] levels[k] == if k == symbol {
                level
            } else {
                0
            },
{
    let mut levels: Vec<i32> = Vec::new();
    let mut k: usize = 0;
    while k < n
        invariant
            k <= n,
            levels.len() == k,
            forall|j: int|
                0 <= j < k ==> #[trigger] levels[j] == if j == symbol {
                    level
                } else {
                    0
                },
        decreases n - k,
    {
        levels.push(if k == symbol { level } else { 0 });
        k += 1;
    }
    levels
}

/// The relation between a coin and its model, as a value.
pub open spec fn models_relation() -> spec_fn(Coin, CoinModel) -> bool {
    |c: Coin, m: CoinModel| coin_models(c, m)
}

/// The key by which coins are sorted, as a value.
pub open spec fn coin_key() -> spec_fn(Coin) -> int {
    |c: Coin| c.sort_key()
}

/// The lists of coins of one level, from the list of the level below.
fn next_level(coins: Vec<Coin>, weights: &[i32], max_len: i32, level: i32) -> (next: Vec<Coin>)
    requires
        1 <= level <= max_len,
        forall|k: int| 0 <= k < weights.len() ==> #[trigger] weights[k] >= 1,
        coins_model(coins@, coins_at(weights_of(weights@), max_len as int, level + 1)),
    ensures
        coins_model(next@, coins_at(weights_of(weights@), max_len as int, level as int)),
{
    let n = weights.len();
    let ghost w = weights_of(weights@);
    let ghost limit = max_len as int;
    let ghost below = coins_at(w, limit, level + 1);
    let ghost total = seq_sum(w);
    proof {
        if level < max_len {
            lemma_coins_at(w, limit, level + 1);
            lemma_weights_nonnegative(below, n as int, level + 1, limit);
        } else {
            assert(below =~= Seq::<CoinModel>::empty());
        }
        lemma_weights_fit(weights@, limit, limit - level);
    }
    let mut next: Vec<Coin> = Vec::new();
    let pairs: usize = coins.len() / 2;
    let mut i: usize = 0;
    assert(below.subrange(0, 0) =~= Seq::<CoinModel>::empty());
    while i < pairs
        invariant
            i <= pairs,
            pairs == coins.len() / 2,
            below.len() == coins.len(),
            coins_model(coins@, below),
            coins_model(next@, paired(below.subrange(0, 2 * i))),
            forall|c: int| 0 <= c < below.len() ==> weight_of()(#[trigger] below[c]) >= 0,
            forall|c: int|
                0 <= c < below.len() ==> (#[trigger] below[c]).levels.len() == n,
            sum_by(below, weight_of()) <= i128::MAX,
        decreases pairs - i,
    {
        proof {
            lemma_sum_by_bounds(below, weight_of(), 2 * i as int, 2 * i + 1);
            assert(coin_models(coins@[2 * i as int], below[2 * i as int]));
            assert(coin_models(coins@[2 * i + 1], below[2 * i + 1]));
        }
        let package = merge_coins(&coins[2 * i], &coins[2 * i + 1]);
        proof {
            let head = below.subrange(0, 2 * i + 2);
            assert(head.subrange(0, head.len() - 2) =~= below.subrange(0, 2 * i as int));
            assert(head[head.len() - 2] == below[2 * i as int]);
            assert(head[head.len() - 1] == below[2 * i + 1]);
            let m = merged(below[2 * i as int], below[2 * i + 1]);
            assert(paired(head) == paired(below.subrange(0, 2 * i as int)).push(m));
            assert(coin_models(package, m));
        }
        next.push(package);
        i += 1;
    }
    proof {
        if coins.len() == 2 * i {
            assert(below.subrange(0, 2 * i as int) =~= below);
        } else {
            assert(below.drop_last() =~= below.subrange(0, 2 * i as int));
        }
    }
    let ghost packs = paired(below);
    let ghost fresh = fresh_coins(w, limit, level as int);
    let mut k: usize = 0;
    assert(packs + fresh.subrange(0, 0) =~= packs);
    while k < n
        invariant
            k <= n,
            n == weights.len(),
            w == weights_of(weights@),
            fresh == fresh_coins(w, limit, level as int),
            coins_model(next@, packs + fresh.subrange(0, k as int)),
        decreases n - k,
    {
        let coin = Coin { weight: weights[k] as i128, levels: unit_levels(n, k, level) };
        proof {
            assert(fresh[k as int] == fresh_coin(w, limit, level as int, k as int));
            assert(coin_models(coin, fresh[k as int]));
            assert(packs + fresh.subrange(0, k + 1) =~= (packs + fresh.subrange(0, k as int)).push(
                fresh[k as int],
            ));
        }
        next.push(coin);
        k += 1;
    }
    proof {
        assert(fresh.subrange(0, n as int) =~= fresh);
        let joined = packs + fresh;
        assert forall|x: Coin, y: CoinModel| #[trigger]
            models_relation()(x, y) implies coin_key()(x) == weight_of()(y) by {}
        assert forall|c: int| 0 <= c < next@.len() implies #[trigger] models_relation()(
            next@[c],
            joined[c],
        ) by {
            assert(coin_models(next@[c], joined[c]));
        }
        lemma_stable_sorted_alike(next@, coin_key(), joined, weight_of(), models_relation());
        lemma_stable_sorted(next@, coin_key());
        lemma_stable_sorted(joined, weight_of());
        let sorted_coins = stable_sorted(next@, coin_key());
        let sorted_models = stable_sorted(joined, weight_of());
        assert forall|c: int| 0 <= c < sorted_coins.len() implies coin_models(
            #[trigger] sorted_coins[c],
            sorted_models[c],
        ) by {
            assert(models_relation()(sorted_coins[c], sorted_models[c]));
        }
        assert(coin_key() == (|a: Coin| a.sort_key()));
    }
    stable_sort(&mut next);
    next
}

/// Code lengths of at most `max_len` bits for symbols of the given weights,
/// by package-merge: `Err(InfeasibleHuffman)` exactly when there are more
/// symbols than two to the power `max_len`. The lengths lie between one and
/// `max_len` and satisfy Kraft's inequality.
pub fn bounded_huffman(max_len: i32, number_repetitions: &[i32]) -> (lengths: Result<
    Vec<i32>,
    DeflateError,
>)
    requires
        max_len >= 1,
        forall|k: int| 0 <= k < number_repetitions.len() ==> #[trigger] number_repetitions[k] >= 1,
    ensures
        lengths is Ok <==> number_repetitions.len() <= pow2(max_len as nat),
        lengths matches Err(e) ==> e == DeflateError::InfeasibleHuffman,
        lengths matches Ok(l) ==> {
            &&& lengths_as_ints(l@) == package_merge_lengths(
                weights_of(number_repetitions@),
                max_len as int,
            )
            &&& l.len() == number_repetitions.len()
            &&& forall|i: int| 0 <= i < l.len() ==> 1 <= #[trigger] l[i] <= max_len
            &&& kraft_sum(lengths_as_ints(l@), max_len as nat) <= pow2(max_len as nat)
        },
{
    let n = number_repetitions.len();
    let ghost w = weights_of(number_repetitions@);
    let ghost limit = max_len as int;
    if !is_feasible(max_len, n) {
        return Err(DeflateError::InfeasibleHuffman);
    }
    let mut coins: Vec<Coin> = Vec::new();
    let mut level: i32 = max_len;
    assert(coins_at(w, limit, level + 1) =~= Seq::<CoinModel>::empty());
    while level >= 1
        invariant
            0 <= level <= max_len,
            max_len >= 1,
            w == weights_of(number_repetitions@),
            limit == max_len,
            forall|k: int|
                0 <= k < number_repetitions.len() ==> #[trigger] number_repetitions[k] >= 1,
            coins_model(coins@, coins_at(w, limit, level + 1)),
        decreases level,
    {
        coins = next_level(coins, number_repetitions, max_len, level);
        level = level - 1;
    }
    let ghost list = coins_at(w, limit, 1);
    proof {
        lemma_package_merge_lengths(w, limit);
        lemma_coins_at(w, limit, 1);
    }
    assert(coins_taken(n as int) <= coins.len());
    let taken: usize = if n <= 2 {
        n
    } else {
        n + (n - 2)
    };
    let mut lengths: Vec<i32> = Vec::new();
    let mut k: usize = 0;
    while k < n
        invariant
            k <= n,
            lengths.len() == k,
            forall|j: int| 0 <= j < k ==> #[trigger] lengths[j] == 0,
        decreases n - k,
    {
        lengths.push(0);
        k += 1;
    }
    let mut c: usize = 0;
    assert(list.subrange(0, 0) =~= Seq::<CoinModel>::empty());
    while c < taken
        invariant
            c <= taken <= coins.len(),
            taken == coins_taken(n as int),
            coins_model(coins@, list),
            list_ok(list, w, limit, 1),
            w.len() == n,
            lengths.len() == n,
            forall|j: int|
                0 <= j < n ==> #[trigger] lengths[j] == deepest_level(list.subrange(0, c as int), j),
        decreases taken - c,
    {
        let ghost before = list.subrange(0, c as int);
        let ghost after = list.subrange(0, c + 1);
        proof {
            assert(after.drop_last() =~= before);
            assert(after.last() == list[c as int]);
            assert(coin_models(coins@[c as int], list[c as int]));
            assert(coin_ok(list[c as int], n as int, 1, limit));
        }
        let mut j: usize = 0;
        while j < n
            invariant
                j <= n,
                c < coins.len(),
                lengths.len() == n,
                coin_models(coins@[c as int], list[c as int]),
                list[c as int].levels.len() == n,
                after.len() > 0,
                after.drop_last() == before,
                after.last() == list[c as int],
                forall|x: int| 0 <= x < j ==> #[trigger] lengths[x] == deepest_level(after, x),
                forall|x: int| j <= x < n ==> #[trigger] lengths[x] == deepest_level(before, x),
            decreases n - j,
        {
            let level_here: i32 = coins[c].levels[j];
            proof {
                assert(coins@[c as int].levels@[j as int] == list[c as int].levels[j as int]);
                assert(deepest_level(after, j as int) == larger(
                    deepest_level(after.drop_last(), j as int),
                    after.last().levels[j as int],
                ));
            }
            if lengths[j] < level_here {
                lengths.set(j, level_here);
            }
            j += 1;
        }
        c += 1;
    }
    proof {
        let expected = package_merge_lengths(w, limit);
        assert(lengths_as_ints(lengths@) =~= expected);
        assert forall|i: int| 0 <= i < lengths.len() implies 1 <= #[trigger] lengths[i]
            <= max_len by {
            assert(lengths[i] == expected[i]);
        }
    }
    Ok(lengths)
}

} // verus!
