//! Stable ranking: the order that sorting by a key would give, as a list of
//! indices.
//!
//! Indices are ranked by ascending key, and indices with equal keys keep
//! their natural order. The ranking is defined by insertion: each index in
//! turn is put behind every index already ranked whose key is not larger.
//! It is computed by merging, and there is only one ranking to arrive at.

use vstd::prelude::*;
use vstd::seq_lib::*;

verus! {

/// Whether index `i` comes before index `j` when ranking by `keys`: the
/// smaller key first, and of equal keys the lower index first.
pub open spec fn ranks_before(keys: Seq<int>, i: int, j: int) -> bool {
    keys[i] < keys[j] || (keys[i] == keys[j] && i < j)
}

/// Where index `x` lands among the first `upto` entries of `order`: just
/// behind the last of them whose key is not larger than that of `x`.
pub open spec fn landing(keys: Seq<int>, order: Seq<usize>, x: int, upto: int) -> int
    decreases upto,
{
    if upto <= 0 || keys[order[upto - 1] as int] <= keys[x] {
        upto
    } else {
        landing(keys, order, x, upto - 1)
    }
}

/// The stable ranking of the first `n` indices by `keys`.
pub open spec fn ranking_of(keys: Seq<int>, n: int) -> Seq<usize>
    decreases n,
{
    if n <= 0 {
        Seq::empty()
    } else {
        let earlier = ranking_of(keys, n - 1);
        earlier.insert(landing(keys, earlier, n - 1, earlier.len() as int), (n - 1) as usize)
    }
}

/// The stable ranking of all indices of `keys`.
pub open spec fn ranking(keys: Seq<int>) -> Seq<usize> {
    ranking_of(keys, keys.len() as int)
}

/// Whether `order` ranks the first `n` indices of `keys`: it lists indices
/// below `n`, as many as there are, each ranked before the next ones.
pub open spec fn is_ranking(keys: Seq<int>, order: Seq<usize>, n: int) -> bool {
    &&& order.len() == n
    &&& forall|a: int| 0 <= a < order.len() ==> 0 <= #[trigger] order[a] < n
    &&& forall|a: int, b: int|
        0 <= a < b < order.len() ==> ranks_before(
            keys,
            #[trigger] order[a] as int,
            #[trigger] order[b] as int,
        )
}

/// What `landing` finds: a position no later than `upto`, with only larger
/// keys between it and `upto`, and a key that is not larger just before it.
pub proof fn lemma_landing(keys: Seq<int>, order: Seq<usize>, x: int, upto: int)
    requires
        0 <= upto <= order.len(),
    ensures
        0 <= landing(keys, order, x, upto) <= upto,
        forall|b: int|
            landing(keys, order, x, upto) <= b < upto ==> keys[#[trigger] order[b] as int]
                > keys[x],
        landing(keys, order, x, upto) > 0 ==> keys[order[landing(keys, order, x, upto) - 1] as int]
            <= keys[x],
    decreases upto,
{
    if upto > 0 && keys[order[upto - 1] as int] > keys[x] {
        lemma_landing(keys, order, x, upto - 1);
    }
}

/// `ranking_of` ranks: its result lists the first `n` indices, each ranked
/// before those that follow it.
pub proof fn lemma_ranking_ranks(keys: Seq<int>, n: int)
    requires
        0 <= n <= keys.len(),
        n <= usize::MAX,
    ensures
        is_ranking(keys, ranking_of(keys, n), n),
    decreases n,
{
    if n > 0 {
        let earlier = ranking_of(keys, n - 1);
        let x = n - 1;
        let p = landing(keys, earlier, x, earlier.len() as int);
        let order = ranking_of(keys, n);
        lemma_ranking_ranks(keys, n - 1);
        lemma_landing(keys, earlier, x, earlier.len() as int);
        assert forall|a: int| 0 <= a < p implies keys[#[trigger] earlier[a] as int] <= keys[x] by {
            if a < p - 1 {
                assert(ranks_before(keys, earlier[a] as int, earlier[p - 1] as int));
            }
        }
        assert forall|a: int, b: int| 0 <= a < b < order.len() implies ranks_before(
            keys,
            #[trigger] order[a] as int,
            #[trigger] order[b] as int,
        ) by {
            let a0 = if a < p { a } else { a - 1 };
            let b0 = if b < p { b } else { b - 1 };
            if a == p {
                assert(order[b] == earlier[b0]);
            } else if b == p {
                assert(order[a] == earlier[a0]);
            } else {
                assert(order[a] == earlier[a0]);
                assert(order[b] == earlier[b0]);
                assert(ranks_before(keys, earlier[a0] as int, earlier[b0] as int));
            }
        }
        assert forall|a: int| 0 <= a < order.len() implies 0 <= #[trigger] order[a] < n by {
            let a0 = if a < p { a } else { a - 1 };
            if a != p {
                assert(order[a] == earlier[a0]);
            }
        }
    }
}

/// Keys that never fall along the sequence are already ranked: their
/// ranking lists the indices in their natural order.
pub proof fn lemma_ranking_of_ranked(keys: Seq<int>, n: int)
    requires
        0 <= n <= keys.len(),
        n <= usize::MAX,
        forall|i: int, j: int| 0 <= i < j < n ==> #[trigger] keys[i] <= #[trigger] keys[j],
    ensures
        ranking_of(keys, n) == Seq::new(n as nat, |i: int| i as usize),
    decreases n,
{
    if n > 0 {
        lemma_ranking_of_ranked(keys, n - 1);
        let earlier = ranking_of(keys, n - 1);
        if n > 1 {
            assert(earlier[n - 2] == n - 2);
            assert(keys[n - 2] <= keys[n - 1]);
        }
        assert(landing(keys, earlier, n - 1, earlier.len() as int) == n - 1);
    }
    assert(ranking_of(keys, n) =~= Seq::new(n as nat, |i: int| i as usize));
}

/// The elements of `s` taken in the order that `order` lists their indices.
pub open spec fn gather<T>(s: Seq<T>, order: Seq<usize>) -> Seq<T> {
    Seq::new(order.len(), |a: int| s[order[a] as int])
}

/// Taking elements in ranking order rearranges them and does no more: the
/// first `n` elements of `s`, gathered by the ranking of the first `n`
/// indices, are those same elements.
pub proof fn lemma_gather_permutes<T>(s: Seq<T>, keys: Seq<int>, n: int)
    requires
        0 <= n <= keys.len(),
        n <= s.len(),
        n <= usize::MAX,
    ensures
        gather(s, ranking_of(keys, n)).to_multiset() == s.take(n).to_multiset(),
        gather(s, ranking_of(keys, n)).len() == n,
    decreases n,
{
    lemma_ranking_ranks(keys, n);
    if n == 0 {
        assert(gather(s, ranking_of(keys, n)) =~= s.take(n));
    } else {
        let earlier = ranking_of(keys, n - 1);
        let p = landing(keys, earlier, n - 1, earlier.len() as int);
        lemma_gather_permutes(s, keys, n - 1);
        lemma_ranking_ranks(keys, n - 1);
        lemma_landing(keys, earlier, n - 1, earlier.len() as int);
        assert(gather(s, ranking_of(keys, n)) =~= gather(s, earlier).insert(p, s[n - 1]));
        to_multiset_insert(gather(s, earlier), p, s[n - 1]);
        to_multiset_build(s.take(n - 1), s[n - 1]);
        assert(s.take(n - 1).push(s[n - 1]) =~= s.take(n));
    }
}

/// The keys as mathematical integers.
pub open spec fn key_values(keys: Seq<i128>) -> Seq<int> {
    Seq::new(keys.len(), |i: int| keys[i] as int)
}

/// Distinct indices below `m` number at most `m`.
proof fn lemma_distinct_fit(order: Seq<usize>, m: int)
    requires
        0 <= m,
        forall|a: int| 0 <= a < order.len() ==> #[trigger] order[a] < m,
        forall|a: int, b: int|
            0 <= a < b < order.len() ==> #[trigger] order[a] != #[trigger] order[b],
    ensures
        order.len() <= m,
    decreases m,
{
    if order.len() > 0 {
        if m == 0 {
            assert(order[0] < m);
        } else if exists|p: int| 0 <= p < order.len() && #[trigger] order[p] == m - 1 {
            let p = choose|p: int| 0 <= p < order.len() && #[trigger] order[p] == m - 1;
            let rest = order.remove(p);
            assert forall|a: int| 0 <= a < rest.len() implies #[trigger] rest[a] < m - 1 by {
                let a0 = if a < p { a } else { a + 1 };
                assert(rest[a] == order[a0]);
                assert(order[a0] != order[p]);
            }
            assert forall|a: int, b: int| 0 <= a < b < rest.len() implies #[trigger] rest[a]
                != #[trigger] rest[b] by {
                let a0 = if a < p { a } else { a + 1 };
                let b0 = if b < p { b } else { b + 1 };
                assert(order[a0] != order[b0]);
            }
            lemma_distinct_fit(rest, m - 1);
        } else {
            assert forall|a: int| 0 <= a < order.len() implies #[trigger] order[a] < m - 1 by {
                assert(order[a] < m);
            }
            lemma_distinct_fit(order, m - 1);
        }
    }
}

/// There is one ranking only: whatever ranks the first `n` indices is the
/// ranking that insertion builds.
pub proof fn lemma_ranking_unique(keys: Seq<int>, order: Seq<usize>, n: int)
    requires
        0 <= n <= keys.len(),
        n <= usize::MAX,
        is_ranking(keys, order, n),
    ensures
        order == ranking_of(keys, n),
    decreases n,
{
    if n == 0 {
        assert(order =~= ranking_of(keys, n));
    } else {
        let x = (n - 1) as usize;
        if !exists|p: int| 0 <= p < order.len() && #[trigger] order[p] == x {
            assert forall|a: int| 0 <= a < order.len() implies #[trigger] order[a] < n - 1 by {
                assert(order[a] < n);
            }
            assert forall|a: int, b: int| 0 <= a < b < order.len() implies #[trigger] order[a]
                != #[trigger] order[b] by {
                assert(ranks_before(keys, order[a] as int, order[b] as int));
            }
            lemma_distinct_fit(order, n - 1);
        }
        let p = choose|p: int| 0 <= p < order.len() && #[trigger] order[p] == x;
        let rest = order.remove(p);
        assert(is_ranking(keys, rest, n - 1)) by {
            assert forall|a: int| 0 <= a < rest.len() implies 0 <= #[trigger] rest[a] < n - 1 by {
                let a0 = if a < p { a } else { a + 1 };
                assert(rest[a] == order[a0]);
                if a0 < p {
                    assert(ranks_before(keys, order[a0] as int, order[p] as int));
                } else {
                    assert(ranks_before(keys, order[p] as int, order[a0] as int));
                }
            }
            assert forall|a: int, b: int| 0 <= a < b < rest.len() implies ranks_before(
                keys,
                #[trigger] rest[a] as int,
                #[trigger] rest[b] as int,
            ) by {
                let a0 = if a < p { a } else { a + 1 };
                let b0 = if b < p { b } else { b + 1 };
                assert(ranks_before(keys, order[a0] as int, order[b0] as int));
            }
        }
        lemma_ranking_unique(keys, rest, n - 1);
        let landed = landing(keys, rest, n - 1, rest.len() as int);
        lemma_landing(keys, rest, n - 1, rest.len() as int);
        assert(landed == p) by {
            if landed > p {
                assert(rest[landed - 1] == order[landed]);
                assert(ranks_before(keys, order[p] as int, order[landed] as int));
            }
            if landed < p {
                assert(rest[landed] == order[landed]);
                assert(ranks_before(keys, order[landed] as int, order[p] as int));
            }
        }
        assert(order =~= rest.insert(p, x));
    }
}

/// Whether `run` ranks the indices from `lo` up to, not including, `hi`.
pub open spec fn is_run(keys: Seq<int>, run: Seq<usize>, lo: int, hi: int) -> bool {
    &&& run.len() == hi - lo
    &&& forall|a: int| 0 <= a < run.len() ==> lo <= #[trigger] run[a] < hi
    &&& forall|a: int, b: int|
        0 <= a < b < run.len() ==> ranks_before(
            keys,
            #[trigger] run[a] as int,
            #[trigger] run[b] as int,
        )
}

/// Merges the rankings of two adjoining ranges of indices into the ranking
/// of both.
fn merge_runs(
    keys: &Vec<i128>,
    left: &Vec<usize>,
    right: &Vec<usize>,
    lo: usize,
    mid: usize,
    hi: usize,
) -> (run: Vec<usize>)
    requires
        lo <= mid <= hi <= keys.len(),
        is_run(key_values(keys@), left@, lo as int, mid as int),
        is_run(key_values(keys@), right@, mid as int, hi as int),
    ensures
        is_run(key_values(keys@), run@, lo as int, hi as int),
{
    let ghost ks = key_values(keys@);
    let mut run: Vec<usize> = Vec::new();
    let mut i: usize = 0;
    let mut j: usize = 0;
    while i < left.len() || j < right.len()
        invariant
            lo <= mid <= hi <= keys.len(),
            ks == key_values(keys@),
            is_run(ks, left@, lo as int, mid as int),
            is_run(ks, right@, mid as int, hi as int),
            0 <= i <= left.len(),
            0 <= j <= right.len(),
            run.len() == i + j,
            forall|a: int| 0 <= a < run.len() ==> lo <= #[trigger] run[a] < hi,
            forall|a: int, b: int|
                0 <= a < b < run.len() ==> ranks_before(
                    ks,
                    #[trigger] run[a] as int,
                    #[trigger] run[b] as int,
                ),
            forall|a: int|
                0 <= a < run.len() && i < left.len() ==> ranks_before(
                    ks,
                    #[trigger] run[a] as int,
                    left[i as int] as int,
                ),
            forall|a: int|
                0 <= a < run.len() && j < right.len() ==> ranks_before(
                    ks,
                    #[trigger] run[a] as int,
                    right[j as int] as int,
                ),
        decreases left.len() - i + right.len() - j,
    {
        let from_left = if i == left.len() {
            false
        } else if j == right.len() {
            true
        } else {
            keys[left[i]] <= keys[right[j]]
        };
        let ghost before = run@;
        if from_left {
            let x = left[i];
            proof {
                if i + 1 < left.len() {
                    assert(ranks_before(ks, left[i as int] as int, left[i + 1] as int));
                }
            }
            run.push(x);
            i += 1;
            proof {
                assert forall|a: int| 0 <= a < run.len() && i < left.len() implies ranks_before(
                    ks,
                    #[trigger] run[a] as int,
                    left[i as int] as int,
                ) by {
                    if a < before.len() {
                        assert(ranks_before(ks, before[a] as int, x as int));
                    }
                }
                assert forall|a: int| 0 <= a < run.len() && j < right.len() implies ranks_before(
                    ks,
                    #[trigger] run[a] as int,
                    right[j as int] as int,
                ) by {
                    if a < before.len() {
                        assert(ranks_before(ks, before[a] as int, right[j as int] as int));
                    }
                }
                assert forall|a: int, b: int| 0 <= a < b < run.len() implies ranks_before(
                    ks,
                    #[trigger] run[a] as int,
                    #[trigger] run[b] as int,
                ) by {
                    if b < before.len() {
                        assert(ranks_before(ks, before[a] as int, before[b] as int));
                    } else {
                        assert(ranks_before(ks, before[a] as int, x as int));
                    }
                }
            }
        } else {
            let y = right[j];
            proof {
                if j + 1 < right.len() {
                    assert(ranks_before(ks, right[j as int] as int, right[j + 1] as int));
                }
            }
            run.push(y);
            j += 1;
            proof {
                assert forall|a: int| 0 <= a < run.len() && i < left.len() implies ranks_before(
                    ks,
                    #[trigger] run[a] as int,
                    left[i as int] as int,
                ) by {
                    if a < before.len() {
                        assert(ranks_before(ks, before[a] as int, left[i as int] as int));
                    }
                }
                assert forall|a: int| 0 <= a < run.len() && j < right.len() implies ranks_before(
                    ks,
                    #[trigger] run[a] as int,
                    right[j as int] as int,
                ) by {
                    if a < before.len() {
                        assert(ranks_before(ks, before[a] as int, y as int));
                    }
                }
                assert forall|a: int, b: int| 0 <= a < b < run.len() implies ranks_before(
                    ks,
                    #[trigger] run[a] as int,
                    #[trigger] run[b] as int,
                ) by {
                    if b < before.len() {
                        assert(ranks_before(ks, before[a] as int, before[b] as int));
                    } else {
                        assert(ranks_before(ks, before[a] as int, y as int));
                    }
                }
            }
        }
    }
    run
}

/// Ranks the indices from `lo` up to `hi` by merging the rankings of the two
/// halves of the range.
fn rank_range(keys: &Vec<i128>, lo: usize, hi: usize) -> (run: Vec<usize>)
    requires
        lo <= hi <= keys.len(),
    ensures
        is_run(key_values(keys@), run@, lo as int, hi as int),
    decreases hi - lo,
{
    let mut run: Vec<usize> = Vec::new();
    if hi - lo == 0 {
        run
    } else if hi - lo == 1 {
        run.push(lo);
        run
    } else {
        let mid = lo + (hi - lo) / 2;
        let left = rank_range(keys, lo, mid);
        let right = rank_range(keys, mid, hi);
        merge_runs(keys, &left, &right, lo, mid, hi)
    }
}

/// Ranks the indices of `keys` by ascending key, equal keys in index order.
pub fn stable_order(keys: &Vec<i128>) -> (order: Vec<usize>)
    ensures
        order@ == ranking(key_values(keys@)),
        is_ranking(key_values(keys@), order@, keys.len() as int),
{
    let order = rank_range(keys, 0, keys.len());
    proof {
        lemma_ranking_unique(key_values(keys@), order@, keys.len() as int);
    }
    order
}

} // verus!
