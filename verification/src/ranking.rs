//! Ordering rows by a figure, greatest first.
use vstd::prelude::*;

verus! {

/// Row `a` ranks before row `b`: its key is greater, or the keys are equal and it stands first.
pub open spec fn before(keys: Seq<u64>, a: int, b: int) -> bool {
    keys[a] > keys[b] || (keys[a] == keys[b] && a < b)
}

/// All rows, greatest key first, equal keys in the order of the rows.
pub open spec fn is_ranking(keys: Seq<u64>, order: Seq<usize>) -> bool {
    &&& order.len() == keys.len()
    &&& forall|i: int| 0 <= i < order.len() ==> (#[trigger] order[i]) < keys.len()
    &&& forall|i: int, j: int|
        0 <= i < j < order.len() ==> before(
            keys,
            #[trigger] order[i] as int,
            #[trigger] order[j] as int,
        )
    &&& forall|k: usize| k < keys.len() ==> #[trigger] order.contains(k)
}

/// The rows from `lo` to `hi`, ranked.
spec fn is_ranked_range(keys: Seq<u64>, order: Seq<usize>, lo: int, hi: int) -> bool {
    &&& order.len() == hi - lo
    &&& forall|i: int| 0 <= i < order.len() ==> lo <= (#[trigger] order[i]) < hi
    &&& forall|i: int, j: int|
        0 <= i < j < order.len() ==> before(
            keys,
            #[trigger] order[i] as int,
            #[trigger] order[j] as int,
        )
    &&& forall|k: usize| lo <= k < hi ==> #[trigger] order.contains(k)
}

/// Merges two ranked neighbouring ranges.
fn merge(
    keys: &Vec<u64>,
    left: &Vec<usize>,
    right: &Vec<usize>,
    Ghost(lo): Ghost<int>,
    Ghost(mid): Ghost<int>,
    Ghost(hi): Ghost<int>,
) -> (r: Vec<usize>)
    requires
        0 <= lo <= mid <= hi <= keys@.len(),
        is_ranked_range(keys@, left@, lo, mid),
        is_ranked_range(keys@, right@, mid, hi),
    ensures
        is_ranked_range(keys@, r@, lo, hi),
{
    let mut out: Vec<usize> = Vec::new();
    let mut i: usize = 0;
    let mut j: usize = 0;
    while i < left.len() || j < right.len()
        invariant
            0 <= lo <= mid <= hi <= keys@.len(),
            is_ranked_range(keys@, left@, lo, mid),
            is_ranked_range(keys@, right@, mid, hi),
            i <= left@.len(),
            j <= right@.len(),
            out@.len() == i + j,
            forall|a: int| 0 <= a < out@.len() ==> lo <= (#[trigger] out@[a]) < hi,
            forall|a: int, b: int|
                0 <= a < b < out@.len() ==> before(
                    keys@,
                    #[trigger] out@[a] as int,
                    #[trigger] out@[b] as int,
                ),
            forall|a: int, b: int|
                0 <= a < out@.len() && i <= b < left@.len() ==> before(
                    keys@,
                    #[trigger] out@[a] as int,
                    #[trigger] left@[b] as int,
                ),
            forall|a: int, b: int|
                0 <= a < out@.len() && j <= b < right@.len() ==> before(
                    keys@,
                    #[trigger] out@[a] as int,
                    #[trigger] right@[b] as int,
                ),
            forall|b: int| 0 <= b < i ==> out@.contains(#[trigger] left@[b]),
            forall|b: int| 0 <= b < j ==> out@.contains(#[trigger] right@[b]),
        decreases left@.len() - i + right@.len() - j,
    {
        let ghost so_far = out@;
        let take_left = if i >= left.len() {
            false
        } else if j >= right.len() {
            true
        } else {
            keys[left[i]] >= keys[right[j]]
        };
        if take_left {
            out.push(left[i]);
            i = i + 1;
        } else {
            out.push(right[j]);
            j = j + 1;
        }
        proof {
            let last = so_far.len() as int;
            assert(out@[last] == out@.last());
            assert forall|k: usize| so_far.contains(k) implies out@.contains(k) by {
                let a = choose|a: int| 0 <= a < so_far.len() && so_far[a] == k;
                assert(out@[a] == k);
            }
            assert(out@.contains(out@[last]));
        }
    }
    proof {
        assert forall|k: usize| lo <= k < hi implies #[trigger] out@.contains(k) by {
            if k < mid {
                assert(left@.contains(k));
                let b = choose|b: int| 0 <= b < left@.len() && left@[b] == k;
                assert(out@.contains(left@[b]));
            } else {
                assert(right@.contains(k));
                let b = choose|b: int| 0 <= b < right@.len() && right@[b] == k;
                assert(out@.contains(right@[b]));
            }
        }
    }
    out
}

/// Ranks the rows from `lo` to `hi`.
fn rank_range(keys: &Vec<u64>, lo: usize, hi: usize) -> (r: Vec<usize>)
    requires
        lo <= hi <= keys@.len(),
    ensures
        is_ranked_range(keys@, r@, lo as int, hi as int),
    decreases hi - lo,
{
    let mut out: Vec<usize> = Vec::new();
    if lo == hi {
        return out;
    }
    if hi - lo == 1 {
        out.push(lo);
        proof {
            assert(out@[0] == lo);
        }
        return out;
    }
    let mid: usize = lo + (hi - lo) / 2;
    let left = rank_range(keys, lo, mid);
    let right = rank_range(keys, mid, hi);
    merge(keys, &left, &right, Ghost(lo as int), Ghost(mid as int), Ghost(hi as int))
}

/// Ranks rows by their keys, greatest first; rows with equal keys keep their order.
pub fn rank(keys: &Vec<u64>) -> (r: Vec<usize>)
    ensures
        is_ranking(keys@, r@),
{
    rank_range(keys, 0, keys.len())
}

/// The ranking of some keys.
pub open spec fn ranking(keys: Seq<u64>) -> Seq<usize> {
    choose|order: Seq<usize>| is_ranking(keys, order)
}

/// In two rankings of the same keys the rows up to `n` agree.
proof fn lemma_rankings_agree(keys: Seq<u64>, a: Seq<usize>, b: Seq<usize>, n: nat)
    requires
        is_ranking(keys, a),
        is_ranking(keys, b),
        n <= keys.len(),
    ensures
        forall|i: int| 0 <= i < n ==> a[i] == b[i],
    decreases n,
{
    if n > 0 {
        lemma_rankings_agree(keys, a, b, (n - 1) as nat);
        let k = n - 1;
        if a[k] != b[k] {
            // each of the two rows stands further on in the other ranking
            assert(b.contains(a[k]));
            let i = choose|i: int| 0 <= i < b.len() && b[i] == a[k];
            assert(a.contains(b[k]));
            let j = choose|j: int| 0 <= j < a.len() && a[j] == b[k];
            if i < k {
                assert(a[i] == a[k]);
                assert(before(keys, a[i] as int, a[k] as int));
            }
            if j < k {
                assert(b[j] == b[k]);
                assert(before(keys, b[j] as int, b[k] as int));
            }
            assert(before(keys, b[k] as int, b[i] as int));
            assert(before(keys, a[k] as int, a[j] as int));
        }
    }
}

/// Keys have one ranking only.
pub proof fn ranking_is_unique(keys: Seq<u64>, a: Seq<usize>, b: Seq<usize>)
    requires
        is_ranking(keys, a),
        is_ranking(keys, b),
    ensures
        a == b,
{
    lemma_rankings_agree(keys, a, b, keys.len());
    assert(a =~= b);
}

/// An order found to be a ranking is the ranking.
pub proof fn lemma_is_the_ranking(keys: Seq<u64>, order: Seq<usize>)
    requires
        is_ranking(keys, order),
    ensures
        order == ranking(keys),
        is_ranking(keys, ranking(keys)),
{
    ranking_is_unique(keys, order, ranking(keys));
}

/// Puts row `n` into a ranking of the rows before it.
proof fn lemma_rank_one_more(keys: Seq<u64>, order: Seq<usize>, n: usize) -> (r: Seq<usize>)
    requires
        n < keys.len(),
        is_ranked_range(keys, order, 0, n as int),
    ensures
        is_ranked_range(keys, r, 0, n + 1),
{
    let p = lemma_place(keys, order, n, 0);
    let r = order.insert(p, n);
    assert forall|i: int, j: int| 0 <= i < j < r.len() implies before(
        keys,
        #[trigger] r[i] as int,
        #[trigger] r[j] as int,
    ) by {
        let a = if i < p { i } else { i - 1 };
        let b = if j < p { j } else { j - 1 };
        if i != p && j != p {
            assert(before(keys, order[a] as int, order[b] as int));
        } else if i == p {
            assert(keys[order[b] as int] < keys[n as int]);
        } else {
            assert(keys[order[a] as int] >= keys[n as int]);
        }
    }
    assert forall|k: usize| 0 <= k < n + 1 implies #[trigger] r.contains(k) by {
        if k == n {
            assert(r[p] == k);
        } else {
            assert(order.contains(k));
            let i = choose|i: int| 0 <= i < order.len() && order[i] == k;
            let j = if i < p { i } else { i + 1 };
            assert(r[j] == k);
        }
    }
    r
}

/// The place of row `n` in a ranking of the rows before it: behind all keys that are no smaller.
proof fn lemma_place(keys: Seq<u64>, order: Seq<usize>, n: usize, p: int) -> (r: int)
    requires
        n < keys.len(),
        is_ranked_range(keys, order, 0, n as int),
        0 <= p <= order.len(),
        forall|i: int| 0 <= i < p ==> keys[#[trigger] order[i] as int] >= keys[n as int],
    ensures
        0 <= r <= order.len(),
        forall|i: int| 0 <= i < r ==> keys[#[trigger] order[i] as int] >= keys[n as int],
        forall|i: int| r <= i < order.len() ==> keys[#[trigger] order[i] as int] < keys[n as int],
    decreases order.len() - p,
{
    if p == order.len() || keys[order[p] as int] < keys[n as int] {
        assert forall|i: int| p <= i < order.len() implies keys[#[trigger] order[i] as int]
            < keys[n as int] by {
            if i > p {
                assert(before(keys, order[p] as int, order[i] as int));
            }
        }
        p
    } else {
        lemma_place(keys, order, n, p + 1)
    }
}

proof fn lemma_rank_some(keys: Seq<u64>, n: nat) -> (r: Seq<usize>)
    requires
        n <= keys.len() <= usize::MAX,
    ensures
        is_ranked_range(keys, r, 0, n as int),
    decreases n,
{
    if n == 0 {
        Seq::empty()
    } else {
        let order = lemma_rank_some(keys, (n - 1) as nat);
        lemma_rank_one_more(keys, order, (n - 1) as usize)
    }
}

/// Keys that a list can hold have a ranking.
pub proof fn lemma_ranking_exists(keys: Seq<u64>)
    requires
        keys.len() <= usize::MAX,
    ensures
        is_ranking(keys, ranking(keys)),
{
    let order = lemma_rank_some(keys, keys.len());
    assert(is_ranking(keys, order));
}

/// The first rows of a ranking are the greatest: no row left out has a greater key.
pub proof fn top_rows_are_the_greatest(
    keys: Seq<u64>,
    order: Seq<usize>,
    n: nat,
    inside: int,
    outside: int,
)
    requires
        is_ranking(keys, order),
        0 <= inside < n <= outside < order.len(),
    ensures
        keys[order[inside] as int] >= keys[order[outside] as int],
{
    assert(before(keys, order[inside] as int, order[outside] as int));
}

/// No row is ranked twice and none is left out.
pub proof fn every_row_is_ranked_once(keys: Seq<u64>, order: Seq<usize>, k: usize)
    requires
        is_ranking(keys, order),
        k < keys.len(),
    ensures
        order.no_duplicates(),
        exists|i: int| 0 <= i < order.len() && order[i] == k,
{
    assert(order.contains(k));
    assert forall|i: int, j: int|
        0 <= i < order.len() && 0 <= j < order.len() && i != j implies order[i] != order[j] by {
        if i < j {
            assert(before(keys, order[i] as int, order[j] as int));
        } else {
            assert(before(keys, order[j] as int, order[i] as int));
        }
    }
}

/// A ranking has every row once, and goes from greater keys to smaller ones; rows with equal keys
/// follow each other in their order.
pub proof fn ranking_goes_from_the_greatest_key_down(
    keys: Seq<u64>,
    order: Seq<usize>,
    i: int,
    j: int,
)
    requires
        is_ranking(keys, order),
        0 <= i < j < keys.len(),
    ensures
        order.len() == keys.len(),
        keys[order[i] as int] >= keys[order[j] as int],
        keys[order[i] as int] == keys[order[j] as int] ==> order[i] < order[j],
        order[i] != order[j],
        order[i] < keys.len(),
        order[j] < keys.len(),
{
    assert(before(keys, order[i] as int, order[j] as int));
}

} // verus!
