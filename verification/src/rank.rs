//! Ranking of scored candidates: highest key first, earlier position first
//! among equal keys, cut off after a limit.

use vstd::prelude::*;

verus! {

/// Position `i` holds a candidate.
pub open spec fn is_candidate(keys: Seq<Option<u64>>, i: int) -> bool {
    0 <= i < keys.len() && keys[i] is Some
}

/// Candidate `i` ranks before candidate `j`: a higher key, or the same key
/// at an earlier position.
pub open spec fn ranks_before(keys: Seq<Option<u64>>, i: int, j: int) -> bool {
    keys[i]->0 > keys[j]->0 || (keys[i]->0 == keys[j]->0 && i < j)
}

/// The result of ranking `keys` with `limit`: the first `limit` candidates
/// in rank order, or all of them when there are fewer.
pub open spec fn is_ranking(keys: Seq<Option<u64>>, limit: int, order: Seq<usize>) -> bool {
    &&& order.len() <= limit
    &&& forall|k: int| 0 <= k < order.len() ==> is_candidate(keys, #[trigger] order[k] as int)
    &&& forall|a: int, b: int|
        0 <= a < b < order.len() ==> ranks_before(keys, #[trigger] order[a] as int, #[trigger] order[b] as int)
    &&& forall|i: int|
        is_candidate(keys, i) && !order.contains(i as usize) ==> {
            &&& order.len() == limit
            &&& forall|k: int| 0 <= k < order.len() ==> ranks_before(keys, #[trigger] order[k] as int, i)
        }
}

/// Ranks the candidates (the positions that hold a key) by key, highest
/// first, keeping the earlier position first among equal keys, and returns
/// the positions of the first `limit` of them.
pub fn rank_candidates(keys: &[Option<u64>], limit: usize) -> (order: Vec<usize>)
    ensures
        is_ranking(keys@, limit as int, order@),
{
    let n = keys.len();
    let mut order: Vec<usize> = Vec::new();
    let mut taken: Vec<bool> = vec![false; n];
    while order.len() < limit
        invariant
            n == keys@.len(),
            taken@.len() == n,
            order@.len() <= limit,
            forall|k: int| 0 <= k < order@.len() ==> is_candidate(keys@, #[trigger] order@[k] as int),
            forall|i: int| 0 <= i < n ==> (#[trigger] taken@[i] <==> order@.contains(i as usize)),
            forall|a: int, b: int|
                0 <= a < b < order@.len() ==> ranks_before(
                    keys@,
                    #[trigger] order@[a] as int,
                    #[trigger] order@[b] as int,
                ),
            forall|i: int|
                is_candidate(keys@, i) && !taken@[i] ==> forall|k: int|
                    0 <= k < order@.len() ==> ranks_before(keys@, #[trigger] order@[k] as int, i),
        ensures
            order@.len() == limit || forall|i: int| is_candidate(keys@, i) ==> taken@[i],
        decreases limit - order@.len(),
    {
        let mut best: Option<usize> = None;
        for i in 0..n
            invariant
                n == keys@.len(),
                taken@.len() == n,
                best matches Some(b) ==> {
                    &&& b < i
                    &&& is_candidate(keys@, b as int)
                    &&& !taken@[b as int]
                    &&& forall|j: int|
                        0 <= j < i && j != b && is_candidate(keys@, j) && !taken@[j] ==> ranks_before(
                            keys@,
                            b as int,
                            j,
                        )
                },
                best is None ==> forall|j: int| 0 <= j < i ==> !(is_candidate(keys@, j) && !taken@[j]),
        {
            if !taken[i] {
                if let Some(key) = keys[i] {
                    match best {
                        None => {
                            best = Some(i);
                        },
                        Some(b) => {
                            let bk = keys[b].unwrap();
                            if key > bk {
                                best = Some(i);
                            }
                        },
                    }
                }
            }
        }
        match best {
            None => {
                break ;
            },
            Some(b) => {
                let ghost old_order = order@;
                let ghost old_taken = taken@;
                order.push(b);
                taken.set(b, true);
                assert forall|i: int| 0 <= i < n implies (#[trigger] taken@[i] <==> order@.contains(
                    i as usize,
                )) by {
                    if i == b {
                        assert(order@[old_order.len() as int] == b);
                    } else {
                        assert(old_taken[i] == taken@[i]);
                        if old_order.contains(i as usize) {
                            let k = choose|k: int| 0 <= k < old_order.len() && old_order[k] == i as usize;
                            assert(order@[k] == i as usize);
                        }
                        if order@.contains(i as usize) {
                            let k = choose|k: int| 0 <= k < order@.len() && order@[k] == i as usize;
                            assert(k < old_order.len());
                            assert(old_order[k] == i as usize);
                        }
                    }
                }
            },
        }
    }
    proof {
        assert forall|i: int| is_candidate(keys@, i) && !order@.contains(i as usize) implies {
            &&& order@.len() == limit
            &&& forall|k: int| 0 <= k < order@.len() ==> ranks_before(keys@, #[trigger] order@[k] as int, i)
        } by {
            assert(!taken@[i]);
        }
    }
    order
}

/// A sequence of distinct values below `n` has at most `n` values.
pub(crate) proof fn lemma_distinct_bounded(s: Seq<int>, n: int)
    requires
        0 <= n,
        forall|k: int| 0 <= k < s.len() ==> 0 <= #[trigger] s[k] < n,
        forall|a: int, b: int| 0 <= a < b < s.len() ==> s[a] != s[b],
    ensures
        s.len() <= n,
    decreases n,
{
    if n == 0 {
        if s.len() > 0 {
            assert(s[0] < n);
        }
    } else if exists|k: int| 0 <= k < s.len() && s[k] == n - 1 {
        let k = choose|k: int| 0 <= k < s.len() && s[k] == n - 1;
        let t = s.remove(k);
        assert forall|j: int| 0 <= j < t.len() implies t[j] < n - 1 by {
            if j < k {
                assert(t[j] == s[j]);
            } else {
                assert(t[j] == s[j + 1]);
            }
        }
        assert forall|a: int, b: int| 0 <= a < b < t.len() implies t[a] != t[b] by {
            let sa = if a < k { a } else { a + 1 };
            let sb = if b < k { b } else { b + 1 };
            assert(t[a] == s[sa] && t[b] == s[sb]);
        }
        lemma_distinct_bounded(t, n - 1);
    } else {
        assert forall|k: int| 0 <= k < s.len() implies s[k] < n - 1 by {
            if s[k] == n - 1 {
                assert(exists|k: int| 0 <= k < s.len() && s[k] == n - 1);
            }
        }
        lemma_distinct_bounded(s, n - 1);
    }
}

/// Candidates ranked in a strict order.
pub open spec fn strictly_ranked(keys: Seq<Option<u64>>, order: Seq<usize>) -> bool {
    forall|a: int, b: int|
        0 <= a < b < order.len() ==> ranks_before(keys, #[trigger] order[a] as int, #[trigger] order[b] as int)
}

/// Two strictly ranked sequences with the same members are the same.
proof fn lemma_same_members_same_order(keys: Seq<Option<u64>>, a: Seq<usize>, b: Seq<usize>)
    requires
        strictly_ranked(keys, a),
        strictly_ranked(keys, b),
        forall|x: usize| a.contains(x) <==> b.contains(x),
    ensures
        a == b,
    decreases a.len(),
{
    if a.len() == 0 {
        if b.len() > 0 {
            assert(b.contains(b[0]));
        }
        assert(a =~= b);
    } else if b.len() == 0 {
        assert(a.contains(a[0]));
    } else {
        assert(a.contains(a[0]));
        assert(b.contains(b[0]));
        let j = choose|j: int| 0 <= j < b.len() && b[j] == a[0];
        let i = choose|i: int| 0 <= i < a.len() && a[i] == b[0];
        if a[0] != b[0] {
            assert(i > 0 && j > 0);
            assert(ranks_before(keys, a[0] as int, a[i] as int));
            assert(ranks_before(keys, b[0] as int, b[j] as int));
        }
        let a1 = a.drop_first();
        let b1 = b.drop_first();
        assert forall|x: usize| a1.contains(x) <==> b1.contains(x) by {
            if a1.contains(x) {
                let k = choose|k: int| 0 <= k < a1.len() && a1[k] == x;
                assert(a[k + 1] == x);
                assert(ranks_before(keys, a[0] as int, a[k + 1] as int));
                assert(b.contains(x));
                let m = choose|m: int| 0 <= m < b.len() && b[m] == x;
                assert(m != 0);
                assert(b1[m - 1] == x);
            }
            if b1.contains(x) {
                let k = choose|k: int| 0 <= k < b1.len() && b1[k] == x;
                assert(b[k + 1] == x);
                assert(ranks_before(keys, b[0] as int, b[k + 1] as int));
                assert(a.contains(x));
                let m = choose|m: int| 0 <= m < a.len() && a[m] == x;
                assert(m != 0);
                assert(a1[m - 1] == x);
            }
        }
        assert forall|p: int, q: int| 0 <= p < q < a1.len() implies ranks_before(
            keys,
            #[trigger] a1[p] as int,
            #[trigger] a1[q] as int,
        ) by {
            assert(ranks_before(keys, a[p + 1] as int, a[q + 1] as int));
        }
        assert forall|p: int, q: int| 0 <= p < q < b1.len() implies ranks_before(
            keys,
            #[trigger] b1[p] as int,
            #[trigger] b1[q] as int,
        ) by {
            assert(ranks_before(keys, b[p + 1] as int, b[q + 1] as int));
        }
        lemma_same_members_same_order(keys, a1, b1);
        assert(a =~= b) by {
            assert forall|k: int| 0 <= k < a.len() implies a[k] == b[k] by {
                if k > 0 {
                    assert(a[k] == a1[k - 1]);
                    assert(b[k] == b1[k - 1]);
                }
            }
        }
    }
}

/// `y` stands in `order` before position `p`.
spec fn stands_before(order: Seq<usize>, p: int, y: usize) -> bool {
    exists|q: int| 0 <= q < p && order[q] == y
}

/// A ranking holds every member of another ranking of the same keys and limit.
proof fn lemma_ranking_members_included(keys: Seq<Option<u64>>, limit: int, o1: Seq<usize>, o2: Seq<usize>, x: usize)
    requires
        is_ranking(keys, limit, o1),
        is_ranking(keys, limit, o2),
        o2.contains(x),
    ensures
        o1.contains(x),
{
    if !o1.contains(x) {
        let p = choose|p: int| 0 <= p < o2.len() && o2[p] == x;
        assert(is_candidate(keys, o2[p] as int));
        assert(o1.len() == limit);
        // each member of o1 stands in o2 before x
        assert forall|k: int| 0 <= k < o1.len() implies #[trigger] stands_before(o2, p, o1[k]) by {
            let y = o1[k];
            assert(ranks_before(keys, o1[k] as int, x as int));
            assert(is_candidate(keys, o1[k] as int));
            if !o2.contains(y) {
                assert(ranks_before(keys, o2[p] as int, y as int));
            }
            let q = choose|q: int| 0 <= q < o2.len() && o2[q] == y;
            if q > p {
                assert(ranks_before(keys, o2[p] as int, o2[q] as int));
            }
            if q == p {
                assert(o1.contains(x));
            }
            assert(0 <= q < p && o2[q] == y);
        }
        let pos = Seq::new(o1.len(), |k: int| choose|q: int| 0 <= q < p && o2[q] == o1[k]);
        assert forall|k: int| 0 <= k < pos.len() implies 0 <= pos[k] < p && o2[pos[k]] == o1[k] by {
            assert(stands_before(o2, p, o1[k]));
        }
        assert forall|a: int, b: int| 0 <= a < b < pos.len() implies pos[a] != pos[b] by {
            assert(o2[pos[a]] == o1[a]);
            assert(o2[pos[b]] == o1[b]);
            assert(ranks_before(keys, o1[a] as int, o1[b] as int));
        }
        lemma_distinct_bounded(pos, p);
    }
}

/// The ranking is determined by the keys and the limit: two results that both
/// meet the contract of [`rank_candidates`] are the same.
pub proof fn lemma_ranking_unique(keys: Seq<Option<u64>>, limit: int, o1: Seq<usize>, o2: Seq<usize>)
    requires
        is_ranking(keys, limit, o1),
        is_ranking(keys, limit, o2),
    ensures
        o1 == o2,
{
    assert forall|x: usize| o1.contains(x) <==> o2.contains(x) by {
        if o2.contains(x) {
            lemma_ranking_members_included(keys, limit, o1, o2, x);
        }
        if o1.contains(x) {
            lemma_ranking_members_included(keys, limit, o2, o1, x);
        }
    }
    lemma_same_members_same_order(keys, o1, o2);
}

/// A sequence of distinct values below `n` that misses one of them has fewer
/// than `n` values.
pub(crate) proof fn lemma_distinct_missing_shorter(s: Seq<usize>, n: int, missing: usize)
    requires
        forall|k: int| 0 <= k < s.len() ==> s[k] < n,
        forall|a: int, b: int| 0 <= a < b < s.len() ==> s[a] != s[b],
        missing < n,
        !s.contains(missing),
    ensures
        s.len() < n,
{
    if missing == n - 1 {
        assert forall|k: int| 0 <= k < s.len() implies s[k] < n - 1 by {
            if s[k] == missing {
                assert(s.contains(missing));
            }
        }
        let t = s.map_values(|x: usize| x as int);
        assert forall|a: int, b: int| 0 <= a < b < t.len() implies t[a] != t[b] by {
            assert(s[a] != s[b]);
        }
        lemma_distinct_bounded(t, n - 1);
    } else {
        let t = s.map_values(|x: usize| if x == n - 1 { missing as int } else { x as int });
        assert forall|k: int| 0 <= k < t.len() implies 0 <= #[trigger] t[k] < n - 1 by {
            if s[k] == missing {
                assert(s.contains(missing));
            }
        }
        assert forall|a: int, b: int| 0 <= a < b < t.len() implies t[a] != t[b] by {
            if s[a] == missing {
                assert(s.contains(missing));
            }
            if s[b] == missing {
                assert(s.contains(missing));
            }
        }
        lemma_distinct_bounded(t, n - 1);
    }
}

/// Keys with the candidates that a filter rejects taken out.
pub open spec fn masked(keys: Seq<Option<u64>>, keep: Seq<bool>) -> Seq<Option<u64>> {
    Seq::new(keys.len(), |i: int| if keep[i] { keys[i] } else { None })
}

/// The positions of `order` that the filter keeps, in order.
pub open spec fn kept(order: Seq<usize>, keep: Seq<bool>) -> Seq<usize>
    decreases order.len(),
{
    if order.len() == 0 {
        order
    } else if keep[order.last() as int] {
        kept(order.drop_last(), keep).push(order.last())
    } else {
        kept(order.drop_last(), keep)
    }
}

/// The first `limit` entries of a sequence, or all of them when there are fewer.
pub open spec fn first(s: Seq<usize>, limit: int) -> Seq<usize> {
    if limit < s.len() {
        s.take(limit)
    } else {
        s
    }
}

/// Filtering a strict ranking keeps it strict and keeps exactly the members
/// that pass.
proof fn lemma_kept(keys: Seq<Option<u64>>, order: Seq<usize>, keep: Seq<bool>)
    requires
        strictly_ranked(keys, order),
    ensures
        strictly_ranked(keys, kept(order, keep)),
        forall|x: usize| #[trigger] kept(order, keep).contains(x) <==> order.contains(x) && keep[x as int],
    decreases order.len(),
{
    if order.len() > 0 {
        let pre = order.drop_last();
        let last = order.last();
        assert forall|a: int, b: int| 0 <= a < b < pre.len() implies ranks_before(
            keys,
            #[trigger] pre[a] as int,
            #[trigger] pre[b] as int,
        ) by {
            assert(ranks_before(keys, order[a] as int, order[b] as int));
        }
        lemma_kept(keys, pre, keep);
        let k0 = kept(pre, keep);
        assert forall|x: usize| order.contains(x) <==> pre.contains(x) || x == last by {
            if order.contains(x) {
                let k = choose|k: int| 0 <= k < order.len() && order[k] == x;
                if k < pre.len() {
                    assert(pre[k] == x);
                }
            }
            if pre.contains(x) {
                let k = choose|k: int| 0 <= k < pre.len() && pre[k] == x;
                assert(order[k] == x);
            }
            if x == last {
                assert(order[order.len() - 1] == x);
            }
        }
        if keep[last as int] {
            let k1 = k0.push(last);
            assert forall|x: usize| #[trigger] k1.contains(x) <==> k0.contains(x) || x == last by {
                if k1.contains(x) {
                    let k = choose|k: int| 0 <= k < k1.len() && k1[k] == x;
                    if k < k0.len() {
                        assert(k0[k] == x);
                    }
                }
                if k0.contains(x) {
                    let k = choose|k: int| 0 <= k < k0.len() && k0[k] == x;
                    assert(k1[k] == x);
                }
                if x == last {
                    assert(k1[k0.len() as int] == x);
                }
            }
            assert forall|a: int, b: int| 0 <= a < b < k1.len() implies ranks_before(
                keys,
                #[trigger] k1[a] as int,
                #[trigger] k1[b] as int,
            ) by {
                if b == k0.len() {
                    assert(k0.contains(k1[a]));
                    assert(pre.contains(k1[a]));
                    let k = choose|k: int| 0 <= k < pre.len() && pre[k] == k1[a];
                    assert(ranks_before(keys, order[k] as int, order[order.len() - 1] as int));
                } else {
                    assert(k1[a] == k0[a] && k1[b] == k0[b]);
                }
            }
        }
    }
}

/// A kind filter does not reorder search results. Search ranks the tiles
/// with a positive score, giving those that the filter rejects no key
/// (`masked`); the result is the complete ranking of all of them with the
/// rejected ones left out, cut at the limit.
pub proof fn lemma_filter_keeps_rank_order(
    keys: Seq<Option<u64>>,
    keep: Seq<bool>,
    all_limit: int,
    all: Seq<usize>,
    limit: int,
    some: Seq<usize>,
)
    requires
        keep.len() == keys.len(),
        keys.len() <= usize::MAX,
        all_limit >= keys.len(),
        0 <= limit,
        is_ranking(keys, all_limit, all),
        is_ranking(masked(keys, keep), limit, some),
    ensures
        some == first(kept(all, keep), limit),
{
    let mk = masked(keys, keep);
    let n = keys.len() as int;
    // the complete ranking holds every candidate
    assert forall|i: int| is_candidate(keys, i) implies #[trigger] all.contains(i as usize) by {
        if !all.contains(i as usize) {
            assert forall|a: int, b: int| 0 <= a < b < all.len() implies all[a] != all[b] by {
                assert(ranks_before(keys, all[a] as int, all[b] as int));
            }
            assert forall|k: int| 0 <= k < all.len() implies all[k] < n by {
                assert(is_candidate(keys, all[k] as int));
            }
            lemma_distinct_missing_shorter(all, n, i as usize);
        }
    }
    lemma_kept(keys, all, keep);
    let f = kept(all, keep);
    let o = first(f, limit);
    assert forall|k: int| 0 <= k < o.len() implies o[k] == f[k] by {}
    assert forall|k: int| 0 <= k < f.len() implies is_candidate(mk, #[trigger] f[k] as int) by {
        assert(f.contains(f[k]));
        let x = f[k];
        let j = choose|j: int| 0 <= j < all.len() && all[j] == x;
        assert(is_candidate(keys, all[j] as int));
    }
    assert forall|a: int, b: int| 0 <= a < b < o.len() implies ranks_before(
        mk,
        #[trigger] o[a] as int,
        #[trigger] o[b] as int,
    ) by {
        assert(ranks_before(keys, f[a] as int, f[b] as int));
        assert(is_candidate(mk, f[a] as int) && is_candidate(mk, f[b] as int));
    }
    assert forall|i: int| is_candidate(mk, i) && !o.contains(i as usize) implies {
        &&& o.len() == limit
        &&& forall|k: int| 0 <= k < o.len() ==> ranks_before(mk, #[trigger] o[k] as int, i)
    } by {
        assert(keep[i] && is_candidate(keys, i));
        assert(all.contains(i as usize));
        assert(f.contains(i as usize));
        let p = choose|p: int| 0 <= p < f.len() && f[p] == i as usize;
        if p < limit {
            assert(o[p] == i as usize);
            assert(o.contains(i as usize));
        }
        assert(p >= limit);
        assert forall|k: int| 0 <= k < o.len() implies ranks_before(mk, #[trigger] o[k] as int, i) by {
            assert(ranks_before(keys, f[k] as int, f[p] as int));
            assert(is_candidate(mk, f[k] as int));
        }
    }
    assert(is_ranking(mk, limit, o));
    lemma_ranking_unique(mk, limit, some, o);
}

} // verus!
