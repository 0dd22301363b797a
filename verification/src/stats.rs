//! Statistics over the records of a store.

use vstd::prelude::*;
use crate::kind::{stats_label, TileKind};
use crate::rank::{is_candidate, is_ranking, lemma_distinct_missing_shorter, rank_candidates, ranks_before};

verus! {

/// Statistics about the store.
#[derive(Debug, Clone)]
pub struct StoreStats {
    pub total_tiles: u64,
    pub total_bytes: u64,
    pub kind_counts: Vec<(String, u64)>,
}

/// One record of the tile tree as statistics see it: its size in bytes and,
/// when the record could be read as a tile, the tile's kind.
pub struct StatRow {
    pub bytes: u64,
    pub kind: Option<TileKind>,
}

/// The sizes of the records, added up.
pub open spec fn total_bytes_of(rows: Seq<StatRow>) -> int
    decreases rows.len(),
{
    if rows.len() == 0 {
        0
    } else {
        total_bytes_of(rows.drop_last()) + rows.last().bytes
    }
}

/// A record was read as a tile whose kind has this statistics label.
pub open spec fn has_label(row: StatRow, label: Seq<char>) -> bool {
    row.kind matches Some(k) && stats_label(k@) == label
}

/// The number of records read as tiles of a kind with this label.
pub open spec fn label_count(rows: Seq<StatRow>, label: Seq<char>) -> nat
    decreases rows.len(),
{
    if rows.len() == 0 {
        0
    } else {
        label_count(rows.drop_last(), label) + if has_label(rows.last(), label) {
            1nat
        } else {
            0nat
        }
    }
}

/// `counts` lists each label that some record has exactly once, with the
/// number of records that have it, and lists no other label.
pub open spec fn counts_labels(rows: Seq<StatRow>, counts: Seq<(String, u64)>) -> bool {
    &&& forall|a: int, b: int| 0 <= a < b < counts.len() ==> counts[a].0@ != counts[b].0@
    &&& forall|a: int|
        0 <= a < counts.len() ==> #[trigger] counts[a].1 == label_count(rows, counts[a].0@)
            && counts[a].1 > 0
    &&& forall|label: Seq<char>|
        label_count(rows, label) > 0 ==> exists|a: int| 0 <= a < counts.len() && #[trigger] counts[a].0@ == label
}

/// `labels` and `counts` list each label that some record has exactly once,
/// with the number of records that have it, and list no other label.
pub open spec fn grouped(rows: Seq<StatRow>, labels: Seq<String>, counts: Seq<u64>) -> bool {
    &&& labels.len() == counts.len()
    &&& forall|a: int, b: int| 0 <= a < b < labels.len() ==> labels[a]@ != labels[b]@
    &&& forall|a: int|
        0 <= a < counts.len() ==> #[trigger] counts[a] == label_count(rows, labels[a]@) && counts[a] > 0
    &&& forall|label: Seq<char>|
        label_count(rows, label) > 0 ==> exists|a: int| 0 <= a < labels.len() && #[trigger] labels[a]@ == label
}

/// The total of a prefix of the records is at most the total of all of them.
proof fn lemma_prefix_total(rows: Seq<StatRow>, i: int)
    requires
        0 <= i <= rows.len(),
    ensures
        0 <= total_bytes_of(rows.subrange(0, i)) <= total_bytes_of(rows),
    decreases rows.len(),
{
    if rows.len() > 0 {
        if i == rows.len() {
            assert(rows.subrange(0, i) =~= rows);
            lemma_prefix_total(rows.drop_last(), i - 1);
            assert(rows.drop_last().subrange(0, i - 1) =~= rows.drop_last());
        } else {
            lemma_prefix_total(rows.drop_last(), i);
            assert(rows.drop_last().subrange(0, i) =~= rows.subrange(0, i));
        }
    }
}

impl StoreStats {
    /// Statistics over the records of the tile tree: the number of tiles the
    /// tree reports, the sizes of all records added up, and for each kind
    /// label the number of records read as tiles of that kind, most frequent
    /// first.
    pub fn summarize(total_tiles: u64, rows: &[StatRow]) -> (stats: StoreStats)
        requires
            total_bytes_of(rows@) <= u64::MAX,
        ensures
            stats.total_tiles == total_tiles,
            stats.total_bytes == total_bytes_of(rows@),
            counts_labels(rows@, stats.kind_counts@),
            forall|a: int, b: int|
                0 <= a < b < stats.kind_counts@.len() ==> stats.kind_counts@[a].1 >= stats.kind_counts@[b].1,
    {
        let n = rows.len();
        let mut total: u64 = 0;
        let mut labels: Vec<String> = Vec::new();
        let mut counts: Vec<u64> = Vec::new();
        for i in 0..n
            invariant
                n == rows@.len(),
                total_bytes_of(rows@) <= u64::MAX,
                total == total_bytes_of(rows@.subrange(0, i as int)),
                grouped(rows@.subrange(0, i as int), labels@, counts@),
                forall|a: int| 0 <= a < counts@.len() ==> #[trigger] counts@[a] <= i,
        {
            let ghost prefix = rows@.subrange(0, i as int);
            let ghost next = rows@.subrange(0, i + 1);
            assert(next.drop_last() =~= prefix);
            assert(next.last() == rows@[i as int]);
            proof {
                lemma_prefix_total(rows@, i + 1);
            }
            let row = &rows[i];
            total = total + row.bytes;
            match &row.kind {
                None => {
                    assert forall|label: Seq<char>| label_count(next, label) == label_count(prefix, label) by {}
                    assert(grouped(next, labels@, counts@));
                },
                Some(kind) => {
                    let label = kind.stats_label();
                    let m = labels.len();
                    let mut found: Option<usize> = None;
                    for j in 0..m
                        invariant
                            m == labels@.len(),
                            found matches Some(f) ==> f < m && labels@[f as int]@ == label@,
                            found is None ==> forall|b: int| 0 <= b < j ==> labels@[b]@ != label@,
                    {
                        if found.is_none() && labels[j].eq(&label) {
                            found = Some(j);
                        }
                    }
                    assert forall|l: Seq<char>| l != label@ implies label_count(next, l) == label_count(prefix, l) by {}
                    assert(label_count(next, label@) == label_count(prefix, label@) + 1);
                    match found {
                        Some(f) => {
                            let c = counts[f];
                            let ghost old_counts = counts@;
                            counts.set(f, c + 1);
                            assert forall|a: int| 0 <= a < counts@.len() implies #[trigger] counts@[a]
                                == label_count(next, labels@[a]@) && counts@[a] > 0 && counts@[a] <= i + 1 by {
                                if a != f {
                                    assert(labels@[a]@ != label@);
                                    assert(counts@[a] == old_counts[a]);
                                }
                            }
                            assert forall|l: Seq<char>| label_count(next, l) > 0 implies exists|a: int|
                                0 <= a < labels@.len() && #[trigger] labels@[a]@ == l by {
                                if l == label@ {
                                    assert(labels@[f as int]@ == l);
                                } else {
                                    assert(label_count(prefix, l) > 0);
                                }
                            }
                            assert(grouped(next, labels@, counts@));
                        },
                        None => {
                            let ghost old_labels = labels@;
                            let ghost label_view = label@;
                            assert(label_count(prefix, label_view) == 0) by {
                                if label_count(prefix, label_view) > 0 {
                                    let a = choose|a: int| 0 <= a < old_labels.len() && #[trigger] old_labels[a]@ == label_view;
                                    assert(old_labels[a]@ != label_view);
                                }
                            }
                            labels.push(label);
                            counts.push(1);
                            assert forall|a: int| 0 <= a < counts@.len() implies #[trigger] counts@[a]
                                == label_count(next, labels@[a]@) && counts@[a] > 0 && counts@[a] <= i + 1 by {
                                if a < old_labels.len() {
                                    assert(labels@[a] == old_labels[a]);
                                }
                            }
                            assert forall|l: Seq<char>| label_count(next, l) > 0 implies exists|a: int|
                                0 <= a < labels@.len() && #[trigger] labels@[a]@ == l by {
                                if l == label_view {
                                    assert(labels@[old_labels.len() as int]@ == l);
                                } else {
                                    assert(label_count(prefix, l) > 0);
                                    let a = choose|a: int| 0 <= a < old_labels.len() && #[trigger] old_labels[a]@ == l;
                                    assert(labels@[a] == old_labels[a]);
                                }
                            }
                            assert forall|a: int, b: int| 0 <= a < b < labels@.len() implies labels@[a]@ != labels@[b]@ by {
                                if b == old_labels.len() {
                                    assert(labels@[a] == old_labels[a]);
                                } else {
                                    assert(labels@[a] == old_labels[a]);
                                    assert(labels@[b] == old_labels[b]);
                                }
                            }
                            assert(grouped(next, labels@, counts@));
                        },
                    }
                },
            }
        }
        assert(rows@.subrange(0, n as int) =~= rows@);
        let m = counts.len();
        let mut keys: Vec<Option<u64>> = Vec::new();
        for j in 0..m
            invariant
                m == counts@.len(),
                grouped(rows@, labels@, counts@),
                keys@.len() == j,
                forall|a: int| 0 <= a < j ==> #[trigger] keys@[a] == Some(counts@[a]),
        {
            keys.push(Some(counts[j]));
        }
        let order = rank_candidates(keys.as_slice(), m);
        proof {
            assert forall|a: int| 0 <= a < m implies #[trigger] order@.contains(a as usize) by {
                assert(keys@[a] == Some(counts@[a]));
                assert(is_candidate(keys@, a));
                if !order@.contains(a as usize) {
                    assert(order@.len() == m);
                    assert forall|x: int, y: int| 0 <= x < y < order@.len() implies order@[x] != order@[y] by {
                        assert(ranks_before(keys@, order@[x] as int, order@[y] as int));
                    }
                    assert forall|k: int| 0 <= k < order@.len() implies order@[k] < m by {
                        assert(order@[k] < keys@.len());
                    }
                    lemma_distinct_missing_shorter(order@, m as int, a as usize);
                }
            }
        }
        let len = order.len();
        let mut kind_counts: Vec<(String, u64)> = Vec::new();
        for k in 0..len
            invariant
                len == order@.len(),
                m == counts@.len(),
                m == labels@.len(),
                is_ranking(keys@, m as int, order@),
                keys@.len() == m,
                grouped(rows@, labels@, counts@),
                forall|a: int| 0 <= a < m ==> #[trigger] order@.contains(a as usize),
                forall|a: int| 0 <= a < m ==> #[trigger] keys@[a] == Some(counts@[a]),
                kind_counts@.len() == k,
                forall|x: int|
                    #![trigger kind_counts@[x]]
                    0 <= x < k ==> kind_counts@[x].0@ == labels@[order@[x] as int]@
                        && kind_counts@[x].1 == counts@[order@[x] as int],
        {
            let idx = order[k];
            assert(is_candidate(keys@, order@[k as int] as int));
            kind_counts.push((labels[idx].clone(), counts[idx]));
        }
        proof {
            let kc = kind_counts@;
            assert forall|a: int, b: int| 0 <= a < b < kc.len() implies kc[a].0@ != kc[b].0@ by {
                assert(ranks_before(keys@, order@[a] as int, order@[b] as int));
                assert(kc[a].0@ == labels@[order@[a] as int]@);
                assert(kc[b].0@ == labels@[order@[b] as int]@);
                assert(order@[a] != order@[b]);
            }
            assert forall|a: int, b: int| 0 <= a < b < kc.len() implies kc[a].1 >= kc[b].1 by {
                assert(ranks_before(keys@, order@[a] as int, order@[b] as int));
                assert(kc[a].1 == counts@[order@[a] as int]);
                assert(kc[b].1 == counts@[order@[b] as int]);
            }
            assert forall|a: int| 0 <= a < kc.len() implies #[trigger] kc[a].1 == label_count(rows@, kc[a].0@)
                && kc[a].1 > 0 by {
                assert(kc[a].1 == counts@[order@[a] as int]);
            }
            assert forall|label: Seq<char>| label_count(rows@, label) > 0 implies exists|a: int|
                0 <= a < kc.len() && #[trigger] kc[a].0@ == label by {
                let g = choose|g: int| 0 <= g < labels@.len() && #[trigger] labels@[g]@ == label;
                assert(order@.contains(g as usize));
                let x = choose|x: int| 0 <= x < order@.len() && order@[x] == g as usize;
                assert(kc[x].0@ == label);
            }
        }
        StoreStats { total_tiles, total_bytes: total, kind_counts }
    }
}

} // verus!
