//! The indexes list exactly the stored tiles.
//!
//! A catalog records, for each stored tile id, the kind and source it was
//! stored with. Storing a tile (which takes out the index entries of the tile
//! it replaces) and removing an orphan keep each tree in agreement with the
//! catalog, and a prefix scan of an index in agreement finds exactly the
//! catalogued tiles of that kind or source.

use vstd::prelude::*;
use crate::ids::{be_bytes, lemma_be_bytes_injective};
use crate::keys::{
    kind_key_of, kind_prefix_of, lemma_index_keys_determine_id, lemma_kind_scan_exact,
    lemma_source_scan_exact, source_key_of, source_prefix_of,
};
use crate::kind::KindView;
use crate::layout::{
    apply_ops, cleared_kinds, cleared_sources, compact_ops_of, lemma_compact_removes_orphan,
    lemma_store_then_read, store_ops_of, Prior, StoreView,
};

verus! {

/// The kind and source that each stored tile id was stored with.
pub type Catalog = Map<u128, (KindView, Option<u128>)>;

/// The kind and source catalogued for an id, if any: what storing a tile
/// under that id replaces.
pub open spec fn prior_of(cat: Catalog, id: u128) -> Prior {
    if cat.contains_key(id) {
        Some(cat[id])
    } else {
        None
    }
}

/// The tiles tree holds a record for exactly the catalogued ids.
pub open spec fn tiles_match(db: StoreView, cat: Catalog) -> bool {
    forall|k: Seq<u8>|
        #[trigger] db.tiles.contains_key(k) <==> exists|id: u128| #[trigger] cat.contains_key(id) && k == be_bytes(id)
}

/// The kind index holds exactly the kind index keys of the catalogued tiles,
/// each mapped to the tile's id bytes.
pub open spec fn kinds_match(db: StoreView, cat: Catalog) -> bool {
    &&& forall|k: Seq<u8>|
        #[trigger] db.kinds.contains_key(k) <==> exists|id: u128|
            #[trigger] cat.contains_key(id) && k == kind_key_of(cat[id].0, id)
    &&& forall|id: u128|
        #[trigger] cat.contains_key(id) ==> db.kinds[kind_key_of(cat[id].0, id)] == be_bytes(id)
}

/// The source index holds exactly the source index keys of the catalogued
/// tiles that have a source, each mapped to the tile's id bytes.
pub open spec fn sources_match(db: StoreView, cat: Catalog) -> bool {
    &&& forall|k: Seq<u8>|
        #[trigger] db.sources.contains_key(k) <==> exists|id: u128|
            #[trigger] cat.contains_key(id) && cat[id].1 is Some && k == source_key_of(cat[id].1->0, id)
    &&& forall|id: u128|
        #[trigger] cat.contains_key(id) && cat[id].1 is Some ==> db.sources[source_key_of(cat[id].1->0, id)]
            == be_bytes(id)
}

/// All three trees agree with the catalog.
pub open spec fn indexes_match(db: StoreView, cat: Catalog) -> bool {
    tiles_match(db, cat) && kinds_match(db, cat) && sources_match(db, cat)
}

/// The values of the index entries whose keys start with `prefix`: what a
/// prefix scan of the index yields.
pub open spec fn scan_values(index: Map<Seq<u8>, Seq<u8>>, prefix: Seq<u8>) -> Set<Seq<u8>> {
    Set::new(
        |v: Seq<u8>|
            exists|k: Seq<u8>| #[trigger] index.contains_key(k) && prefix.is_prefix_of(k) && index[k] == v,
    )
}

/// The id bytes of the catalogued tiles of a kind.
pub open spec fn ids_of_kind(cat: Catalog, kind: KindView) -> Set<Seq<u8>> {
    Set::new(
        |v: Seq<u8>| exists|id: u128| #[trigger] cat.contains_key(id) && cat[id].0 == kind && v == be_bytes(id),
    )
}

/// The id bytes of the catalogued tiles with this source.
pub open spec fn ids_with_source(cat: Catalog, source: u128) -> Set<Seq<u8>> {
    Set::new(
        |v: Seq<u8>|
            exists|id: u128| #[trigger] cat.contains_key(id) && cat[id].1 == Some(source) && v == be_bytes(id),
    )
}

/// Two tiles with different ids have different kind index keys.
proof fn lemma_kind_keys_distinct(k1: KindView, a: u128, k2: KindView, b: u128)
    requires
        kind_key_of(k1, a) == kind_key_of(k2, b),
    ensures
        a == b,
{
    lemma_index_keys_determine_id(k1, 0, a);
    lemma_index_keys_determine_id(k2, 0, b);
    let key = kind_key_of(k1, a);
    assert(key.subrange(key.len() - 16, key.len() as int) == be_bytes(a));
    assert(key.subrange(key.len() - 16, key.len() as int) == be_bytes(b));
    lemma_be_bytes_injective(a, b);
}

/// Two tiles with different ids have different source index keys.
proof fn lemma_source_keys_distinct(s1: u128, a: u128, s2: u128, b: u128)
    requires
        source_key_of(s1, a) == source_key_of(s2, b),
    ensures
        a == b,
{
    lemma_index_keys_determine_id(KindView::Text, s1, a);
    lemma_index_keys_determine_id(KindView::Text, s2, b);
    lemma_be_bytes_injective(a, b);
}

/// The state after storing one tile, given the one before: the trees after
/// its operations (taking out what the catalog says the replaced tile had)
/// and the catalog that records it.
pub open spec fn store_step(db: StoreView, cat: Catalog, id: u128, kind: KindView, source: Option<u128>, record: Seq<u8>) -> (StoreView, Catalog) {
    (
        apply_ops(db, store_ops_of(id, kind, source, prior_of(cat, id), record)),
        cat.insert(id, (kind, source)),
    )
}

/// Storing a tile keeps each tree in agreement with the catalog, whatever
/// kind and source the id had before.
pub proof fn lemma_store_keeps_indexes(
    db: StoreView,
    cat: Catalog,
    id: u128,
    kind: KindView,
    source: Option<u128>,
    record: Seq<u8>,
)
    ensures
        ({
            let (after, cat2) = store_step(db, cat, id, kind, source, record);
            &&& tiles_match(db, cat) ==> tiles_match(after, cat2)
            &&& kinds_match(db, cat) ==> kinds_match(after, cat2)
            &&& sources_match(db, cat) ==> sources_match(after, cat2)
        }),
{
    let prior = prior_of(cat, id);
    lemma_store_then_read(db, id, kind, source, prior, record);
    let (after, cat2) = store_step(db, cat, id, kind, source, record);
    if tiles_match(db, cat) {
        assert forall|k: Seq<u8>| #[trigger] after.tiles.contains_key(k) <==> exists|x: u128|
            #[trigger] cat2.contains_key(x) && k == be_bytes(x) by {
            if after.tiles.contains_key(k) {
                if k == be_bytes(id) {
                    assert(cat2.contains_key(id));
                } else {
                    assert(db.tiles.contains_key(k));
                    let x = choose|x: u128| #[trigger] cat.contains_key(x) && k == be_bytes(x);
                    assert(cat2.contains_key(x));
                }
            }
            if exists|x: u128| #[trigger] cat2.contains_key(x) && k == be_bytes(x) {
                let x = choose|x: u128| #[trigger] cat2.contains_key(x) && k == be_bytes(x);
                if x != id {
                    assert(cat.contains_key(x));
                    assert(db.tiles.contains_key(k));
                }
            }
        }
    }
    if kinds_match(db, cat) {
        let newk = kind_key_of(kind, id);
        assert forall|k: Seq<u8>| #[trigger] after.kinds.contains_key(k) <==> exists|x: u128|
            #[trigger] cat2.contains_key(x) && k == kind_key_of(cat2[x].0, x) by {
            if after.kinds.contains_key(k) {
                if k == newk {
                    assert(cat2.contains_key(id));
                } else {
                    assert(db.kinds.contains_key(k));
                    let x = choose|x: u128| #[trigger] cat.contains_key(x) && k == kind_key_of(cat[x].0, x);
                    if x == id {
                        assert(cleared_kinds(db.kinds, id, prior) == db.kinds.remove(k));
                    }
                    assert(cat2.contains_key(x));
                }
            }
            if exists|x: u128| #[trigger] cat2.contains_key(x) && k == kind_key_of(cat2[x].0, x) {
                let x = choose|x: u128| #[trigger] cat2.contains_key(x) && k == kind_key_of(cat2[x].0, x);
                if x != id {
                    assert(cat.contains_key(x));
                    assert(db.kinds.contains_key(k));
                    if cat.contains_key(id) && k == kind_key_of(cat[id].0, id) {
                        lemma_kind_keys_distinct(cat[x].0, x, cat[id].0, id);
                    }
                }
            }
        }
        assert forall|x: u128| #[trigger] cat2.contains_key(x) implies after.kinds[kind_key_of(cat2[x].0, x)]
            == be_bytes(x) by {
            if x != id {
                let k = kind_key_of(cat2[x].0, x);
                if k == newk {
                    lemma_kind_keys_distinct(cat2[x].0, x, kind, id);
                }
                if cat.contains_key(id) && k == kind_key_of(cat[id].0, id) {
                    lemma_kind_keys_distinct(cat[x].0, x, cat[id].0, id);
                }
            }
        }
    }
    if sources_match(db, cat) {
        assert forall|k: Seq<u8>| #[trigger] after.sources.contains_key(k) <==> exists|x: u128|
            #[trigger] cat2.contains_key(x) && cat2[x].1 is Some && k == source_key_of(cat2[x].1->0, x) by {
            if after.sources.contains_key(k) {
                if source is Some && k == source_key_of(source->0, id) {
                    assert(cat2.contains_key(id));
                } else {
                    assert(cleared_sources(db.sources, id, prior).contains_key(k));
                    assert(db.sources.contains_key(k));
                    let x = choose|x: u128|
                        #[trigger] cat.contains_key(x) && cat[x].1 is Some && k == source_key_of(cat[x].1->0, x);
                    if x == id {
                        assert(cleared_sources(db.sources, id, prior) == db.sources.remove(k));
                    }
                    assert(cat2.contains_key(x));
                }
            }
            if exists|x: u128| #[trigger] cat2.contains_key(x) && cat2[x].1 is Some && k == source_key_of(cat2[x].1->0, x) {
                let x = choose|x: u128|
                    #[trigger] cat2.contains_key(x) && cat2[x].1 is Some && k == source_key_of(cat2[x].1->0, x);
                if x != id {
                    assert(cat.contains_key(x));
                    assert(db.sources.contains_key(k));
                    if cat.contains_key(id) && cat[id].1 is Some && k == source_key_of(cat[id].1->0, id) {
                        lemma_source_keys_distinct(cat[x].1->0, x, cat[id].1->0, id);
                    }
                    assert(cleared_sources(db.sources, id, prior).contains_key(k));
                }
            }
        }
        assert forall|x: u128| #[trigger] cat2.contains_key(x) && cat2[x].1 is Some implies after.sources[source_key_of(
            cat2[x].1->0,
            x,
        )] == be_bytes(x) by {
            if x != id {
                let k = source_key_of(cat2[x].1->0, x);
                if source is Some && k == source_key_of(source->0, id) {
                    lemma_source_keys_distinct(cat2[x].1->0, x, source->0, id);
                }
                if cat.contains_key(id) && cat[id].1 is Some && k == source_key_of(cat[id].1->0, id) {
                    lemma_source_keys_distinct(cat[x].1->0, x, cat[id].1->0, id);
                }
                assert(cleared_sources(db.sources, id, prior)[k] == db.sources[k]);
            }
        }
    }
}

/// Removing an orphan keeps each tree in agreement with the catalog without
/// it.
pub proof fn lemma_compact_keeps_indexes(db: StoreView, cat: Catalog, existing: Set<u128>, id: u128)
    requires
        cat.contains_key(id),
        compact_ops_of(existing, id, cat[id].0, cat[id].1) is Some,
    ensures
        ({
            let after = apply_ops(db, compact_ops_of(existing, id, cat[id].0, cat[id].1)->0);
            let cat2 = cat.remove(id);
            &&& tiles_match(db, cat) ==> tiles_match(after, cat2)
            &&& kinds_match(db, cat) ==> kinds_match(after, cat2)
            &&& sources_match(db, cat) ==> sources_match(after, cat2)
        }),
{
    let (kind, source) = cat[id];
    lemma_compact_removes_orphan(db, existing, id, kind, source);
    let s = source->0;
    let after = apply_ops(db, compact_ops_of(existing, id, kind, source)->0);
    let cat2 = cat.remove(id);
    if tiles_match(db, cat) {
        assert forall|k: Seq<u8>| #[trigger] after.tiles.contains_key(k) <==> exists|x: u128|
            #[trigger] cat2.contains_key(x) && k == be_bytes(x) by {
            if after.tiles.contains_key(k) {
                let x = choose|x: u128| #[trigger] cat.contains_key(x) && k == be_bytes(x);
                assert(x != id);
                assert(cat2.contains_key(x));
            }
            if exists|x: u128| #[trigger] cat2.contains_key(x) && k == be_bytes(x) {
                let x = choose|x: u128| #[trigger] cat2.contains_key(x) && k == be_bytes(x);
                assert(cat.contains_key(x));
                if k == be_bytes(id) {
                    lemma_be_bytes_injective(x, id);
                }
            }
        }
    }
    if kinds_match(db, cat) {
        assert forall|k: Seq<u8>| #[trigger] after.kinds.contains_key(k) <==> exists|x: u128|
            #[trigger] cat2.contains_key(x) && k == kind_key_of(cat2[x].0, x) by {
            if after.kinds.contains_key(k) {
                let x = choose|x: u128| #[trigger] cat.contains_key(x) && k == kind_key_of(cat[x].0, x);
                assert(x != id);
                assert(cat2.contains_key(x));
            }
            if exists|x: u128| #[trigger] cat2.contains_key(x) && k == kind_key_of(cat2[x].0, x) {
                let x = choose|x: u128| #[trigger] cat2.contains_key(x) && k == kind_key_of(cat2[x].0, x);
                assert(cat.contains_key(x));
                if k == kind_key_of(kind, id) {
                    lemma_kind_keys_distinct(cat2[x].0, x, kind, id);
                }
            }
        }
        assert forall|x: u128| #[trigger] cat2.contains_key(x) implies after.kinds[kind_key_of(cat2[x].0, x)]
            == be_bytes(x) by {
            assert(cat.contains_key(x));
            if kind_key_of(cat2[x].0, x) == kind_key_of(kind, id) {
                lemma_kind_keys_distinct(cat2[x].0, x, kind, id);
            }
        }
    }
    if sources_match(db, cat) {
        assert forall|k: Seq<u8>| #[trigger] after.sources.contains_key(k) <==> exists|x: u128|
            #[trigger] cat2.contains_key(x) && cat2[x].1 is Some && k == source_key_of(cat2[x].1->0, x) by {
            if after.sources.contains_key(k) {
                let x = choose|x: u128|
                    #[trigger] cat.contains_key(x) && cat[x].1 is Some && k == source_key_of(cat[x].1->0, x);
                assert(x != id);
                assert(cat2.contains_key(x));
            }
            if exists|x: u128| #[trigger] cat2.contains_key(x) && cat2[x].1 is Some && k == source_key_of(cat2[x].1->0, x) {
                let x = choose|x: u128|
                    #[trigger] cat2.contains_key(x) && cat2[x].1 is Some && k == source_key_of(cat2[x].1->0, x);
                assert(cat.contains_key(x));
                if k == source_key_of(s, id) {
                    lemma_source_keys_distinct(cat2[x].1->0, x, s, id);
                }
            }
        }
        assert forall|x: u128| #[trigger] cat2.contains_key(x) && cat2[x].1 is Some implies after.sources[source_key_of(
            cat2[x].1->0,
            x,
        )] == be_bytes(x) by {
            assert(cat.contains_key(x));
            if source_key_of(cat2[x].1->0, x) == source_key_of(s, id) {
                lemma_source_keys_distinct(cat2[x].1->0, x, s, id);
            }
        }
    }
}

/// A scan of a kind index in agreement with the catalog, under the prefix of
/// a kind, finds the ids of exactly the catalogued tiles of that kind; when
/// the tiles tree agrees too, each of them has a record there.
pub proof fn lemma_kind_scan_finds_stored(db: StoreView, cat: Catalog, scanned: KindView)
    requires
        kinds_match(db, cat),
    ensures
        scan_values(db.kinds, kind_prefix_of(scanned)) == ids_of_kind(cat, scanned),
        tiles_match(db, cat) ==> forall|v: Seq<u8>|
            #[trigger] scan_values(db.kinds, kind_prefix_of(scanned)).contains(v) ==> db.tiles.contains_key(v),
{
    let found = scan_values(db.kinds, kind_prefix_of(scanned));
    let expected = ids_of_kind(cat, scanned);
    assert forall|v: Seq<u8>| found.contains(v) implies expected.contains(v) && (tiles_match(db, cat)
        ==> db.tiles.contains_key(v)) by {
        let k = choose|k: Seq<u8>|
            #[trigger] db.kinds.contains_key(k) && kind_prefix_of(scanned).is_prefix_of(k) && db.kinds[k] == v;
        let id = choose|id: u128| #[trigger] cat.contains_key(id) && k == kind_key_of(cat[id].0, id);
        lemma_kind_scan_exact(cat[id].0, id, scanned);
        assert(v == be_bytes(id));
        if tiles_match(db, cat) {
            assert(db.tiles.contains_key(be_bytes(id)));
        }
    }
    assert forall|v: Seq<u8>| expected.contains(v) implies found.contains(v) by {
        let id = choose|id: u128| #[trigger] cat.contains_key(id) && cat[id].0 == scanned && v == be_bytes(id);
        let k = kind_key_of(cat[id].0, id);
        lemma_kind_scan_exact(cat[id].0, id, scanned);
        assert(db.kinds.contains_key(k));
    }
    assert(found =~= expected);
}

/// A scan of a source index in agreement with the catalog, under the prefix
/// of a source, finds the ids of exactly the catalogued tiles with that
/// source; when the tiles tree agrees too, each of them has a record there.
pub proof fn lemma_source_scan_finds_stored(db: StoreView, cat: Catalog, scanned: u128)
    requires
        sources_match(db, cat),
    ensures
        scan_values(db.sources, source_prefix_of(scanned)) == ids_with_source(cat, scanned),
        tiles_match(db, cat) ==> forall|v: Seq<u8>|
            #[trigger] scan_values(db.sources, source_prefix_of(scanned)).contains(v) ==> db.tiles.contains_key(v),
{
    let found = scan_values(db.sources, source_prefix_of(scanned));
    let expected = ids_with_source(cat, scanned);
    assert forall|v: Seq<u8>| found.contains(v) implies expected.contains(v) && (tiles_match(db, cat)
        ==> db.tiles.contains_key(v)) by {
        let k = choose|k: Seq<u8>|
            #[trigger] db.sources.contains_key(k) && source_prefix_of(scanned).is_prefix_of(k) && db.sources[k] == v;
        let id = choose|id: u128|
            #[trigger] cat.contains_key(id) && cat[id].1 is Some && k == source_key_of(cat[id].1->0, id);
        lemma_source_scan_exact(cat[id].1->0, id, scanned);
        assert(v == be_bytes(id));
        if tiles_match(db, cat) {
            assert(db.tiles.contains_key(be_bytes(id)));
        }
    }
    assert forall|v: Seq<u8>| expected.contains(v) implies found.contains(v) by {
        let id = choose|id: u128| #[trigger] cat.contains_key(id) && cat[id].1 == Some(scanned) && v == be_bytes(id);
        let k = source_key_of(scanned, id);
        lemma_source_scan_exact(scanned, id, scanned);
        assert(db.sources.contains_key(k));
    }
    assert(found =~= expected);
}

/// One tile handed to store, as the laws see it: its id, kind, source and
/// serialized record.
pub struct Stored {
    pub id: u128,
    pub kind: KindView,
    pub source: Option<u128>,
    pub record: Seq<u8>,
}

/// The state after storing a batch of tiles one after the other.
pub open spec fn store_batch(db: StoreView, cat: Catalog, batch: Seq<Stored>) -> (StoreView, Catalog)
    decreases batch.len(),
{
    if batch.len() == 0 {
        (db, cat)
    } else {
        let (d, c) = store_batch(db, cat, batch.drop_last());
        let e = batch.last();
        store_step(d, c, e.id, e.kind, e.source, e.record)
    }
}

/// The tile keys of a batch.
pub open spec fn batch_keys(batch: Seq<Stored>) -> Set<Seq<u8>>
    decreases batch.len(),
{
    if batch.len() == 0 {
        Set::empty()
    } else {
        batch_keys(batch.drop_last()).insert(be_bytes(batch.last().id))
    }
}

/// After a batch, an id's catalogued kind and source come from the last
/// tile of the batch with that id, or, when the batch has none, from before.
pub open spec fn catalogued_from(cat: Catalog, batch: Seq<Stored>, after: Catalog, id: u128) -> bool {
    ||| exists|j: int|
        0 <= j < batch.len() && #[trigger] batch[j].id == id && after[id] == (batch[j].kind, batch[j].source)
    ||| cat.contains_key(id) && after[id] == cat[id]
}

/// Storing a batch keeps each tree in agreement with the catalog.
pub proof fn lemma_batch_keeps_indexes(db: StoreView, cat: Catalog, batch: Seq<Stored>)
    ensures
        ({
            let (after, cat2) = store_batch(db, cat, batch);
            &&& tiles_match(db, cat) ==> tiles_match(after, cat2)
            &&& kinds_match(db, cat) ==> kinds_match(after, cat2)
            &&& sources_match(db, cat) ==> sources_match(after, cat2)
        }),
    decreases batch.len(),
{
    if batch.len() > 0 {
        lemma_batch_keeps_indexes(db, cat, batch.drop_last());
        let (d, c) = store_batch(db, cat, batch.drop_last());
        let e = batch.last();
        lemma_store_keeps_indexes(d, c, e.id, e.kind, e.source, e.record);
    }
}

/// After a batch, each tile of the batch that no later tile of the batch
/// replaces can be read back under its id, and the catalog records its kind
/// and source (so the kind and source scans find it).
pub proof fn lemma_batch_then_read(db: StoreView, cat: Catalog, batch: Seq<Stored>, i: int)
    requires
        0 <= i < batch.len(),
        forall|j: int| i < j < batch.len() ==> #[trigger] batch[j].id != batch[i].id,
    ensures
        ({
            let (after, cat2) = store_batch(db, cat, batch);
            let e = batch[i];
            &&& after.tiles.contains_key(be_bytes(e.id))
            &&& after.tiles[be_bytes(e.id)] == e.record
            &&& cat2.contains_key(e.id)
            &&& cat2[e.id] == (e.kind, e.source)
        }),
    decreases batch.len(),
{
    let (d, c) = store_batch(db, cat, batch.drop_last());
    let last = batch.last();
    lemma_store_then_read(d, last.id, last.kind, last.source, prior_of(c, last.id), last.record);
    if i < batch.len() - 1 {
        assert forall|j: int| i < j < batch.drop_last().len() implies #[trigger] batch.drop_last()[j].id
            != batch.drop_last()[i].id by {
            assert(batch.drop_last()[j] == batch[j]);
        }
        lemma_batch_then_read(db, cat, batch.drop_last(), i);
        assert(batch.drop_last()[i] == batch[i]);
        assert(last.id != batch[i].id);
        if be_bytes(last.id) == be_bytes(batch[i].id) {
            lemma_be_bytes_injective(last.id, batch[i].id);
        }
    }
}

/// After a batch, the catalog holds exactly the ids catalogued before and
/// the ids of the batch, each with the kind and source of the last tile of
/// the batch with that id, or as before when the batch has none.
pub proof fn lemma_batch_catalog(db: StoreView, cat: Catalog, batch: Seq<Stored>)
    ensures
        ({
            let cat2 = store_batch(db, cat, batch).1;
            forall|id: u128| #[trigger] cat2.contains_key(id) ==> catalogued_from(cat, batch, cat2, id)
        }),
    decreases batch.len(),
{
    if batch.len() > 0 {
        let prev = batch.drop_last();
        lemma_batch_catalog(db, cat, prev);
        let c = store_batch(db, cat, prev).1;
        let cat2 = store_batch(db, cat, batch).1;
        let last = batch.last();
        assert forall|id: u128| #[trigger] cat2.contains_key(id) implies catalogued_from(cat, batch, cat2, id) by {
            if id == last.id {
                assert(batch[batch.len() - 1].id == id);
            } else {
                assert(c.contains_key(id));
                assert(cat2[id] == c[id]);
                if exists|j: int| 0 <= j < prev.len() && #[trigger] prev[j].id == id && c[id] == (prev[j].kind, prev[j].source) {
                    let j = choose|j: int| 0 <= j < prev.len() && #[trigger] prev[j].id == id && c[id] == (prev[j].kind, prev[j].source);
                    assert(batch[j] == prev[j]);
                }
            }
        }
    }
}

/// After a batch, the tiles tree holds the keys it held before and the keys
/// of the batch: every id new to the store adds one tile, an id stored
/// again adds none.
pub proof fn lemma_batch_tile_count(db: StoreView, cat: Catalog, batch: Seq<Stored>)
    ensures
        store_batch(db, cat, batch).0.tiles.dom() == db.tiles.dom() + batch_keys(batch),
        batch_keys(batch).finite(),
        db.tiles.dom().finite() ==> store_batch(db, cat, batch).0.tiles.dom().len() == db.tiles.dom().len()
            + batch_keys(batch).difference(db.tiles.dom()).len(),
    decreases batch.len(),
{
    if batch.len() > 0 {
        let prev = batch.drop_last();
        lemma_batch_tile_count(db, cat, prev);
        let (d, c) = store_batch(db, cat, prev);
        let last = batch.last();
        lemma_store_then_read(d, last.id, last.kind, last.source, prior_of(c, last.id), last.record);
        assert(store_batch(db, cat, batch).0.tiles.dom() =~= db.tiles.dom() + batch_keys(batch));
    }
    let before = db.tiles.dom();
    let keys = batch_keys(batch);
    if before.finite() {
        assert(before + keys =~= before + keys.difference(before));
        assert(before.disjoint(keys.difference(before)));
        vstd::set_lib::lemma_set_disjoint_lens(before, keys.difference(before));
    }
}

/// A source that no catalogued tile and no tile of the batch has finds
/// nothing after the batch.
pub proof fn lemma_unused_source_finds_nothing(db: StoreView, cat: Catalog, batch: Seq<Stored>, unused: u128)
    requires
        sources_match(db, cat),
        forall|id: u128| #[trigger] cat.contains_key(id) ==> cat[id].1 != Some(unused),
        forall|j: int| 0 <= j < batch.len() ==> #[trigger] batch[j].source != Some(unused),
    ensures
        scan_values(store_batch(db, cat, batch).0.sources, source_prefix_of(unused)) == Set::<Seq<u8>>::empty(),
{
    let (after, cat2) = store_batch(db, cat, batch);
    lemma_batch_keeps_indexes(db, cat, batch);
    lemma_batch_catalog(db, cat, batch);
    lemma_source_scan_finds_stored(after, cat2, unused);
    assert forall|v: Seq<u8>| !ids_with_source(cat2, unused).contains(v) by {
        if ids_with_source(cat2, unused).contains(v) {
            let id = choose|id: u128| #[trigger] cat2.contains_key(id) && cat2[id].1 == Some(unused) && v == be_bytes(id);
            assert(catalogued_from(cat, batch, cat2, id));
            if exists|j: int| 0 <= j < batch.len() && #[trigger] batch[j].id == id && cat2[id] == (batch[j].kind, batch[j].source) {
                let j = choose|j: int| 0 <= j < batch.len() && #[trigger] batch[j].id == id && cat2[id] == (batch[j].kind, batch[j].source);
                assert(batch[j].source != Some(unused));
            }
        }
    }
    assert(ids_with_source(cat2, unused) =~= Set::<Seq<u8>>::empty());
}

/// Storing the same tile twice leaves the state that storing it once leaves.
proof fn lemma_step_twice(db: StoreView, cat: Catalog, e: Stored)
    ensures
        ({
            let (d1, c1) = store_step(db, cat, e.id, e.kind, e.source, e.record);
            store_step(d1, c1, e.id, e.kind, e.source, e.record) == (d1, c1)
        }),
{
    let (d1, c1) = store_step(db, cat, e.id, e.kind, e.source, e.record);
    lemma_store_then_read(db, e.id, e.kind, e.source, prior_of(cat, e.id), e.record);
    let (d2, c2) = store_step(d1, c1, e.id, e.kind, e.source, e.record);
    assert(prior_of(c1, e.id) == Some((e.kind, e.source)));
    lemma_store_then_read(d1, e.id, e.kind, e.source, prior_of(c1, e.id), e.record);
    assert(d2.tiles =~= d1.tiles);
    assert(d2.kinds =~= d1.kinds);
    assert(d2.sources =~= d1.sources);
    assert(c2 =~= c1);
}

/// Storing a tile and then another with the same id leaves the state that
/// storing only the second leaves.
proof fn lemma_step_overwrites(db: StoreView, cat: Catalog, f: Stored, e: Stored)
    requires
        kinds_match(db, cat),
        sources_match(db, cat),
        f.id == e.id,
    ensures
        ({
            let (d1, c1) = store_step(db, cat, f.id, f.kind, f.source, f.record);
            store_step(d1, c1, e.id, e.kind, e.source, e.record) == store_step(db, cat, e.id, e.kind, e.source, e.record)
        }),
{
    let id = e.id;
    let p = prior_of(cat, id);
    let (d1, c1) = store_step(db, cat, f.id, f.kind, f.source, f.record);
    lemma_store_then_read(db, id, f.kind, f.source, p, f.record);
    let q = prior_of(c1, id);
    assert(q == Some((f.kind, f.source)));
    lemma_store_then_read(d1, id, e.kind, e.source, q, e.record);
    lemma_store_then_read(db, id, e.kind, e.source, p, e.record);
    let (d2, c2) = store_step(d1, c1, e.id, e.kind, e.source, e.record);
    let (d3, c3) = store_step(db, cat, e.id, e.kind, e.source, e.record);
    let fk = kind_key_of(f.kind, id);
    let ck = cleared_kinds(db.kinds, id, p);
    assert(!ck.contains_key(fk)) by {
        if ck.contains_key(fk) {
            assert(db.kinds.contains_key(fk));
            let x = choose|x: u128| #[trigger] cat.contains_key(x) && fk == kind_key_of(cat[x].0, x);
            lemma_kind_keys_distinct(cat[x].0, x, f.kind, id);
        }
    }
    assert(d2.kinds =~= d3.kinds);
    let cs = cleared_sources(db.sources, id, p);
    if let Some(fs) = f.source {
        let fsk = source_key_of(fs, id);
        assert(!cs.contains_key(fsk)) by {
            if cs.contains_key(fsk) {
                assert(db.sources.contains_key(fsk));
                let x = choose|x: u128|
                    #[trigger] cat.contains_key(x) && cat[x].1 is Some && fsk == source_key_of(cat[x].1->0, x);
                lemma_source_keys_distinct(cat[x].1->0, x, fs, id);
            }
        }
        assert(cleared_sources(d1.sources, id, q) =~= cs);
    } else {
        assert(cleared_sources(d1.sources, id, q) =~= cs);
    }
    assert(d2.sources =~= d3.sources);
    assert(d2.tiles =~= d3.tiles);
    assert(c2 =~= c3);
}

/// Storing two tiles with different ids gives the same state in either order.
proof fn lemma_steps_commute(db: StoreView, cat: Catalog, f: Stored, e: Stored)
    requires
        f.id != e.id,
    ensures
        ({
            let (d1, c1) = store_step(db, cat, f.id, f.kind, f.source, f.record);
            let (d2, c2) = store_step(db, cat, e.id, e.kind, e.source, e.record);
            store_step(d1, c1, e.id, e.kind, e.source, e.record) == store_step(d2, c2, f.id, f.kind, f.source, f.record)
        }),
{
    let pf = prior_of(cat, f.id);
    let pe = prior_of(cat, e.id);
    let (d1, c1) = store_step(db, cat, f.id, f.kind, f.source, f.record);
    let (d2, c2) = store_step(db, cat, e.id, e.kind, e.source, e.record);
    assert(prior_of(c1, e.id) == pe);
    assert(prior_of(c2, f.id) == pf);
    lemma_store_then_read(db, f.id, f.kind, f.source, pf, f.record);
    lemma_store_then_read(db, e.id, e.kind, e.source, pe, e.record);
    lemma_store_then_read(d1, e.id, e.kind, e.source, pe, e.record);
    lemma_store_then_read(d2, f.id, f.kind, f.source, pf, f.record);
    let (a, ca) = store_step(d1, c1, e.id, e.kind, e.source, e.record);
    let (b, cb) = store_step(d2, c2, f.id, f.kind, f.source, f.record);
    if be_bytes(f.id) == be_bytes(e.id) {
        lemma_be_bytes_injective(f.id, e.id);
    }
    assert(a.tiles =~= b.tiles);
    // every kind key of one id differs from every kind key of the other
    assert forall|k1: KindView, k2: KindView| kind_key_of(k1, f.id) != kind_key_of(k2, e.id) by {
        if kind_key_of(k1, f.id) == kind_key_of(k2, e.id) {
            lemma_kind_keys_distinct(k1, f.id, k2, e.id);
        }
    }
    assert forall|s1: u128, s2: u128| source_key_of(s1, f.id) != source_key_of(s2, e.id) by {
        if source_key_of(s1, f.id) == source_key_of(s2, e.id) {
            lemma_source_keys_distinct(s1, f.id, s2, e.id);
        }
    }
    assert(a.kinds =~= b.kinds);
    assert(a.sources =~= b.sources);
    assert(ca =~= cb);
}

/// Storing a tile, then a batch, then the tile again leaves the state that
/// storing the batch and then the tile leaves.
proof fn lemma_step_absorbs(db: StoreView, cat: Catalog, batch: Seq<Stored>, e: Stored)
    requires
        kinds_match(db, cat),
        sources_match(db, cat),
    ensures
        ({
            let (d0, c0) = store_step(db, cat, e.id, e.kind, e.source, e.record);
            let (d1, c1) = store_batch(d0, c0, batch);
            let (d2, c2) = store_batch(db, cat, batch);
            store_step(d1, c1, e.id, e.kind, e.source, e.record) == store_step(d2, c2, e.id, e.kind, e.source, e.record)
        }),
    decreases batch.len(),
{
    let (d0, c0) = store_step(db, cat, e.id, e.kind, e.source, e.record);
    if batch.len() == 0 {
        lemma_step_twice(db, cat, e);
    } else {
        let pre = batch.drop_last();
        let f = batch.last();
        lemma_store_keeps_indexes(db, cat, e.id, e.kind, e.source, e.record);
        lemma_batch_keeps_indexes(d0, c0, pre);
        lemma_batch_keeps_indexes(db, cat, pre);
        let (y1, z1) = store_batch(d0, c0, pre);
        let (y2, z2) = store_batch(db, cat, pre);
        lemma_step_absorbs(db, cat, pre, e);
        if f.id == e.id {
            lemma_step_overwrites(y1, z1, f, e);
            lemma_step_overwrites(y2, z2, f, e);
        } else {
            lemma_steps_commute(y1, z1, f, e);
            lemma_steps_commute(y2, z2, f, e);
        }
    }
}

/// Storing a batch twice leaves the state that storing it once leaves, as
/// long as the indexes agreed with the catalog to begin with.
pub proof fn lemma_batch_idempotent(db: StoreView, cat: Catalog, batch: Seq<Stored>)
    requires
        kinds_match(db, cat),
        sources_match(db, cat),
    ensures
        ({
            let (d1, c1) = store_batch(db, cat, batch);
            store_batch(d1, c1, batch) == (d1, c1)
        }),
    decreases batch.len(),
{
    if batch.len() > 0 {
        let pre = batch.drop_last();
        let e = batch.last();
        let (z, cz) = store_batch(db, cat, pre);
        lemma_batch_keeps_indexes(db, cat, pre);
        lemma_batch_idempotent(db, cat, pre);
        lemma_step_absorbs(z, cz, pre, e);
    }
}

/// A tile with this kind and source is an orphan: it has a source that is not
/// among the ids stored when compaction began.
pub open spec fn is_orphan(existing: Set<u128>, entry: (KindView, Option<u128>)) -> bool {
    entry.1 matches Some(s) && !existing.contains(s)
}

/// The state after a compaction pass over the ids read from the tiles tree,
/// with the number of tiles removed: each id whose tile is still stored and
/// is an orphan loses its record and both index entries.
pub open spec fn compact_pass(db: StoreView, cat: Catalog, existing: Set<u128>, ids: Seq<u128>) -> (StoreView, Catalog, nat)
    decreases ids.len(),
{
    if ids.len() == 0 {
        (db, cat, 0)
    } else {
        let (d, c, n) = compact_pass(db, cat, existing, ids.drop_last());
        let id = ids.last();
        if c.contains_key(id) && compact_ops_of(existing, id, c[id].0, c[id].1) is Some {
            (apply_ops(d, compact_ops_of(existing, id, c[id].0, c[id].1)->0), c.remove(id), n + 1)
        } else {
            (d, c, n)
        }
    }
}

/// The number of ids among `ids` whose catalogued tile is an orphan.
pub open spec fn orphan_count(cat: Catalog, existing: Set<u128>, ids: Seq<u128>) -> nat
    decreases ids.len(),
{
    if ids.len() == 0 {
        0
    } else {
        orphan_count(cat, existing, ids.drop_last()) + if cat.contains_key(ids.last()) && is_orphan(
            existing,
            cat[ids.last()],
        ) {
            1nat
        } else {
            0nat
        }
    }
}

/// A compaction pass over distinct ids removes exactly the catalogued
/// orphans among them, counts exactly those, leaves every other tile as it
/// was, and keeps each tree in agreement with the catalog (so every tile that
/// stays keeps both of its index entries).
pub proof fn lemma_compact_pass(db: StoreView, cat: Catalog, existing: Set<u128>, ids: Seq<u128>)
    requires
        ids.no_duplicates(),
    ensures
        ({
            let (after, cat2, removed) = compact_pass(db, cat, existing, ids);
            &&& forall|x: u128| #[trigger] cat2.contains_key(x) <==> cat.contains_key(x) && !(ids.contains(x)
                && is_orphan(existing, cat[x]))
            &&& forall|x: u128| #[trigger] cat2.contains_key(x) ==> cat2[x] == cat[x]
            &&& removed == orphan_count(cat, existing, ids)
            &&& tiles_match(db, cat) ==> tiles_match(after, cat2)
            &&& kinds_match(db, cat) ==> kinds_match(after, cat2)
            &&& sources_match(db, cat) ==> sources_match(after, cat2)
        }),
    decreases ids.len(),
{
    if ids.len() > 0 {
        let pre = ids.drop_last();
        let id = ids.last();
        assert(pre.no_duplicates());
        lemma_compact_pass(db, cat, existing, pre);
        let (d, c, n) = compact_pass(db, cat, existing, pre);
        assert(!pre.contains(id)) by {
            if pre.contains(id) {
                let k = choose|k: int| 0 <= k < pre.len() && pre[k] == id;
                assert(ids[k] == ids[ids.len() - 1]);
            }
        }
        assert forall|x: u128| ids.contains(x) <==> pre.contains(x) || x == id by {
            if ids.contains(x) {
                let k = choose|k: int| 0 <= k < ids.len() && ids[k] == x;
                if k < pre.len() {
                    assert(pre[k] == x);
                }
            }
            if pre.contains(x) {
                let k = choose|k: int| 0 <= k < pre.len() && pre[k] == x;
                assert(ids[k] == x);
            }
            if x == id {
                assert(ids[ids.len() - 1] == x);
            }
        }
        assert(c.contains_key(id) <==> cat.contains_key(id));
        if c.contains_key(id) && compact_ops_of(existing, id, c[id].0, c[id].1) is Some {
            assert(c[id] == cat[id]);
            lemma_compact_keeps_indexes(d, c, existing, id);
        }
    }
}

} // verus!
