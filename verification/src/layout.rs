//! The writes and removals that the store's operations issue against its
//! three trees, and what they do to the trees' contents.

use vstd::prelude::*;
use std::collections::HashSet;
use crate::ids::{be_bytes, id_key, lemma_be_bytes_injective, parse_id};
use crate::keys::{kind_key, kind_key_of, source_key, source_key_of};
use crate::kind::{KindView, TileKind};

verus! {

broadcast use vstd::std_specs::hash::group_hash_axioms;

/// The three trees of a store.
#[derive(Debug, Clone, Copy, PartialEq, Eq, Structural)]
pub enum Tree {
    /// Tile records, keyed by the tile's id bytes.
    Tiles,
    /// The kind index: kind index keys mapped to the tile's id bytes.
    Kinds,
    /// The source index: source index keys mapped to the tile's id bytes.
    Sources,
}

impl Tree {
    /// The name under which the tree is opened in the database.
    pub fn name(&self) -> (name: &str)
        ensures
            name@ == match self {
                Tree::Tiles => "tiles"@,
                Tree::Kinds => "kind_index"@,
                Tree::Sources => "source_index"@,
            },
    {
        match self {
            Tree::Tiles => "tiles",
            Tree::Kinds => "kind_index",
            Tree::Sources => "source_index",
        }
    }
}

/// One change to one tree.
#[derive(Debug)]
pub enum Op {
    Put { tree: Tree, key: Vec<u8>, value: Vec<u8> },
    Remove { tree: Tree, key: Vec<u8> },
}

/// The value of an [`Op`].
pub enum OpView {
    Put(Tree, Seq<u8>, Seq<u8>),
    Remove(Tree, Seq<u8>),
}

impl View for Op {
    type V = OpView;

    open spec fn view(&self) -> OpView {
        match self {
            Op::Put { tree, key, value } => OpView::Put(*tree, key@, value@),
            Op::Remove { tree, key } => OpView::Remove(*tree, key@),
        }
    }
}

/// The values of a sequence of operations.
pub open spec fn ops_view(ops: Seq<Op>) -> Seq<OpView> {
    ops.map_values(|op: Op| op@)
}

/// The contents of a store's three trees.
pub struct StoreView {
    pub tiles: Map<Seq<u8>, Seq<u8>>,
    pub kinds: Map<Seq<u8>, Seq<u8>>,
    pub sources: Map<Seq<u8>, Seq<u8>>,
}

/// The contents of one tree.
pub open spec fn tree_contents(db: StoreView, tree: Tree) -> Map<Seq<u8>, Seq<u8>> {
    match tree {
        Tree::Tiles => db.tiles,
        Tree::Kinds => db.kinds,
        Tree::Sources => db.sources,
    }
}

/// The store with one tree's contents replaced.
pub open spec fn with_tree(db: StoreView, tree: Tree, m: Map<Seq<u8>, Seq<u8>>) -> StoreView {
    match tree {
        Tree::Tiles => StoreView { tiles: m, ..db },
        Tree::Kinds => StoreView { kinds: m, ..db },
        Tree::Sources => StoreView { sources: m, ..db },
    }
}

/// What one operation does to the store: a put maps the key to the value, a
/// removal takes the key out.
pub open spec fn apply_op(db: StoreView, op: OpView) -> StoreView {
    match op {
        OpView::Put(tree, key, value) => with_tree(db, tree, tree_contents(db, tree).insert(key, value)),
        OpView::Remove(tree, key) => with_tree(db, tree, tree_contents(db, tree).remove(key)),
    }
}

/// What a sequence of operations, applied in order, does to the store.
pub open spec fn apply_ops(db: StoreView, ops: Seq<OpView>) -> StoreView
    decreases ops.len(),
{
    if ops.len() == 0 {
        db
    } else {
        apply_op(apply_ops(db, ops.drop_last()), ops.last())
    }
}

/// The kind and source of the tile stored under an id, when there is one.
pub type Prior = Option<(KindView, Option<u128>)>;

/// The operations that take out the index entries of the tile that was
/// stored under `id` with the given kind and source, if any.
pub open spec fn clear_ops_of(id: u128, prior: Prior) -> Seq<OpView> {
    match prior {
        None => seq![],
        Some((k, None)) => seq![OpView::Remove(Tree::Kinds, kind_key_of(k, id))],
        Some((k, Some(s))) => seq![
            OpView::Remove(Tree::Kinds, kind_key_of(k, id)),
            OpView::Remove(Tree::Sources, source_key_of(s, id)),
        ],
    }
}

/// The operations that write one tile: its record under its id bytes, its
/// kind index entry and, when it has a source, its source index entry.
pub open spec fn put_ops_of(id: u128, kind: KindView, source: Option<u128>, record: Seq<u8>) -> Seq<OpView> {
    let common = seq![
        OpView::Put(Tree::Tiles, be_bytes(id), record),
        OpView::Put(Tree::Kinds, kind_key_of(kind, id), be_bytes(id)),
    ];
    match source {
        Some(s) => common.push(OpView::Put(Tree::Sources, source_key_of(s, id), be_bytes(id))),
        None => common,
    }
}

/// The operations that store one tile: the index entries of the tile it
/// replaces (with kind and source `prior`) come out, then the tile is
/// written.
pub open spec fn store_ops_of(id: u128, kind: KindView, source: Option<u128>, prior: Prior, record: Seq<u8>) -> Seq<OpView> {
    clear_ops_of(id, prior) + put_ops_of(id, kind, source, record)
}

/// The kind index without the entry of the replaced tile.
pub open spec fn cleared_kinds(m: Map<Seq<u8>, Seq<u8>>, id: u128, prior: Prior) -> Map<Seq<u8>, Seq<u8>> {
    match prior {
        Some((k, _)) => m.remove(kind_key_of(k, id)),
        None => m,
    }
}

/// The source index without the entry of the replaced tile.
pub open spec fn cleared_sources(m: Map<Seq<u8>, Seq<u8>>, id: u128, prior: Prior) -> Map<Seq<u8>, Seq<u8>> {
    match prior {
        Some((_, Some(s))) => m.remove(source_key_of(s, id)),
        _ => m,
    }
}

/// The source index with the entry of a tile that has a source.
pub open spec fn with_source(m: Map<Seq<u8>, Seq<u8>>, id: u128, source: Option<u128>) -> Map<Seq<u8>, Seq<u8>> {
    match source {
        Some(s) => m.insert(source_key_of(s, id), be_bytes(id)),
        None => m,
    }
}

/// The operations that remove a tile found during compaction, or none when
/// the tile's source is among the ids that were stored when compaction began.
pub open spec fn compact_ops_of(existing: Set<u128>, id: u128, kind: KindView, source: Option<u128>) -> Option<Seq<OpView>> {
    match source {
        Some(s) => if existing.contains(s) {
            None
        } else {
            Some(seq![
                OpView::Remove(Tree::Tiles, be_bytes(id)),
                OpView::Remove(Tree::Kinds, kind_key_of(kind, id)),
                OpView::Remove(Tree::Sources, source_key_of(s, id)),
            ])
        },
        None => None,
    }
}

/// The fields of a tile that decide where it is stored and indexed.
pub struct TileHeader {
    pub id: u128,
    pub kind: TileKind,
    pub source: Option<u128>,
}

/// The kind and source of an optional tile header.
pub open spec fn prior_view(prior: Option<&TileHeader>) -> Prior {
    match prior {
        Some(h) => Some((h.kind@, h.source)),
        None => None,
    }
}

/// The operations that store one tile whose serialized record is `record`;
/// `prior` is the header of the tile currently stored under the same id, if
/// any (only its kind and source are read).
pub fn store_ops(header: &TileHeader, prior: Option<&TileHeader>, record: Vec<u8>) -> (ops: Vec<Op>)
    ensures
        ops_view(ops@) == store_ops_of(header.id, header.kind@, header.source, prior_view(prior), record@),
{
    let mut ops: Vec<Op> = Vec::new();
    match prior {
        Some(p) => {
            ops.push(Op::Remove { tree: Tree::Kinds, key: kind_key(&p.kind, header.id) });
            match p.source {
                Some(s) => {
                    ops.push(Op::Remove { tree: Tree::Sources, key: source_key(s, header.id) });
                },
                None => {},
            }
        },
        None => {},
    }
    ops.push(Op::Put { tree: Tree::Tiles, key: id_key(header.id), value: record });
    ops.push(Op::Put { tree: Tree::Kinds, key: kind_key(&header.kind, header.id), value: id_key(header.id) });
    match header.source {
        Some(s) => {
            ops.push(Op::Put { tree: Tree::Sources, key: source_key(s, header.id), value: id_key(header.id) });
        },
        None => {},
    }
    assert(ops_view(ops@) =~= store_ops_of(header.id, header.kind@, header.source, prior_view(prior), record@));
    ops
}

/// The id read back from a 16-byte key.
pub open spec fn key_id(key: Seq<u8>) -> u128 {
    choose|id: u128| be_bytes(id) == key
}

/// The ids read back from the keys of the tile tree, in order; keys that are
/// not 16 bytes long are passed over.
pub open spec fn parsed_ids(keys: Seq<Seq<u8>>) -> Seq<u128>
    decreases keys.len(),
{
    if keys.len() == 0 {
        seq![]
    } else if keys.last().len() == 16 {
        parsed_ids(keys.drop_last()).push(key_id(keys.last()))
    } else {
        parsed_ids(keys.drop_last())
    }
}

/// Reading ids back from the keys of the tile tree misses none: the id of
/// every 16-byte key is read, and every id read is that of some key.
pub proof fn lemma_parsed_ids_complete(keys: Seq<Seq<u8>>)
    ensures
        forall|i: int, id: u128|
            #![trigger keys[i], be_bytes(id)]
            0 <= i < keys.len() && keys[i] == be_bytes(id) ==> parsed_ids(keys).contains(id),
        forall|id: u128|
            #[trigger] parsed_ids(keys).contains(id) ==> exists|i: int| 0 <= i < keys.len() && #[trigger] keys[i] == be_bytes(id),
    decreases keys.len(),
{
    if keys.len() > 0 {
        let pre = keys.drop_last();
        let last = keys.last();
        lemma_parsed_ids_complete(pre);
        let p0 = parsed_ids(pre);
        let p = parsed_ids(keys);
        assert forall|x: u128| p0.contains(x) implies p.contains(x) by {
            let k = choose|k: int| 0 <= k < p0.len() && p0[k] == x;
            if last.len() == 16 {
                assert(p[k] == x);
            }
        }
        assert forall|i: int, id: u128|
            #![trigger keys[i], be_bytes(id)]
            0 <= i < keys.len() && keys[i] == be_bytes(id) implies p.contains(id) by {
            if i < pre.len() {
                assert(pre[i] == keys[i]);
                assert(p0.contains(id));
            } else {
                let c = key_id(last);
                assert(be_bytes(id) == last);
                assert(be_bytes(c) == last);
                lemma_be_bytes_injective(c, id);
                assert(p[p0.len() as int] == id);
            }
        }
        assert forall|id: u128| #[trigger] p.contains(id) implies exists|i: int|
            0 <= i < keys.len() && #[trigger] keys[i] == be_bytes(id) by {
            let k = choose|k: int| 0 <= k < p.len() && p[k] == id;
            if k < p0.len() {
                assert(p0[k] == id);
                assert(p0.contains(id));
                let i = choose|i: int| 0 <= i < pre.len() && #[trigger] pre[i] == be_bytes(id);
                assert(keys[i] == pre[i]);
            } else {
                let c = key_id(last);
                assert(last.len() == 16);
                assert(be_bytes(c) == last) by {
                    let w = be_bytes_of_key(last);
                }
                assert(keys[keys.len() - 1] == be_bytes(id));
            }
        }
    }
}

/// The id whose bytes are a 16-byte key exists (a witness for `key_id`).
proof fn be_bytes_of_key(key: Seq<u8>) -> (id: u128)
    requires
        key.len() == 16,
    ensures
        be_bytes(id) == key,
{
    let id = ((key[0] as u128) << 120u128) | ((key[1] as u128) << 112u128) | ((key[2] as u128) << 104u128)
        | ((key[3] as u128) << 96u128) | ((key[4] as u128) << 88u128) | ((key[5] as u128) << 80u128)
        | ((key[6] as u128) << 72u128) | ((key[7] as u128) << 64u128) | ((key[8] as u128) << 56u128)
        | ((key[9] as u128) << 48u128) | ((key[10] as u128) << 40u128) | ((key[11] as u128) << 32u128)
        | ((key[12] as u128) << 24u128) | ((key[13] as u128) << 16u128) | ((key[14] as u128) << 8u128)
        | (key[15] as u128);
    let (b0, b1, b2, b3, b4, b5, b6, b7) = (key[0], key[1], key[2], key[3], key[4], key[5], key[6], key[7]);
    let (b8, b9, b10, b11, b12, b13, b14, b15) = (key[8], key[9], key[10], key[11], key[12], key[13], key[14], key[15]);
    assert(
        (id >> 120u128) as u8 == b0 && (id >> 112u128) as u8 == b1 && (id >> 104u128) as u8 == b2
        && (id >> 96u128) as u8 == b3 && (id >> 88u128) as u8 == b4 && (id >> 80u128) as u8 == b5
        && (id >> 72u128) as u8 == b6 && (id >> 64u128) as u8 == b7 && (id >> 56u128) as u8 == b8
        && (id >> 48u128) as u8 == b9 && (id >> 40u128) as u8 == b10 && (id >> 32u128) as u8 == b11
        && (id >> 24u128) as u8 == b12 && (id >> 16u128) as u8 == b13 && (id >> 8u128) as u8 == b14
        && (id >> 0u128) as u8 == b15
    ) by (bit_vector)
        requires
            id == ((b0 as u128) << 120u128) | ((b1 as u128) << 112u128) | ((b2 as u128) << 104u128)
                | ((b3 as u128) << 96u128) | ((b4 as u128) << 88u128) | ((b5 as u128) << 80u128)
                | ((b6 as u128) << 72u128) | ((b7 as u128) << 64u128) | ((b8 as u128) << 56u128)
                | ((b9 as u128) << 48u128) | ((b10 as u128) << 40u128) | ((b11 as u128) << 32u128)
                | ((b12 as u128) << 24u128) | ((b13 as u128) << 16u128) | ((b14 as u128) << 8u128)
                | (b15 as u128),
    ;
    assert(be_bytes(id) =~= key);
    id
}

/// The keys held by a sequence of byte vectors.
pub open spec fn keys_view(keys: Seq<Vec<u8>>) -> Seq<Seq<u8>> {
    keys.map_values(|k: Vec<u8>| k@)
}

/// The decisions of a compaction: which tiles are orphans, given the ids that
/// were stored when it began.
pub struct CompactPlan {
    existing: HashSet<u128>,
}

impl CompactPlan {
    /// The ids that were stored when compaction began.
    pub closed spec fn existing(&self) -> Set<u128> {
        self.existing@
    }

    /// Reads the ids back from the keys of the tile tree; returns the plan and
    /// the ids in key order.
    pub fn new(keys: &[Vec<u8>]) -> (result: (CompactPlan, Vec<u128>))
        ensures
            result.1@ == parsed_ids(keys_view(keys@)),
            result.0.existing() == result.1@.to_set(),
            forall|i: int, id: u128|
                #![trigger keys@[i], be_bytes(id)]
                0 <= i < keys@.len() && keys@[i]@ == be_bytes(id) ==> result.0.existing().contains(id)
                    && result.1@.contains(id),
            forall|id: u128|
                #[trigger] result.1@.contains(id) ==> exists|i: int|
                    0 <= i < keys@.len() && #[trigger] keys@[i]@ == be_bytes(id),
    {
        let mut ids: Vec<u128> = Vec::new();
        let mut existing: HashSet<u128> = HashSet::new();
        let n = keys.len();
        for i in 0..n
            invariant
                n == keys@.len(),
                ids@ == parsed_ids(keys_view(keys@.subrange(0, i as int))),
                existing@ == ids@.to_set(),
        {
            let ghost prefix = keys@.subrange(0, i as int);
            assert(keys_view(keys@.subrange(0, i + 1)).drop_last() =~= keys_view(prefix));
            assert(keys_view(keys@.subrange(0, i + 1)).last() == keys@[i as int]@);
            match parse_id(keys[i].as_slice()) {
                Some(id) => {
                    proof {
                        let k = keys@[i as int]@;
                        assert(be_bytes(id) == k);
                        let c = key_id(k);
                        assert(be_bytes(c) == k);
                        lemma_be_bytes_injective(c, id);
                    }
                    let ghost old_ids = ids@;
                    ids.push(id);
                    existing.insert(id);
                    assert(ids@.to_set() =~= old_ids.to_set().insert(id)) by {
                        assert forall|x: u128| ids@.to_set().contains(x) implies old_ids.to_set().insert(
                            x,
                        ).contains(x) by {}
                        assert forall|x: u128| old_ids.to_set().insert(id).contains(x) implies ids@.contains(x) by {
                            if x == id {
                                assert(ids@[old_ids.len() as int] == id);
                            } else {
                                let k = choose|k: int| 0 <= k < old_ids.len() && old_ids[k] == x;
                                assert(ids@[k] == x);
                            }
                        }
                        assert forall|x: u128| ids@.contains(x) implies old_ids.to_set().insert(id).contains(x) by {
                            let k = choose|k: int| 0 <= k < ids@.len() && ids@[k] == x;
                            if k < old_ids.len() {
                                assert(old_ids[k] == x);
                            }
                        }
                    }
                },
                None => {},
            }
        }
        assert(keys@.subrange(0, n as int) =~= keys@);
        proof {
            let kv = keys_view(keys@);
            lemma_parsed_ids_complete(kv);
            assert forall|i: int, id: u128|
                #![trigger keys@[i], be_bytes(id)]
                0 <= i < keys@.len() && keys@[i]@ == be_bytes(id) implies existing@.contains(id) && ids@.contains(id) by {
                assert(kv[i] == keys@[i]@);
                assert(ids@.contains(id));
                assert(ids@.to_set().contains(id));
            }
            assert forall|id: u128| #[trigger] ids@.contains(id) implies exists|i: int|
                0 <= i < keys@.len() && #[trigger] keys@[i]@ == be_bytes(id) by {
                let i = choose|i: int| 0 <= i < kv.len() && #[trigger] kv[i] == be_bytes(id);
                assert(kv[i] == keys@[i]@);
            }
        }
        (CompactPlan { existing }, ids)
    }

    /// The removals for the tile stored under `id`, with this kind and
    /// source, when it is an orphan: when it has a source that was not stored
    /// when compaction began. `None` when the tile stays.
    pub fn orphan_removals(&self, id: u128, kind: &TileKind, source: Option<u128>) -> (ops: Option<Vec<Op>>)
        ensures
            match compact_ops_of(self.existing(), id, kind@, source) {
                None => ops is None,
                Some(expected) => ops matches Some(v) && ops_view(v@) == expected,
            },
    {
        match source {
            Some(s) => {
                if self.existing.contains(&s) {
                    None
                } else {
                    let mut ops: Vec<Op> = Vec::new();
                    ops.push(Op::Remove { tree: Tree::Tiles, key: id_key(id) });
                    ops.push(Op::Remove { tree: Tree::Kinds, key: kind_key(kind, id) });
                    ops.push(Op::Remove { tree: Tree::Sources, key: source_key(s, id) });
                    assert(ops_view(ops@) =~= compact_ops_of(self.existing(), id, kind@, source)->0);
                    Some(ops)
                }
            },
            None => None,
        }
    }
}

/// Each index entry maps its key to the id bytes that end the key; kind
/// index keys are at least 17 bytes long and source index keys 32.
pub open spec fn index_well_formed(db: StoreView) -> bool {
    &&& forall|k: Seq<u8>| #[trigger] db.kinds.contains_key(k) ==> {
        &&& k.len() >= 17
        &&& db.kinds[k] == k.subrange(k.len() - 16, k.len() as int)
    }
    &&& forall|k: Seq<u8>| #[trigger] db.sources.contains_key(k) ==> {
        &&& k.len() == 32
        &&& db.sources[k] == k.subrange(16, 32)
    }
}

/// Applying two sequences of operations one after the other is applying
/// their concatenation.
pub proof fn lemma_apply_concat(db: StoreView, a: Seq<OpView>, b: Seq<OpView>)
    ensures
        apply_ops(db, a + b) == apply_ops(apply_ops(db, a), b),
    decreases b.len(),
{
    if b.len() == 0 {
        assert(a + b =~= a);
    } else {
        assert((a + b).drop_last() =~= a + b.drop_last());
        assert((a + b).last() == b.last());
        lemma_apply_concat(db, a, b.drop_last());
    }
}

/// Applying one operation.
proof fn lemma_apply_one(db: StoreView, op: OpView)
    ensures
        apply_ops(db, seq![op]) == apply_op(db, op),
{
    assert(seq![op].drop_last() =~= Seq::<OpView>::empty());
    assert(apply_ops(db, seq![op].drop_last()) == db);
}

/// Applying two operations.
proof fn lemma_apply_two(db: StoreView, a: OpView, b: OpView)
    ensures
        apply_ops(db, seq![a, b]) == apply_op(apply_op(db, a), b),
{
    assert(seq![a, b].drop_last() =~= seq![a]);
    lemma_apply_one(db, a);
}

/// Applying three operations.
proof fn lemma_apply_three(db: StoreView, a: OpView, b: OpView, c: OpView)
    ensures
        apply_ops(db, seq![a, b, c]) == apply_op(apply_op(apply_op(db, a), b), c),
{
    assert(seq![a, b, c].drop_last() =~= seq![a, b]);
    lemma_apply_two(db, a, b);
}

/// Storing a tile makes its record readable under its id bytes, replaces the
/// index entries of the tile stored under the same id (if any) with its own
/// kind index entry and (when it has a source) its source index entry;
/// nothing else in the store changes.
pub proof fn lemma_store_then_read(
    db: StoreView,
    id: u128,
    kind: KindView,
    source: Option<u128>,
    prior: Prior,
    record: Seq<u8>,
)
    ensures
        ({
            let after = apply_ops(db, store_ops_of(id, kind, source, prior, record));
            &&& after.tiles == db.tiles.insert(be_bytes(id), record)
            &&& after.kinds == cleared_kinds(db.kinds, id, prior).insert(kind_key_of(kind, id), be_bytes(id))
            &&& after.sources == with_source(cleared_sources(db.sources, id, prior), id, source)
            &&& after.tiles[be_bytes(id)] == record
        }),
{
    let clear = clear_ops_of(id, prior);
    let put = put_ops_of(id, kind, source, record);
    lemma_apply_concat(db, clear, put);
    let mid = apply_ops(db, clear);
    match prior {
        None => {
            assert(mid == db);
        },
        Some((k, None)) => {
            lemma_apply_one(db, OpView::Remove(Tree::Kinds, kind_key_of(k, id)));
        },
        Some((k, Some(s))) => {
            lemma_apply_two(
                db,
                OpView::Remove(Tree::Kinds, kind_key_of(k, id)),
                OpView::Remove(Tree::Sources, source_key_of(s, id)),
            );
        },
    }
    assert(mid.tiles == db.tiles);
    assert(mid.kinds == cleared_kinds(db.kinds, id, prior));
    assert(mid.sources == cleared_sources(db.sources, id, prior));
    let p1 = OpView::Put(Tree::Tiles, be_bytes(id), record);
    let p2 = OpView::Put(Tree::Kinds, kind_key_of(kind, id), be_bytes(id));
    match source {
        Some(s) => {
            assert(put =~= seq![p1, p2, OpView::Put(Tree::Sources, source_key_of(s, id), be_bytes(id))]);
            lemma_apply_three(mid, p1, p2, OpView::Put(Tree::Sources, source_key_of(s, id), be_bytes(id)));
        },
        None => {
            assert(put =~= seq![p1, p2]);
            lemma_apply_two(mid, p1, p2);
        },
    }
}

/// Removing an orphan takes its record and both of its index entries out of
/// the store; nothing else changes. A tile whose source was stored when
/// compaction began is left alone.
pub proof fn lemma_compact_removes_orphan(
    db: StoreView,
    existing: Set<u128>,
    id: u128,
    kind: KindView,
    source: Option<u128>,
)
    ensures
        match compact_ops_of(existing, id, kind, source) {
            Some(ops) => {
                let after = apply_ops(db, ops);
                &&& source is Some && !existing.contains(source->0)
                &&& after.tiles == db.tiles.remove(be_bytes(id))
                &&& after.kinds == db.kinds.remove(kind_key_of(kind, id))
                &&& after.sources == db.sources.remove(source_key_of(source->0, id))
            },
            None => source is None || existing.contains(source->0),
        },
{
    if let Some(ops) = compact_ops_of(existing, id, kind, source) {
        lemma_apply_three(
            db,
            OpView::Remove(Tree::Tiles, be_bytes(id)),
            OpView::Remove(Tree::Kinds, kind_key_of(kind, id)),
            OpView::Remove(Tree::Sources, source_key_of(source->0, id)),
        );
    }
}

/// Storing a tile keeps the indexes well formed.
pub proof fn lemma_store_keeps_index_well_formed(
    db: StoreView,
    id: u128,
    kind: KindView,
    source: Option<u128>,
    prior: Prior,
    record: Seq<u8>,
)
    requires
        index_well_formed(db),
    ensures
        index_well_formed(apply_ops(db, store_ops_of(id, kind, source, prior, record))),
{
    lemma_store_then_read(db, id, kind, source, prior, record);
    let kk = kind_key_of(kind, id);
    assert(kk.subrange(kk.len() - 16, kk.len() as int) =~= be_bytes(id));
    if let Some(s) = source {
        assert(source_key_of(s, id).subrange(16, 32) =~= be_bytes(id));
    }
}

/// Removing an orphan keeps the indexes well formed.
pub proof fn lemma_compact_keeps_index_well_formed(
    db: StoreView,
    existing: Set<u128>,
    id: u128,
    kind: KindView,
    source: Option<u128>,
)
    requires
        index_well_formed(db),
        compact_ops_of(existing, id, kind, source) is Some,
    ensures
        index_well_formed(apply_ops(db, compact_ops_of(existing, id, kind, source)->0)),
{
    lemma_compact_removes_orphan(db, existing, id, kind, source);
}

} // verus!
