//! The store's scenarios, run against an in-memory copy of its three trees
//! driven by the library's key layout, operations, scoring and ranking.

use forge_memory::ids::id_key;
use forge_memory::keys::{kind_prefix, source_prefix};
use forge_memory::kind::TileKind;
use forge_memory::layout::{store_ops, CompactPlan, Op, TileHeader, Tree};
use forge_memory::rank::rank_candidates;
use forge_memory::search::SearchQuery;
use forge_memory::stats::{StatRow, StoreStats};
use std::collections::{BTreeMap, HashMap};
use uuid::Uuid;

#[derive(Clone, Debug)]
struct TestTile {
    id: u128,
    kind: TileKind,
    content: Vec<u8>,
    source: Option<u128>,
    metadata: Vec<(String, String)>,
}

/// Three ordered trees, as the database keeps them, and the tiles behind
/// each record (a record is the tile's id bytes followed by its content).
struct MemStore {
    tiles: BTreeMap<Vec<u8>, Vec<u8>>,
    kinds: BTreeMap<Vec<u8>, Vec<u8>>,
    sources: BTreeMap<Vec<u8>, Vec<u8>>,
    decoded: HashMap<Vec<u8>, TestTile>,
}

impl MemStore {
    fn new() -> Self {
        MemStore {
            tiles: BTreeMap::new(),
            kinds: BTreeMap::new(),
            sources: BTreeMap::new(),
            decoded: HashMap::new(),
        }
    }

    fn tree(&mut self, tree: Tree) -> &mut BTreeMap<Vec<u8>, Vec<u8>> {
        match tree {
            Tree::Tiles => &mut self.tiles,
            Tree::Kinds => &mut self.kinds,
            Tree::Sources => &mut self.sources,
        }
    }

    fn apply(&mut self, ops: Vec<Op>) {
        for op in ops {
            match op {
                Op::Put { tree, key, value } => {
                    self.tree(tree).insert(key, value);
                }
                Op::Remove { tree, key } => {
                    self.tree(tree).remove(&key);
                }
            }
        }
    }

    fn store(&mut self, tiles: &[TestTile]) -> Vec<u128> {
        let mut ids = Vec::new();
        for tile in tiles {
            let mut record = id_key(tile.id);
            record.extend_from_slice(&tile.content);
            let header = TileHeader { id: tile.id, kind: tile.kind.clone(), source: tile.source };
            let prior = self
                .read(&id_key(tile.id))
                .map(|old| TileHeader { id: old.id, kind: old.kind, source: old.source });
            self.decoded.insert(record.clone(), tile.clone());
            let ops = store_ops(&header, prior.as_ref(), record);
            self.apply(ops);
            ids.push(tile.id);
        }
        ids
    }

    fn read(&self, key: &[u8]) -> Option<TestTile> {
        self.tiles.get(key).map(|record| self.decoded[record].clone())
    }

    fn retrieve(&self, ids: &[u128]) -> Vec<TestTile> {
        ids.iter().filter_map(|id| self.read(&id_key(*id))).collect()
    }

    fn scan(index: &BTreeMap<Vec<u8>, Vec<u8>>, prefix: &[u8]) -> Vec<Vec<u8>> {
        index
            .range(prefix.to_vec()..)
            .take_while(|(k, _)| k.starts_with(prefix))
            .map(|(_, v)| v.clone())
            .collect()
    }

    fn by_source(&self, source: u128) -> Vec<TestTile> {
        Self::scan(&self.sources, &source_prefix(source))
            .iter()
            .filter_map(|id| self.read(id))
            .collect()
    }

    fn by_kind(&self, kind: &TileKind) -> Vec<TestTile> {
        Self::scan(&self.kinds, &kind_prefix(kind))
            .iter()
            .filter_map(|id| self.read(id))
            .collect()
    }

    fn search(&self, query: &str, kind: Option<TileKind>, limit: usize) -> Vec<TestTile> {
        let q = SearchQuery::new(query, kind);
        let mut candidates: Vec<(u64, bool, TestTile)> = Vec::new();
        for record in self.tiles.values() {
            let tile = self.decoded[record].clone();
            let admitted = q.admits(&tile.kind);
            let score = q.score_text(&tile.content, &tile.metadata) as u64;
            if score > 0 {
                candidates.push((score, admitted, tile));
            }
        }
        let keys: Vec<Option<u64>> =
            candidates.iter().map(|(s, a, _)| if *a { Some(*s) } else { None }).collect();
        rank_candidates(&keys, limit).into_iter().map(|i| candidates[i].2.clone()).collect()
    }

    fn stats(&self) -> StoreStats {
        let rows: Vec<StatRow> = self
            .tiles
            .values()
            .map(|record| StatRow {
                bytes: record.len() as u64,
                kind: Some(self.decoded[record].kind.clone()),
            })
            .collect();
        StoreStats::summarize(self.tiles.len() as u64, &rows)
    }

    fn compact(&mut self) -> u64 {
        let keys: Vec<Vec<u8>> = self.tiles.keys().cloned().collect();
        let (plan, ids) = CompactPlan::new(&keys);
        let mut removed = 0u64;
        for id in ids {
            if let Some(tile) = self.read(&id_key(id)) {
                if let Some(ops) = plan.orphan_removals(id, &tile.kind, tile.source) {
                    self.apply(ops);
                    removed += 1;
                }
            }
        }
        removed
    }
}

fn make_tile(kind: TileKind, content: &str, source: Option<u128>) -> TestTile {
    TestTile {
        id: Uuid::new_v4().as_u128(),
        kind,
        content: content.as_bytes().to_vec(),
        source,
        metadata: vec![],
    }
}

fn make_tile_with_meta(kind: TileKind, content: &str, source: Option<u128>, meta: Vec<(String, String)>) -> TestTile {
    let mut t = make_tile(kind, content, source);
    t.metadata = meta;
    t
}

#[test]
fn test_store_and_retrieve() {
    let mut store = MemStore::new();

    let tile = make_tile(TileKind::Text, "hello world", None);
    let ids = store.store(&[tile.clone()]);
    assert_eq!(ids.len(), 1);

    let retrieved = store.retrieve(&ids);
    assert_eq!(retrieved.len(), 1);
    assert_eq!(retrieved[0].content, tile.content);
    assert_eq!(retrieved[0].id, tile.id);
}

#[test]
fn test_search_by_content() {
    let mut store = MemStore::new();

    let t1 = make_tile(TileKind::Text, "the quick brown fox", None);
    let t2 = make_tile(TileKind::Text, "jumps over the lazy dog", None);
    let t3 = make_tile(TileKind::Code, "fn fox() -> i32 { 42 }", None);
    store.store(&[t1, t2, t3]);

    let results = store.search("fox", None, 10);
    assert!(!results.is_empty());
    assert!(results.iter().any(|t| std::str::from_utf8(&t.content).unwrap().contains("fox")));
}

#[test]
fn test_search_with_kind_filter() {
    let mut store = MemStore::new();

    let t1 = make_tile(TileKind::Text, "fox in text", None);
    let t2 = make_tile(TileKind::Code, "fox in code", None);
    store.store(&[t1, t2]);

    let results = store.search("fox", Some(TileKind::Code), 10);
    assert!(results.iter().all(|t| t.kind == TileKind::Code));
}

#[test]
fn test_search_by_metadata() {
    let mut store = MemStore::new();

    let t = make_tile_with_meta(
        TileKind::Text,
        "some content",
        None,
        vec![("author".into(), "plato".into())],
    );
    store.store(&[t]);

    let results = store.search("plato", None, 10);
    assert!(!results.is_empty());
}

#[test]
fn test_by_source() {
    let mut store = MemStore::new();

    let source_id = Uuid::new_v4().as_u128();
    let t1 = make_tile(TileKind::Text, "from source", Some(source_id));
    let t2 = make_tile(TileKind::Text, "no source", None);
    store.store(&[t1, t2]);

    let results = store.by_source(source_id);
    assert_eq!(results.len(), 1);
    assert_eq!(results[0].source, Some(source_id));
}

#[test]
fn test_by_kind() {
    let mut store = MemStore::new();

    let t1 = make_tile(TileKind::Text, "text tile", None);
    let t2 = make_tile(TileKind::Code, "code tile", None);
    let t3 = make_tile(TileKind::Text, "more text", None);
    store.store(&[t1, t2, t3]);

    let text_results = store.by_kind(&TileKind::Text);
    assert_eq!(text_results.len(), 2);
    assert!(text_results.iter().all(|t| t.kind == TileKind::Text));

    let code_results = store.by_kind(&TileKind::Code);
    assert_eq!(code_results.len(), 1);
}

#[test]
fn test_stats() {
    let mut store = MemStore::new();

    let t1 = make_tile(TileKind::Text, "hello", None);
    let t2 = make_tile(TileKind::Code, "fn main() {}", None);
    store.store(&[t1, t2]);

    let stats = store.stats();
    assert_eq!(stats.total_tiles, 2);
    assert!(stats.total_bytes > 0);
    assert!(stats.kind_counts.iter().any(|(k, _)| k == "Text"));
    assert!(stats.kind_counts.iter().any(|(k, _)| k == "Code"));
}

#[test]
fn test_compact_removes_orphans() {
    let mut store = MemStore::new();

    let fake_source = Uuid::new_v4().as_u128();
    let child_tile = make_tile(TileKind::Text, "child", Some(fake_source));
    store.store(&[child_tile]);

    let removed = store.compact();
    assert_eq!(removed, 1);
}

#[test]
fn test_compact_keeps_non_orphans() {
    let mut store = MemStore::new();

    let source_tile = make_tile(TileKind::Text, "parent", None);
    let child_tile = make_tile(TileKind::Text, "child", Some(source_tile.id));
    store.store(&[source_tile.clone(), child_tile]);

    let removed = store.compact();
    assert_eq!(removed, 0);

    let retrieved = store.retrieve(&[source_tile.id]);
    assert_eq!(retrieved.len(), 1);
}

#[test]
fn test_large_batch() {
    let mut store = MemStore::new();

    let tiles: Vec<TestTile> = (0..500)
        .map(|i| make_tile(TileKind::Text, &format!("tile content {}", i), None))
        .collect();

    let ids = store.store(&tiles);
    assert_eq!(ids.len(), 500);

    let retrieved = store.retrieve(&ids);
    assert_eq!(retrieved.len(), 500);

    let stats = store.stats();
    assert_eq!(stats.total_tiles, 500);
}

#[test]
fn test_retrieve_nonexistent() {
    let store = MemStore::new();

    let results = store.retrieve(&[Uuid::new_v4().as_u128()]);
    assert!(results.is_empty());
}

#[test]
fn compact_removes_orphans_and_their_index_entries() {
    let mut store = MemStore::new();
    let missing = 7u128;
    let orphan = make_tile(TileKind::Code, "orphan", Some(missing));
    let keeper = make_tile(TileKind::Code, "keeper", None);
    store.store(&[orphan.clone(), keeper.clone()]);
    assert_eq!(store.compact(), 1);
    assert!(store.retrieve(&[orphan.id]).is_empty());
    assert_eq!(store.by_kind(&TileKind::Code).len(), 1);
    assert!(store.by_source(missing).is_empty());
    assert_eq!(store.kinds.len(), 1);
    assert!(store.sources.is_empty());
}

#[test]
fn compact_is_one_pass_over_a_chain() {
    // b's source is missing, a's source is b: one pass removes b only.
    let mut store = MemStore::new();
    let b = make_tile(TileKind::Text, "b", Some(99));
    let a = make_tile(TileKind::Text, "a", Some(b.id));
    store.store(&[a.clone(), b.clone()]);
    assert_eq!(store.compact(), 1);
    assert_eq!(store.retrieve(&[a.id, b.id]).len(), 1);
    assert_eq!(store.compact(), 1);
    assert!(store.retrieve(&[a.id, b.id]).is_empty());
}

#[test]
fn unknown_kinds_stay_apart_from_builtin_kinds() {
    let mut store = MemStore::new();
    let t = make_tile(TileKind::Text, "plain", None);
    let u = make_tile(TileKind::Unknown("Text".into()), "odd", None);
    let w = make_tile(TileKind::Unknown("Text:x".into()), "odder", None);
    store.store(&[t.clone(), u.clone(), w.clone()]);
    let text = store.by_kind(&TileKind::Text);
    assert_eq!(text.len(), 1);
    assert_eq!(text[0].id, t.id);
    let unknown = store.by_kind(&TileKind::Unknown("Text".into()));
    assert_eq!(unknown.len(), 1);
    assert_eq!(unknown[0].id, u.id);
    assert_eq!(store.by_kind(&TileKind::Unknown("Text:x".into())).len(), 1);
    assert_eq!(store.by_kind(&TileKind::Unknown("Tex".into())).len(), 0);
}

#[test]
fn restoring_a_tile_under_another_kind_moves_it() {
    let mut store = MemStore::new();
    let x = TestTile { id: 1, kind: TileKind::Text, content: b"a".to_vec(), source: None, metadata: vec![] };
    let y = TestTile { kind: TileKind::Code, ..x.clone() };
    store.store(&[x]);
    store.store(&[y]);
    assert!(store.by_kind(&TileKind::Text).is_empty());
    let code = store.by_kind(&TileKind::Code);
    assert_eq!(code.len(), 1);
    assert_eq!(code[0].kind, TileKind::Code);
    assert_eq!(store.kinds.len(), 1);
}

#[test]
fn restoring_a_tile_under_another_source_moves_it() {
    let mut store = MemStore::new();
    let x = TestTile { id: 1, kind: TileKind::Text, content: vec![], source: Some(10), metadata: vec![] };
    let y = TestTile { source: Some(20), ..x.clone() };
    store.store(&[x]);
    store.store(&[y]);
    assert!(store.by_source(10).is_empty());
    let from_20 = store.by_source(20);
    assert_eq!(from_20.len(), 1);
    assert_eq!(from_20[0].source, Some(20));
    let z = TestTile { source: None, ..from_20[0].clone() };
    store.store(&[z]);
    assert!(store.by_source(20).is_empty());
    assert!(store.sources.is_empty());
}

#[test]
fn storing_twice_changes_nothing() {
    let mut store = MemStore::new();
    let tiles = vec![
        make_tile(TileKind::Text, "one", Some(5)),
        make_tile(TileKind::Code, "two", None),
    ];
    store.store(&tiles);
    let (t, k, s) = (store.tiles.clone(), store.kinds.clone(), store.sources.clone());
    store.store(&tiles);
    assert_eq!(store.tiles, t);
    assert_eq!(store.kinds, k);
    assert_eq!(store.sources, s);
}

#[test]
fn search_ranks_by_score_and_keeps_the_limit() {
    let mut store = MemStore::new();
    let one = make_tile(TileKind::Text, "fox", None);
    let three = make_tile(TileKind::Text, "fox fox fox", None);
    let none = make_tile(TileKind::Text, "dog", None);
    store.store(&[one.clone(), three.clone(), none]);
    let all = store.search("FOX", None, 10);
    assert_eq!(all.len(), 2);
    assert_eq!(all[0].id, three.id);
    assert_eq!(all[1].id, one.id);
    let top = store.search("fox", None, 1);
    assert_eq!(top.len(), 1);
    assert_eq!(top[0].id, three.id);
    assert!(store.search("fox", None, 0).is_empty());
}

#[test]
fn stats_count_kinds_most_frequent_first() {
    let mut store = MemStore::new();
    let tiles = vec![
        make_tile(TileKind::Code, "a", None),
        make_tile(TileKind::Text, "b", None),
        make_tile(TileKind::Text, "c", None),
        make_tile(TileKind::Unknown("Chart".into()), "d", None),
    ];
    store.store(&tiles);
    let stats = store.stats();
    assert_eq!(stats.total_tiles, 4);
    assert_eq!(stats.total_bytes, 4 * 17);
    assert_eq!(stats.kind_counts.len(), 3);
    assert_eq!(stats.kind_counts[0], ("Text".to_string(), 2));
    assert!(stats.kind_counts.contains(&("Code".to_string(), 1)));
    assert!(stats.kind_counts.contains(&("Unknown(Chart)".to_string(), 1)));
}

#[test]
fn a_batch_adds_one_tile_per_new_id() {
    let mut store = MemStore::new();
    let a = make_tile(TileKind::Text, "a", None);
    store.store(&[a.clone()]);
    let a2 = TestTile { content: b"a2".to_vec(), ..a.clone() };
    let b = make_tile(TileKind::Code, "b", None);
    let b2 = TestTile { content: b"b2".to_vec(), ..b.clone() };
    store.store(&[a2.clone(), b.clone(), b2.clone()]);
    assert_eq!(store.stats().total_tiles, 2);
    let back = store.retrieve(&[a.id, b.id]);
    assert_eq!(back[0].content, a2.content);
    assert_eq!(back[1].content, b2.content);
}

#[test]
fn kind_filter_keeps_the_order_of_the_full_ranking() {
    let mut store = MemStore::new();
    let tiles = vec![
        make_tile(TileKind::Text, "fox", None),
        make_tile(TileKind::Code, "fox fox fox", None),
        make_tile(TileKind::Code, "fox", None),
        make_tile(TileKind::Text, "fox fox", None),
        make_tile(TileKind::Code, "fox fox", None),
    ];
    store.store(&tiles);
    let full: Vec<u128> = store
        .search("fox", None, usize::MAX)
        .into_iter()
        .filter(|t| t.kind == TileKind::Code)
        .map(|t| t.id)
        .collect();
    for limit in 0..4 {
        let filtered: Vec<u128> = store
            .search("fox", Some(TileKind::Code), limit)
            .into_iter()
            .map(|t| t.id)
            .collect();
        let expected: Vec<u128> = full.iter().take(limit).cloned().collect();
        assert_eq!(filtered, expected);
    }
}
