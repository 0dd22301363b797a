//! Unit checks of the library's functions on concrete values.

use forge_memory::ids::{id_key, parse_id};
use forge_memory::keys::{kind_key, kind_prefix, source_key, source_prefix};
use forge_memory::kind::TileKind;
use forge_memory::layout::{store_ops, CompactPlan, Op, TileHeader, Tree};
use forge_memory::rank::rank_candidates;
use forge_memory::search::SearchQuery;
use forge_memory::stats::{StatRow, StoreStats};
use forge_memory::text::{content_hash, contains_bytes, count_matches, decode_text, lowercase_text};

const ID: u128 = 0x0102030405060708090a0b0c0d0e0f10;

fn id_bytes() -> Vec<u8> {
    (1u8..=16).collect()
}

#[test]
fn id_key_is_big_endian() {
    assert_eq!(id_key(ID), id_bytes());
    assert_eq!(id_key(0), vec![0u8; 16]);
}

#[test]
fn parse_id_reads_sixteen_bytes_only() {
    assert_eq!(parse_id(&id_bytes()), Some(ID));
    assert_eq!(parse_id(&id_key(u128::MAX)), Some(u128::MAX));
    assert_eq!(parse_id(&[1, 2, 3]), None);
    assert_eq!(parse_id(&[0u8; 17]), None);
}

#[test]
fn kind_keys_are_label_colon_id() {
    let mut expected = b"Code:".to_vec();
    expected.extend(id_bytes());
    assert_eq!(kind_key(&TileKind::Code, ID), expected);
    assert_eq!(kind_prefix(&TileKind::Structured), b"Structured:".to_vec());
    assert_eq!(kind_prefix(&TileKind::Unknown("Graph".into())), b"Graph:".to_vec());
    let mut midi = b"midi:".to_vec();
    midi.extend([0u8; 16]);
    assert_eq!(kind_key(&TileKind::Unknown("midi".into()), 0), midi);
    let mut text_key = b"Text:".to_vec();
    text_key.extend([0u8; 16]);
    assert_eq!(kind_key(&TileKind::Text, 0), text_key);
    // names that would collide are tagged
    let mut tagged = vec![0xffu8];
    tagged.extend(b"Text");
    tagged.push(0xff);
    assert_eq!(kind_prefix(&TileKind::Unknown("Text".into())), tagged);
    let mut colon = vec![0xffu8];
    colon.extend(b"a:b");
    colon.push(0xff);
    assert_eq!(kind_prefix(&TileKind::Unknown("a:b".into())), colon);
    assert_eq!(kind_prefix(&TileKind::Unknown("Tex".into())), b"Tex:".to_vec());
    assert!(kind_key(&TileKind::Image, ID).starts_with(&kind_prefix(&TileKind::Image)));
    assert!(!kind_key(&TileKind::Image, ID).starts_with(&kind_prefix(&TileKind::Audio)));
}

#[test]
fn source_keys_are_source_then_id() {
    let mut expected = id_key(5);
    expected.extend(id_bytes());
    assert_eq!(source_key(5, ID), expected);
    assert_eq!(source_prefix(5), id_key(5));
    assert!(source_key(5, ID).starts_with(&source_prefix(5)));
    assert!(!source_key(5, ID).starts_with(&source_prefix(6)));
}

#[test]
fn kind_labels_and_equality() {
    assert_eq!(TileKind::Audio.label(), "Audio");
    assert_eq!(TileKind::Unknown("x".into()).label(), "x");
    assert_eq!(TileKind::Text.stats_label(), "Text");
    assert_eq!(TileKind::Unknown("x".into()).stats_label(), "Unknown(x)");
    assert!(TileKind::Unknown("a".into()).same_as(&TileKind::Unknown("a".into())));
    assert!(!TileKind::Unknown("a".into()).same_as(&TileKind::Unknown("b".into())));
    assert!(!TileKind::Text.same_as(&TileKind::Code));
}

#[test]
fn tree_names() {
    assert_eq!(Tree::Tiles.name(), "tiles");
    assert_eq!(Tree::Kinds.name(), "kind_index");
    assert_eq!(Tree::Sources.name(), "source_index");
}

#[test]
fn store_ops_write_record_and_indexes() {
    let header = TileHeader { id: ID, kind: TileKind::Text, source: Some(9) };
    let ops = store_ops(&header, None, vec![42]);
    assert_eq!(ops.len(), 3);
    match &ops[0] {
        Op::Put { tree, key, value } => {
            assert_eq!(*tree, Tree::Tiles);
            assert_eq!(key, &id_bytes());
            assert_eq!(value, &vec![42]);
        }
        _ => panic!("expected a put"),
    }
    match &ops[1] {
        Op::Put { tree, key, value } => {
            assert_eq!(*tree, Tree::Kinds);
            assert_eq!(key, &kind_key(&TileKind::Text, ID));
            assert_eq!(value, &id_bytes());
        }
        _ => panic!("expected a put"),
    }
    match &ops[2] {
        Op::Put { tree, key, value } => {
            assert_eq!(*tree, Tree::Sources);
            assert_eq!(key, &source_key(9, ID));
            assert_eq!(value, &id_bytes());
        }
        _ => panic!("expected a put"),
    }
    let no_source = TileHeader { id: ID, kind: TileKind::Text, source: None };
    assert_eq!(store_ops(&no_source, None, vec![]).len(), 2);
    // replacing a tile first takes out its old index entries
    let replaced = store_ops(&no_source, Some(&header), vec![]);
    assert_eq!(replaced.len(), 4);
    match &replaced[0] {
        Op::Remove { tree, key } => {
            assert_eq!(*tree, Tree::Kinds);
            assert_eq!(key, &kind_key(&TileKind::Text, ID));
        }
        _ => panic!("expected a removal"),
    }
    match &replaced[1] {
        Op::Remove { tree, key } => {
            assert_eq!(*tree, Tree::Sources);
            assert_eq!(key, &source_key(9, ID));
        }
        _ => panic!("expected a removal"),
    }
}

#[test]
fn compact_plan_reads_ids_and_finds_orphans() {
    let keys = vec![id_key(1), vec![1, 2, 3], id_key(2)];
    let (plan, ids) = CompactPlan::new(&keys);
    assert_eq!(ids, vec![1, 2]);
    assert!(plan.orphan_removals(1, &TileKind::Text, Some(2)).is_none());
    assert!(plan.orphan_removals(1, &TileKind::Text, None).is_none());
    let ops = plan.orphan_removals(1, &TileKind::Text, Some(3)).unwrap();
    assert_eq!(ops.len(), 3);
    match &ops[2] {
        Op::Remove { tree, key } => {
            assert_eq!(*tree, Tree::Sources);
            assert_eq!(key, &source_key(3, 1));
        }
        _ => panic!("expected a removal"),
    }
}

#[test]
fn rank_orders_by_key_then_position() {
    let keys = vec![Some(1), Some(3), None, Some(3), Some(2)];
    assert_eq!(rank_candidates(&keys, 10), vec![1, 3, 4, 0]);
    assert_eq!(rank_candidates(&keys, 2), vec![1, 3]);
    assert_eq!(rank_candidates(&keys, 0), Vec::<usize>::new());
    assert_eq!(rank_candidates(&[None, None], 5), Vec::<usize>::new());
}

#[test]
fn lowercase_and_utf8() {
    assert_eq!(lowercase_text("HeLLo ÄÖ"), "hello äö");
    assert_eq!(decode_text(b"abc"), Some("abc"));
    assert_eq!(decode_text(&[0xff, 0xfe]), None);
}

#[test]
fn content_hash_is_sha256_of_lowercase() {
    let expected: Vec<u8> = vec![
        0xba, 0x78, 0x16, 0xbf, 0x8f, 0x01, 0xcf, 0xea, 0x41, 0x41, 0x40, 0xde, 0x5d, 0xae, 0x22, 0x23,
        0xb0, 0x03, 0x61, 0xa3, 0x96, 0x17, 0x7a, 0x9c, 0xb4, 0x10, 0xff, 0x61, 0xf2, 0x00, 0x15, 0xad,
    ];
    assert_eq!(content_hash("ABC"), expected);
    assert_eq!(content_hash("abc"), expected);
}

#[test]
fn substring_matching() {
    assert!(contains_bytes(b"hello", b"ell"));
    assert!(!contains_bytes(b"hello", b"elo"));
    assert!(contains_bytes(b"", b""));
    assert!(!contains_bytes(b"ab", b"abc"));
    assert_eq!(count_matches(b"aaaa", b"aa"), 2);
    assert_eq!(count_matches(b"aaa", b"aa"), 1);
    assert_eq!(count_matches(b"abcabc", b"bc"), 2);
    assert_eq!(count_matches("héllo".as_bytes(), b""), 6);
    assert_eq!(count_matches(b"", b""), 1);
    assert_eq!(count_matches(b"xyz", b"q"), 0);
}

#[test]
fn text_scores() {
    let q = SearchQuery::new("Fox", None);
    assert_eq!(q.score_text(b"the FOX and the fox", &[]), 12);
    assert_eq!(q.score_text(b"no match", &[]), 0);
    let meta = vec![
        ("author".to_string(), "Foxy".to_string()),
        ("FOX".to_string(), "x".to_string()),
        ("k".to_string(), "v".to_string()),
    ];
    assert_eq!(q.score_text(b"no match", &meta), 10);
    // content that is not UTF-8 earns nothing; metadata still counts
    assert_eq!(q.score_text(&[0xff, b'f', b'o', b'x'], &meta), 10);
    let empty = SearchQuery::new("", None);
    assert_eq!(empty.score_text("héllo".as_bytes(), &[]), 16);
}

#[test]
fn kind_filter() {
    let q = SearchQuery::new("x", Some(TileKind::Unknown("a".into())));
    assert!(q.admits(&TileKind::Unknown("a".into())));
    assert!(!q.admits(&TileKind::Text));
    let any = SearchQuery::new("x", None);
    assert!(any.admits(&TileKind::Audio));
}

#[test]
fn stats_summary_counts_unreadable_bytes() {
    let rows = vec![
        StatRow { bytes: 10, kind: Some(TileKind::Code) },
        StatRow { bytes: 5, kind: None },
        StatRow { bytes: 1, kind: Some(TileKind::Unknown("q".into())) },
        StatRow { bytes: 2, kind: Some(TileKind::Code) },
    ];
    let stats = StoreStats::summarize(7, &rows);
    assert_eq!(stats.total_tiles, 7);
    assert_eq!(stats.total_bytes, 18);
    assert_eq!(
        stats.kind_counts,
        vec![("Code".to_string(), 2), ("Unknown(q)".to_string(), 1)]
    );
    let empty = StoreStats::summarize(0, &[]);
    assert_eq!(empty.total_bytes, 0);
    assert!(empty.kind_counts.is_empty());
}
