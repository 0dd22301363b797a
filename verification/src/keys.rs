//! The key layout of the kind index and the source index.
//!
//! A kind index key is the prefix of the tile's kind followed by the tile's
//! id bytes; a source index key is the source's id bytes followed by the
//! tile's id bytes.
//! Both indexes map their keys to the tile's id bytes.

use vstd::prelude::*;
use vstd::utf8::*;
use crate::ids::{be_bytes, id_key, lemma_be_bytes_injective};
use crate::kind::{KindView, TileKind};

verus! {

/// The byte `:` that ends a kind's name in a kind index key.
pub open spec fn colon() -> u8 {
    58u8
}

/// The byte that opens and closes the name of an unknown kind that would
/// otherwise collide with another kind's keys. It never occurs in UTF-8
/// text.
pub open spec fn unknown_tag() -> u8 {
    0xFFu8
}

/// The UTF-8 bytes of a kind's name: the built-in kind's name, or the text
/// of an unknown kind.
pub open spec fn name_bytes(k: KindView) -> Seq<u8> {
    match k {
        KindView::Text => seq![84u8, 101u8, 120u8, 116u8],
        KindView::Code => seq![67u8, 111u8, 100u8, 101u8],
        KindView::Audio => seq![65u8, 117u8, 100u8, 105u8, 111u8],
        KindView::Image => seq![73u8, 109u8, 97u8, 103u8, 101u8],
        KindView::Structured => seq![83u8, 116u8, 114u8, 117u8, 99u8, 116u8, 117u8, 114u8, 101u8, 100u8],
        KindView::Unknown(s) => encode_utf8(s),
    }
}

/// The bytes are the name of a built-in kind.
pub open spec fn is_builtin_name(name: Seq<u8>) -> bool {
    ||| name == name_bytes(KindView::Text)
    ||| name == name_bytes(KindView::Code)
    ||| name == name_bytes(KindView::Audio)
    ||| name == name_bytes(KindView::Image)
    ||| name == name_bytes(KindView::Structured)
}

/// An unknown kind whose name holds a `:` or is a built-in kind's name: its
/// keys are tagged so that they stay apart from every other kind's.
pub open spec fn is_tagged(k: KindView) -> bool {
    k is Unknown && (name_bytes(k).contains(colon()) || is_builtin_name(name_bytes(k)))
}

/// The prefix shared by the kind index keys of one kind: the kind's name
/// followed by `:`, or, for a tagged unknown kind, its name between two tag
/// bytes.
pub open spec fn kind_prefix_of(k: KindView) -> Seq<u8> {
    if is_tagged(k) {
        seq![unknown_tag()] + name_bytes(k) + seq![unknown_tag()]
    } else {
        name_bytes(k).push(colon())
    }
}

/// The kind index key of a tile.
pub open spec fn kind_key_of(k: KindView, id: u128) -> Seq<u8> {
    kind_prefix_of(k) + be_bytes(id)
}

/// The prefix shared by the source index keys of one source.
pub open spec fn source_prefix_of(source: u128) -> Seq<u8> {
    be_bytes(source)
}

/// The source index key of a tile.
pub open spec fn source_key_of(source: u128, id: u128) -> Seq<u8> {
    source_prefix_of(source) + be_bytes(id)
}

/// Appends the bytes of a slice to a vector.
fn append_bytes(v: &mut Vec<u8>, bytes: &[u8])
    ensures
        final(v)@ == old(v)@ + bytes@,
{
    let n = bytes.len();
    for i in 0..n
        invariant
            n == bytes@.len(),
            v@ == old(v)@ + bytes@.subrange(0, i as int),
    {
        v.push(bytes[i]);
        assert(bytes@.subrange(0, i + 1) == bytes@.subrange(0, i as int).push(bytes@[i as int]));
    }
    assert(bytes@.subrange(0, n as int) == bytes@);
}

/// Whether two byte slices hold the same bytes.
fn same_bytes(a: &[u8], b: &[u8]) -> (same: bool)
    ensures
        same == (a@ == b@),
{
    let n = a.len();
    if n != b.len() {
        return false;
    }
    for i in 0..n
        invariant
            n == a@.len(),
            n == b@.len(),
            forall|j: int| 0 <= j < i ==> a@[j] == b@[j],
    {
        if a[i] != b[i] {
            return false;
        }
    }
    assert(a@ =~= b@);
    true
}

/// Whether a byte slice holds the byte `x`.
fn holds_byte(a: &[u8], x: u8) -> (found: bool)
    ensures
        found == a@.contains(x),
{
    let n = a.len();
    for i in 0..n
        invariant
            n == a@.len(),
            forall|j: int| 0 <= j < i ==> a@[j] != x,
    {
        if a[i] == x {
            assert(a@[i as int] == x);
            return true;
        }
    }
    false
}

/// The name bytes of a built-in kind.
fn builtin_name(kind: &TileKind) -> (name: Vec<u8>)
    requires
        !(kind@ is Unknown),
    ensures
        name@ == name_bytes(kind@),
{
    let name: Vec<u8> = match kind {
        TileKind::Text => vec![84u8, 101u8, 120u8, 116u8],
        TileKind::Code => vec![67u8, 111u8, 100u8, 101u8],
        TileKind::Audio => vec![65u8, 117u8, 100u8, 105u8, 111u8],
        TileKind::Image => vec![73u8, 109u8, 97u8, 103u8, 101u8],
        _ => vec![83u8, 116u8, 114u8, 117u8, 99u8, 116u8, 117u8, 114u8, 101u8, 100u8],
    };
    assert(name@ =~= name_bytes(kind@));
    name
}

/// Whether the bytes are the name of a built-in kind.
fn names_builtin(name: &[u8]) -> (builtin: bool)
    ensures
        builtin == is_builtin_name(name@),
{
    let text = builtin_name(&TileKind::Text);
    let code = builtin_name(&TileKind::Code);
    let audio = builtin_name(&TileKind::Audio);
    let image = builtin_name(&TileKind::Image);
    let structured = builtin_name(&TileKind::Structured);
    same_bytes(name, text.as_slice()) || same_bytes(name, code.as_slice()) || same_bytes(name, audio.as_slice())
        || same_bytes(name, image.as_slice()) || same_bytes(name, structured.as_slice())
}

/// The prefix under which the kind index holds the tiles of a kind.
pub fn kind_prefix(kind: &TileKind) -> (prefix: Vec<u8>)
    ensures
        prefix@ == kind_prefix_of(kind@),
{
    match kind {
        TileKind::Unknown(s) => {
            let name = s.as_str().as_bytes();
            let mut prefix: Vec<u8> = Vec::new();
            if holds_byte(name, 58u8) || names_builtin(name) {
                prefix.push(0xFFu8);
                append_bytes(&mut prefix, name);
                prefix.push(0xFFu8);
            } else {
                append_bytes(&mut prefix, name);
                prefix.push(58u8);
            }
            assert(prefix@ =~= kind_prefix_of(kind@));
            prefix
        },
        _ => {
            let mut prefix = builtin_name(kind);
            prefix.push(58u8);
            prefix
        },
    }
}

/// The kind index key of the tile with this kind and id.
pub fn kind_key(kind: &TileKind, id: u128) -> (key: Vec<u8>)
    ensures
        key@ == kind_key_of(kind@, id),
{
    let mut key = kind_prefix(kind);
    let id_bytes = id_key(id);
    append_bytes(&mut key, id_bytes.as_slice());
    key
}

/// The prefix under which the source index holds the tiles of a source.
pub fn source_prefix(source: u128) -> (prefix: Vec<u8>)
    ensures
        prefix@ == source_prefix_of(source),
{
    id_key(source)
}

/// The source index key of the tile with this source and id.
pub fn source_key(source: u128, id: u128) -> (key: Vec<u8>)
    ensures
        key@ == source_key_of(source, id),
{
    let mut key = id_key(source);
    let id_bytes = id_key(id);
    append_bytes(&mut key, id_bytes.as_slice());
    key
}

/// Distinct label sequences have distinct UTF-8 encodings.
proof fn lemma_encode_injective(a: Seq<char>, b: Seq<char>)
    requires
        encode_utf8(a) == encode_utf8(b),
    ensures
        a == b,
{
    encode_utf8_decode_utf8(a);
    encode_utf8_decode_utf8(b);
}

/// Every byte of the UTF-8 encoding of a scalar is below `0xF8`.
proof fn lemma_scalar_bytes_low(x: u32)
    ensures
        forall|i: int| 0 <= i < encode_scalar(x).len() ==> #[trigger] encode_scalar(x)[i] < 0xF8u8,
{
    assert(leading_byte_width_1(x) < 0xF8u8) by (bit_vector);
    assert(leading_byte_width_2(x) < 0xF8u8) by (bit_vector);
    assert(leading_byte_width_3(x) < 0xF8u8) by (bit_vector);
    assert(leading_byte_width_4(x) < 0xF8u8) by (bit_vector);
    assert(last_continuation_byte(x) < 0xF8u8) by (bit_vector);
    assert(second_last_continuation_byte(x) < 0xF8u8) by (bit_vector);
    assert(third_last_continuation_byte(x) < 0xF8u8) by (bit_vector);
}

/// UTF-8 text never holds the tag byte.
pub proof fn lemma_utf8_has_no_tag(s: Seq<char>)
    ensures
        !encode_utf8(s).contains(unknown_tag()),
    decreases s.len(),
{
    if s.len() > 0 {
        let head = encode_scalar(s[0] as u32);
        let tail = encode_utf8(s.drop_first());
        lemma_scalar_bytes_low(s[0] as u32);
        lemma_utf8_has_no_tag(s.drop_first());
        let e = encode_utf8(s);
        assert(e == head + tail);
        assert forall|i: int| 0 <= i < e.len() implies e[i] != unknown_tag() by {
            if i < head.len() {
                assert(e[i] == head[i]);
            } else {
                assert(e[i] == tail[i - head.len()]);
                assert(!tail.contains(unknown_tag()));
                if tail[i - head.len()] == unknown_tag() {
                    assert(tail.contains(unknown_tag()));
                }
            }
        }
    }
}

/// The names of the built-in kinds hold no `:` and no tag byte, and
/// differ from each other.
proof fn lemma_builtin_names(k: KindView)
    requires
        !(k is Unknown),
    ensures
        !name_bytes(k).contains(colon()),
        !name_bytes(k).contains(unknown_tag()),
        name_bytes(k).len() > 0,
        name_bytes(k)[0] != unknown_tag(),
        is_builtin_name(name_bytes(k)),
        forall|j: KindView| !(j is Unknown) && j != k ==> name_bytes(j) != name_bytes(k),
{
    let n = name_bytes(k);
    assert forall|i: int| 0 <= i < n.len() implies 65 <= #[trigger] n[i] <= 122 by {}
    assert forall|j: KindView| !(j is Unknown) && j != k implies name_bytes(j) != name_bytes(k) by {
        if name_bytes(j) == name_bytes(k) {
            assert(name_bytes(j)[0] == name_bytes(k)[0]);
            assert(name_bytes(j).len() == name_bytes(k).len());
            assert(name_bytes(j)[1] == name_bytes(k)[1]);
        }
    }
}

/// Two names without `:`, each followed by `:`: the prefix of one starts the
/// other (followed by anything) only when the names are the same.
proof fn lemma_colon_names(n1: Seq<u8>, n2: Seq<u8>, rest: Seq<u8>)
    requires
        !n1.contains(colon()),
        !n2.contains(colon()),
        n2.push(colon()).is_prefix_of(n1.push(colon()) + rest),
    ensures
        n1 == n2,
{
    let key = n1.push(colon()) + rest;
    let p = n2.push(colon());
    assert forall|i: int| 0 <= i < n1.len() implies key[i] == n1[i] by {}
    assert(key[n1.len() as int] == colon());
    assert(p[n2.len() as int] == colon());
    if n1.len() < n2.len() {
        assert(key[n1.len() as int] == p[n1.len() as int]);
        assert(n2[n1.len() as int] == colon());
        assert(n2.contains(colon()));
    } else if n1.len() > n2.len() {
        assert(key[n2.len() as int] == p[n2.len() as int]);
        assert(n1[n2.len() as int] == colon());
        assert(n1.contains(colon()));
    } else {
        assert forall|i: int| 0 <= i < n1.len() implies n1[i] == n2[i] by {
            assert(key[i] == p[i]);
        }
        assert(n1 =~= n2);
    }
}

/// A scan of the kind index under the prefix of one kind meets exactly the
/// keys of tiles of that kind.
pub proof fn lemma_kind_scan_exact(k: KindView, id: u128, scanned: KindView)
    ensures
        kind_prefix_of(scanned).is_prefix_of(kind_key_of(k, id)) <==> k == scanned,
{
    let key = kind_key_of(k, id);
    let p = kind_prefix_of(scanned);
    if k == scanned {
        assert(p =~= key.subrange(0, p.len() as int));
    }
    if p.is_prefix_of(key) {
        assert(key[0] == kind_prefix_of(k)[0]);
        assert(p[0] == key[0]);
        if let KindView::Unknown(s) = k {
            lemma_utf8_has_no_tag(s);
        } else {
            lemma_builtin_names(k);
        }
        if let KindView::Unknown(s) = scanned {
            lemma_utf8_has_no_tag(s);
        } else {
            lemma_builtin_names(scanned);
        }
        let l1 = name_bytes(k);
        let l2 = name_bytes(scanned);
        // the first byte of an untagged prefix is never the tag byte
        if !is_tagged(k) {
            if l1.len() > 0 {
                assert(kind_prefix_of(k)[0] == l1[0]);
                assert(l1.contains(l1[0]));
            }
        }
        if !is_tagged(scanned) {
            if l2.len() > 0 {
                assert(p[0] == l2[0]);
                assert(l2.contains(l2[0]));
            }
        }
        if is_tagged(k) && is_tagged(scanned) {
            let s1 = k->Unknown_0;
            let s2 = scanned->Unknown_0;
            assert forall|i: int| 0 <= i < l1.len() implies key[i + 1] == l1[i] by {}
            assert(key[l1.len() + 1int] == unknown_tag());
            assert forall|i: int| 0 <= i < l2.len() implies p[i + 1] == l2[i] by {}
            assert(p[l2.len() + 1int] == unknown_tag());
            if l1.len() < l2.len() {
                assert(key[l1.len() + 1int] == p[l1.len() + 1int]);
                assert(l2[l1.len() as int] == unknown_tag());
                assert(l2.contains(unknown_tag()));
            } else if l1.len() > l2.len() {
                assert(key[l2.len() + 1int] == p[l2.len() + 1int]);
                assert(l1[l2.len() as int] == unknown_tag());
                assert(l1.contains(unknown_tag()));
            } else {
                assert forall|i: int| 0 <= i < l1.len() implies l1[i] == l2[i] by {
                    assert(key[i + 1] == p[i + 1]);
                }
                assert(l1 =~= l2);
                lemma_encode_injective(s1, s2);
            }
        } else if !is_tagged(k) && !is_tagged(scanned) {
            assert(key == l1.push(colon()) + be_bytes(id));
            lemma_colon_names(l1, l2, be_bytes(id));
            if let KindView::Unknown(s1) = k {
                if let KindView::Unknown(s2) = scanned {
                    lemma_encode_injective(s1, s2);
                }
            }
        }
    }
}

/// A scan of the source index under the prefix of one source meets exactly
/// the keys of tiles with that source.
pub proof fn lemma_source_scan_exact(source: u128, id: u128, scanned: u128)
    ensures
        source_prefix_of(scanned).is_prefix_of(source_key_of(source, id)) <==> source
            == scanned,
{
    let key = source_key_of(source, id);
    if source_prefix_of(scanned).is_prefix_of(key) {
        assert(be_bytes(source) =~= key.subrange(0, 16));
        lemma_be_bytes_injective(source, scanned);
    }
    if source == scanned {
        assert(be_bytes(source) =~= key.subrange(0, 16));
    }
}

/// A tile's id is the last 16 bytes of each of its index keys, so two tiles
/// with different ids never share an index key.
pub proof fn lemma_index_keys_determine_id(k: KindView, source: u128, id: u128)
    ensures
        kind_key_of(k, id).subrange(kind_prefix_of(k).len() as int, kind_key_of(k, id).len() as int)
            == be_bytes(id),
        source_key_of(source, id).subrange(16, 32) == be_bytes(id),
{
    assert(kind_key_of(k, id).subrange(kind_prefix_of(k).len() as int, kind_key_of(k, id).len() as int)
        =~= be_bytes(id));
    assert(source_key_of(source, id).subrange(16, 32) =~= be_bytes(id));
}

} // verus!
