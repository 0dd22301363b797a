//! Tile kinds and the labels under which they are indexed and counted.

use vstd::prelude::*;

verus! {

/// Kinds of tiles an agent might store.
#[derive(Debug, Clone, PartialEq, Eq, Hash)]
pub enum TileKind {
    Text,
    Code,
    Audio,
    Image,
    Structured,
    Unknown(String),
}

/// The mathematical value of a [`TileKind`].
pub enum KindView {
    Text,
    Code,
    Audio,
    Image,
    Structured,
    Unknown(Seq<char>),
}

impl View for TileKind {
    type V = KindView;

    open spec fn view(&self) -> KindView {
        match self {
            TileKind::Text => KindView::Text,
            TileKind::Code => KindView::Code,
            TileKind::Audio => KindView::Audio,
            TileKind::Image => KindView::Image,
            TileKind::Structured => KindView::Structured,
            TileKind::Unknown(s) => KindView::Unknown(s@),
        }
    }
}

/// The name of a kind: the variant's name, or the text of an unknown kind.
pub open spec fn kind_label(k: KindView) -> Seq<char> {
    match k {
        KindView::Text => "Text"@,
        KindView::Code => "Code"@,
        KindView::Audio => "Audio"@,
        KindView::Image => "Image"@,
        KindView::Structured => "Structured"@,
        KindView::Unknown(s) => s,
    }
}

/// The label that names a kind in the store's statistics: the variant's name,
/// or `Unknown(..)` around the text of an unknown kind.
pub open spec fn stats_label(k: KindView) -> Seq<char> {
    match k {
        KindView::Unknown(s) => "Unknown("@ + s + ")"@,
        _ => kind_label(k),
    }
}

impl TileKind {
    /// The name of this kind.
    pub fn label(&self) -> (l: &str)
        ensures
            l@ == kind_label(self@),
    {
        match self {
            TileKind::Text => "Text",
            TileKind::Code => "Code",
            TileKind::Audio => "Audio",
            TileKind::Image => "Image",
            TileKind::Structured => "Structured",
            TileKind::Unknown(s) => s.as_str(),
        }
    }

    /// The label of this kind in the store's statistics.
    pub fn stats_label(&self) -> (l: String)
        ensures
            l@ == stats_label(self@),
            forall|other: KindView| #[trigger] stats_label(other) == l@ ==> other == self@,
    {
        proof {
            assert forall|other: KindView| #[trigger] stats_label(other) == stats_label(self@) implies other == self@ by {
                lemma_stats_labels_distinct(other, self@);
            }
        }
        match self {
            TileKind::Unknown(s) => {
                let mut l = String::from_str("Unknown(");
                l.append(s.as_str());
                l.append(")");
                l
            },
            _ => String::from_str(self.label()),
        }
    }

    /// Whether two kinds are the same kind (unknown kinds by their text).
    pub fn same_as(&self, other: &TileKind) -> (same: bool)
        ensures
            same == (self@ == other@),
    {
        match (self, other) {
            (TileKind::Text, TileKind::Text) => true,
            (TileKind::Code, TileKind::Code) => true,
            (TileKind::Audio, TileKind::Audio) => true,
            (TileKind::Image, TileKind::Image) => true,
            (TileKind::Structured, TileKind::Structured) => true,
            (TileKind::Unknown(a), TileKind::Unknown(b)) => a.eq(b),
            _ => false,
        }
    }
}

/// The statistics label of a built-in kind is its variant's name, that of an
/// unknown kind is `Unknown(..)` around its text, and two different kinds
/// never share a label.
pub proof fn lemma_stats_labels_distinct(k1: KindView, k2: KindView)
    ensures
        stats_label(KindView::Text) == "Text"@,
        stats_label(KindView::Code) == "Code"@,
        stats_label(KindView::Audio) == "Audio"@,
        stats_label(KindView::Image) == "Image"@,
        stats_label(KindView::Structured) == "Structured"@,
        stats_label(k1) == stats_label(k2) ==> k1 == k2,
{
    reveal_strlit("Text");
    reveal_strlit("Code");
    reveal_strlit("Audio");
    reveal_strlit("Image");
    reveal_strlit("Structured");
    reveal_strlit("Unknown(");
    reveal_strlit(")");
    let l1 = stats_label(k1);
    let l2 = stats_label(k2);
    if l1 == l2 {
        assert(l1[0] == l2[0]);
        match (k1, k2) {
            (KindView::Unknown(a), KindView::Unknown(b)) => {
                assert(l1.len() == a.len() + 9);
                assert(l2.len() == b.len() + 9);
                assert forall|i: int| 0 <= i < a.len() implies a[i] == b[i] by {
                    assert(l1[i + 8] == a[i]);
                    assert(l2[i + 8] == b[i]);
                }
                assert(a =~= b);
            },
            _ => {},
        }
    }
}

} // verus!
