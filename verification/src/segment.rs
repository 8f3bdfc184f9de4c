//! Grapheme cluster segmentation.
//!
//! Cluster boundaries follow the extended grapheme cluster rules of Unicode
//! Standard Annex #29, as computed by the `unicode-segmentation` crate. The
//! rule table is not restated here: the clusters of a text are named by
//! [`grapheme_clusters`], and what every segmentation satisfies is stated by
//! [`is_segmentation`].

use unicode_segmentation::UnicodeSegmentation;
use vstd::prelude::*;

verus! {

/// The extended grapheme clusters of `text`, in order.
pub uninterp spec fn grapheme_clusters(text: Seq<char>) -> Seq<Seq<char>>;

/// The scalar sequences held by a list of strings.
pub open spec fn cluster_views(clusters: Seq<String>) -> Seq<Seq<char>> {
    Seq::new(clusters.len(), |i: int| clusters[i]@)
}

/// `clusters` cuts `text` into non-empty pieces: concatenated in order they
/// give `text` back, with no gap and no overlap.
pub open spec fn is_segmentation(clusters: Seq<Seq<char>>, text: Seq<char>) -> bool {
    &&& clusters.flatten() == text
    &&& forall|i: int| 0 <= i < clusters.len() ==> (#[trigger] clusters[i]).len() > 0
}

/// Calls `UnicodeSegmentation::graphemes(text, true)` and copies each cluster
/// into a `String`.
///
/// Trusted: the clusters are a function of the text alone, named
/// [`grapheme_clusters`]. The iterator hands out consecutive slices of `text`,
/// from offset 0 to its end, each ending at a boundary strictly after its
/// start; so the clusters are non-empty and concatenate to `text`.
#[verifier::external_body]
fn extended_graphemes(text: &str) -> (clusters: Vec<String>)
    ensures
        cluster_views(clusters@) == grapheme_clusters(text@),
        is_segmentation(cluster_views(clusters@), text@),
{
    text.graphemes(true).map(String::from).collect()
}

/// The grapheme clusters of `text`, in order.
pub fn graphemes(text: &str) -> (clusters: Vec<String>)
    ensures
        cluster_views(clusters@) == grapheme_clusters(text@),
        is_segmentation(cluster_views(clusters@), text@),
{
    extended_graphemes(text)
}

/// Every cluster of `clusters` holds exactly one scalar value.
pub open spec fn all_single(clusters: Seq<Seq<char>>) -> bool {
    forall|i: int| 0 <= i < clusters.len() ==> (#[trigger] clusters[i]).len() == 1
}

/// A text has at least as many scalar values as any segmentation of it has
/// clusters, and exactly as many if and only if every cluster is a single
/// scalar value.
pub proof fn lemma_segmentation_count(clusters: Seq<Seq<char>>, text: Seq<char>)
    requires
        is_segmentation(clusters, text),
    ensures
        clusters.len() <= text.len(),
        clusters.len() == text.len() <==> all_single(clusters),
    decreases clusters.len(),
{
    if clusters.len() > 0 {
        let rest = clusters.drop_first();
        let tail = rest.flatten();
        assert(text == clusters.first() + tail);
        assert(forall|i: int| 0 <= i < rest.len() ==> #[trigger] rest[i] == clusters[i + 1]);
        lemma_segmentation_count(rest, tail);
        assert(clusters[0].len() > 0);
        if all_single(clusters) {
            assert(all_single(rest));
        }
        if all_single(rest) && clusters[0].len() == 1 {
            assert forall|i: int| 0 <= i < clusters.len() implies (#[trigger] clusters[i]).len()
                == 1 by {
                if i > 0 {
                    assert(clusters[i] == rest[i - 1]);
                }
            }
        }
    }
}

} // verus!
