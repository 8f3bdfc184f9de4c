//! Lengths, reversal and substrings of a text, by byte, by scalar value and
//! by grapheme cluster.

use crate::convert::scalars;
use crate::segment::{
    all_single, cluster_views, grapheme_clusters, graphemes, is_segmentation,
    lemma_segmentation_count,
};
use vstd::prelude::*;
use vstd::utf8::{encode_scalar, encode_utf8};

verus! {

/// A grapheme range that does not lie within the text.
#[derive(Clone, Copy, Debug, PartialEq, Eq)]
pub struct RangeError {
    /// The index of the first cluster that was asked for.
    pub start: usize,
    /// The number of clusters that was asked for.
    pub count: usize,
    /// The number of clusters that the text has.
    pub length: usize,
}

/// The text read backwards, cluster by cluster: the clusters change places,
/// the scalars inside a cluster keep their order.
pub open spec fn reversed_by_grapheme(text: Seq<char>) -> Seq<char> {
    grapheme_clusters(text).reverse().flatten()
}

/// The scalars of `count` consecutive clusters of `text`, from cluster `start`.
pub open spec fn grapheme_slice(text: Seq<char>, start: int, count: int) -> Seq<char> {
    grapheme_clusters(text).subrange(start, start + count).flatten()
}

/// Appending one more cluster in front of a reversed tail.
proof fn lemma_reverse_step(clusters: Seq<Seq<char>>, i: int)
    requires
        0 <= i < clusters.len(),
    ensures
        clusters.subrange(i, clusters.len() as int).reverse().flatten() == clusters.subrange(
            i + 1,
            clusters.len() as int,
        ).reverse().flatten() + clusters[i],
{
    let n = clusters.len() as int;
    let tail = clusters.subrange(i + 1, n).reverse();
    assert(clusters.subrange(i, n).reverse() =~= tail.push(clusters[i]));
    tail.lemma_flatten_push(clusters[i]);
}

/// Appending one more cluster behind a slice.
proof fn lemma_slice_step(clusters: Seq<Seq<char>>, start: int, i: int)
    requires
        0 <= start <= i < clusters.len(),
    ensures
        clusters.subrange(start, i + 1).flatten() == clusters.subrange(start, i).flatten()
            + clusters[i],
{
    let head = clusters.subrange(start, i);
    assert(clusters.subrange(start, i + 1) =~= head.push(clusters[i]));
    head.lemma_flatten_push(clusters[i]);
}

/// The length of `text` in bytes of its UTF-8 encoding.
pub fn byte_length(text: &str) -> (n: usize)
    ensures
        n == encode_utf8(text@).len(),
{
    text.as_bytes().len()
}

/// The length of `text` in scalar values.
pub fn scalar_length(text: &str) -> (n: usize)
    ensures
        n == text@.len(),
{
    text.unicode_len()
}

/// The length of `text` in grapheme clusters.
pub fn grapheme_length(text: &str) -> (n: usize)
    ensures
        n == grapheme_clusters(text@).len(),
        is_segmentation(grapheme_clusters(text@), text@),
{
    let clusters = graphemes(text);
    clusters.len()
}

/// The text read backwards, scalar by scalar.
///
/// This tears combining marks off their base: the result of reversing
/// `"noe\u{308}l"` carries the diaeresis on the `l`. It is kept as the naive
/// baseline that [`reverse_by_grapheme`] corrects.
pub fn reverse_by_scalar(text: &str) -> (reversed: String)
    ensures
        reversed@ == text@.reverse(),
{
    let forward = scalars(text);
    let mut reversed = String::new();
    let mut i: usize = forward.len();
    while i > 0
        invariant
            i <= forward.len(),
            forward@ == text@,
            reversed@ == text@.subrange(i as int, text@.len() as int).reverse(),
        decreases i,
    {
        i -= 1;
        reversed.push(forward[i]);
    }
    assert(text@.subrange(0, text@.len() as int) =~= text@);
    reversed
}

/// The text read backwards, cluster by cluster.
pub fn reverse_by_grapheme(text: &str) -> (reversed: String)
    ensures
        reversed@ == reversed_by_grapheme(text@),
{
    let clusters = graphemes(text);
    let ghost views = cluster_views(clusters@);
    let mut reversed = String::new();
    let mut i: usize = clusters.len();
    while i > 0
        invariant
            i <= clusters.len(),
            views == cluster_views(clusters@),
            reversed@ == views.subrange(i as int, views.len() as int).reverse().flatten(),
        decreases i,
    {
        i -= 1;
        proof {
            lemma_reverse_step(views, i as int);
        }
        reversed.append(clusters[i].as_str());
    }
    assert(views.subrange(0, views.len() as int) =~= views);
    reversed
}

/// The `count` clusters of `text` that start at cluster `start`, as one text.
///
/// The range has to lie within the text: a `start` beyond the last cluster, or
/// a `count` that reaches past it, is refused.
pub fn substring_by_grapheme(text: &str, start: usize, count: usize) -> (result: Result<
    String,
    RangeError,
>)
    ensures
        match result {
            Ok(slice) => {
                &&& start + count <= grapheme_clusters(text@).len()
                &&& slice@ == grapheme_slice(text@, start as int, count as int)
            },
            Err(error) => {
                &&& start + count > grapheme_clusters(text@).len()
                &&& error.start == start
                &&& error.count == count
                &&& error.length == grapheme_clusters(text@).len()
            },
        },
{
    let clusters = graphemes(text);
    let length = clusters.len();
    if start > length || count > length - start {
        return Err(RangeError { start, count, length });
    }
    let ghost views = cluster_views(clusters@);
    let end: usize = start + count;
    let mut slice = String::new();
    let mut i: usize = start;
    while i < end
        invariant
            start <= i <= end <= clusters.len(),
            views == cluster_views(clusters@),
            slice@ == views.subrange(start as int, i as int).flatten(),
        decreases end - i,
    {
        proof {
            lemma_slice_step(views, start as int, i as int);
        }
        slice.append(clusters[i].as_str());
        i += 1;
    }
    Ok(slice)
}

/// The UTF-8 encoding of a text has at least one byte for each scalar value.
pub proof fn lemma_scalars_fit_in_bytes(text: Seq<char>)
    ensures
        text.len() <= encode_utf8(text).len(),
    decreases text.len(),
{
    if text.len() > 0 {
        assert(encode_scalar(text[0] as u32).len() >= 1);
        lemma_scalars_fit_in_bytes(text.drop_first());
    }
}

/// A text has no more grapheme clusters than scalar values, and no more
/// scalar values than bytes. It has as many clusters as scalar values exactly
/// when none of its clusters joins two scalar values.
pub proof fn lemma_lengths_ordered(text: Seq<char>)
    requires
        is_segmentation(grapheme_clusters(text), text),
    ensures
        grapheme_clusters(text).len() <= text.len() <= encode_utf8(text).len(),
        grapheme_clusters(text).len() == text.len() <==> all_single(grapheme_clusters(text)),
{
    lemma_segmentation_count(grapheme_clusters(text), text);
    lemma_scalars_fit_in_bytes(text);
}

/// Substrings that meet at a cluster make up the whole: the first `middle`
/// clusters of a text, followed by all the others, are the text.
pub proof fn lemma_grapheme_slices_join(text: Seq<char>, middle: int)
    requires
        is_segmentation(grapheme_clusters(text), text),
        0 <= middle <= grapheme_clusters(text).len(),
    ensures
        grapheme_slice(text, 0, middle) + grapheme_slice(
            text,
            middle,
            grapheme_clusters(text).len() - middle,
        ) == text,
{
    let clusters = grapheme_clusters(text);
    let n = clusters.len() as int;
    vstd::seq_lib::lemma_flatten_concat(clusters.subrange(0, middle), clusters.subrange(middle, n));
    assert(clusters.subrange(0, middle) + clusters.subrange(middle, n) =~= clusters);
}

/// Reversing by grapheme twice gives the text back, for every text whose
/// reversal is cut at the same places: where the clusters of the reversed
/// text are the clusters of the text in reverse order.
///
/// The condition leaves out texts such as `"\n\r"`, whose two clusters
/// reversed read `"\r\n"`, which is a single cluster.
pub proof fn lemma_reverse_by_grapheme_involution(text: Seq<char>)
    requires
        is_segmentation(grapheme_clusters(text), text),
        grapheme_clusters(reversed_by_grapheme(text)) == grapheme_clusters(text).reverse(),
    ensures
        reversed_by_grapheme(reversed_by_grapheme(text)) == text,
{
    let clusters = grapheme_clusters(text);
    assert(clusters.reverse().reverse() =~= clusters);
}

} // verus!
