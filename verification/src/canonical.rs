//! What holds of canonical order and of the normalization forms built on it.

use crate::normalize::{
    canonical_decomposition, canonical_order, combining_class, decomposed, insert_mark, nfc, nfd,
};
use vstd::prelude::*;
use vstd::seq_lib::to_multiset_build;

verus! {

/// The scalar at index `i` stands rightly behind the one before it: it is a
/// starter, or its combining class is not below that of the one before.
pub open spec fn in_place(text: Seq<char>, i: int) -> bool {
    combining_class(text[i]) == 0 || combining_class(text[i - 1]) <= combining_class(text[i])
}

/// No scalar of `text` stands directly behind one of a higher combining
/// class, unless it is a starter.
pub open spec fn is_canonically_ordered(text: Seq<char>) -> bool {
    forall|i: int| 0 < i < text.len() ==> #[trigger] in_place(text, i)
}

/// The scalars of `text` that have the combining class `class`, in the order
/// in which they stand in `text`.
pub open spec fn of_class(text: Seq<char>, class: u8) -> Seq<char> {
    text.filter(|scalar: char| combining_class(scalar) == class)
}

/// Every scalar of `text` is its own canonical decomposition.
pub open spec fn is_decomposed(text: Seq<char>) -> bool {
    forall|i: int|
        0 <= i < text.len() ==> canonical_decomposition(#[trigger] text[i]) == seq![text[i]]
}

/// The place that `insert_mark` gives the scalar: everything behind it has a
/// higher class, and what stands before it does not.
proof fn lemma_insert_mark_place(ordered: Seq<char>, scalar: char) -> (at: int)
    ensures
        0 <= at <= ordered.len(),
        insert_mark(ordered, scalar) == ordered.subrange(0, at).push(scalar) + ordered.subrange(
            at,
            ordered.len() as int,
        ),
        forall|k: int|
            at <= k < ordered.len() ==> combining_class(#[trigger] ordered[k]) > combining_class(
                scalar,
            ),
        at < ordered.len() ==> combining_class(scalar) != 0,
        at > 0 ==> combining_class(scalar) == 0 || combining_class(ordered[at - 1])
            <= combining_class(scalar),
    decreases ordered.len(),
{
    let n = ordered.len() as int;
    if n > 0 && combining_class(scalar) != 0 && combining_class(ordered.last()) > combining_class(
        scalar,
    ) {
        let front = ordered.drop_last();
        let at = lemma_insert_mark_place(front, scalar);
        assert(front.subrange(0, at) =~= ordered.subrange(0, at));
        assert((front.subrange(0, at).push(scalar) + front.subrange(at, n - 1)).push(
            ordered.last(),
        ) =~= ordered.subrange(0, at).push(scalar) + ordered.subrange(at, n));
        assert forall|k: int| at <= k < n implies combining_class(#[trigger] ordered[k])
            > combining_class(scalar) by {
            if k < n - 1 {
                assert(ordered[k] == front[k]);
            }
        }
        at
    } else {
        assert(ordered.subrange(0, n).push(scalar) + ordered.subrange(n, n) =~= ordered.push(
            scalar,
        ));
        n
    }
}

/// Inserting a scalar into a canonically ordered text leaves it canonically
/// ordered, with the same scalars and the new one.
proof fn lemma_insert_mark_keeps(ordered: Seq<char>, scalar: char)
    requires
        is_canonically_ordered(ordered),
    ensures
        is_canonically_ordered(insert_mark(ordered, scalar)),
        insert_mark(ordered, scalar).len() == ordered.len() + 1,
        insert_mark(ordered, scalar).to_multiset() == ordered.to_multiset().insert(scalar),
{
    let n = ordered.len() as int;
    let at = lemma_insert_mark_place(ordered, scalar);
    let result = insert_mark(ordered, scalar);
    assert forall|i: int| 0 < i < result.len() implies #[trigger] in_place(result, i) by {
        if i < at {
            assert(result[i] == ordered[i] && result[i - 1] == ordered[i - 1]);
            assert(in_place(ordered, i));
        } else if i == at {
            assert(result[i] == scalar && result[i - 1] == ordered[at - 1]);
        } else if i == at + 1 {
            assert(result[i] == ordered[at] && result[i - 1] == scalar);
        } else {
            assert(result[i] == ordered[i - 1] && result[i - 1] == ordered[i - 2]);
            assert(in_place(ordered, i - 1));
        }
    }
    let head = ordered.subrange(0, at);
    let tail = ordered.subrange(at, n);
    assert(ordered =~= head + tail);
    vstd::seq_lib::lemma_multiset_commutative(head, tail);
    vstd::seq_lib::lemma_multiset_commutative(head.push(scalar), tail);
    to_multiset_build(head, scalar);
    assert(result.to_multiset() =~= ordered.to_multiset().insert(scalar));
}

/// Canonical order is a rearrangement, and its result is canonically
/// ordered: it holds the scalars of the text, each as often as the text does,
/// and in it no non-starter stands directly behind a scalar of a higher
/// class.
pub proof fn lemma_canonical_order_sorts(text: Seq<char>)
    ensures
        is_canonically_ordered(canonical_order(text)),
        canonical_order(text).len() == text.len(),
        canonical_order(text).to_multiset() == text.to_multiset(),
    decreases text.len(),
{
    if text.len() > 0 {
        let front = text.drop_last();
        lemma_canonical_order_sorts(front);
        lemma_insert_mark_keeps(canonical_order(front), text.last());
        to_multiset_build(front, text.last());
        assert(front.push(text.last()) =~= text);
    }
}

/// Inserting a scalar adds it behind the scalars of its own class, and leaves
/// the scalars of every class in the order they had.
proof fn lemma_insert_mark_is_stable(ordered: Seq<char>, scalar: char, class: u8)
    ensures
        of_class(insert_mark(ordered, scalar), class) == if combining_class(scalar) == class {
            of_class(ordered, class).push(scalar)
        } else {
            of_class(ordered, class)
        },
{
    let n = ordered.len() as int;
    let at = lemma_insert_mark_place(ordered, scalar);
    let has = |other: char| combining_class(other) == class;
    let head = ordered.subrange(0, at);
    let tail = ordered.subrange(at, n);
    assert(ordered =~= head + tail);
    Seq::filter_distributes_over_add(head, tail, has);
    Seq::filter_distributes_over_add(head.push(scalar), tail, has);
    assert(head.push(scalar).drop_last() =~= head);
    assert(head.push(scalar).filter(has) == if has(scalar) {
        head.filter(has).push(scalar)
    } else {
        head.filter(has)
    }) by {
        reveal(Seq::filter);
    }
    if has(scalar) {
        assert(tail.filter(has).len() == 0) by {
            if tail.filter(has).len() > 0 {
                let found = tail.filter(has)[0];
                tail.lemma_filter_pred(has, 0);
                tail.lemma_filter_contains_rev(has, found);
                let k = choose|k: int| 0 <= k < tail.len() && tail[k] == found;
                assert(tail[k] == ordered[at + k]);
            }
        }
        assert(head.filter(has).push(scalar) + tail.filter(has) =~= (head.filter(has)
            + tail.filter(has)).push(scalar));
    }
}

/// Canonical order is stable: the scalars of any one combining class stand in
/// the result in the order in which they stand in the text.
pub proof fn lemma_canonical_order_is_stable(text: Seq<char>, class: u8)
    ensures
        of_class(canonical_order(text), class) == of_class(text, class),
    decreases text.len(),
{
    reveal(Seq::filter);
    if text.len() > 0 {
        lemma_canonical_order_is_stable(text.drop_last(), class);
        lemma_insert_mark_is_stable(canonical_order(text.drop_last()), text.last(), class);
    }
}

/// A scalar inserted behind a starter stays behind it.
proof fn lemma_insert_mark_behind_starter(
    before: Seq<char>,
    starter: char,
    after: Seq<char>,
    scalar: char,
)
    requires
        combining_class(starter) == 0,
    ensures
        insert_mark(before.push(starter) + after, scalar) == before.push(starter) + insert_mark(
            after,
            scalar,
        ),
    decreases after.len(),
{
    let whole = before.push(starter) + after;
    if after.len() == 0 {
        assert(whole =~= before.push(starter));
        assert(before.push(starter) + after.push(scalar) =~= whole.push(scalar));
    } else {
        assert(whole.last() == after.last());
        assert(whole.drop_last() =~= before.push(starter) + after.drop_last());
        lemma_insert_mark_behind_starter(before, starter, after.drop_last(), scalar);
        if combining_class(scalar) != 0 && combining_class(after.last()) > combining_class(
            scalar,
        ) {
            assert((before.push(starter) + insert_mark(after.drop_last(), scalar)).push(
                after.last(),
            ) =~= before.push(starter) + insert_mark(after.drop_last(), scalar).push(
                after.last(),
            ));
        } else {
            assert(whole.push(scalar) =~= before.push(starter) + after.push(scalar));
        }
    }
}

/// Nothing moves across a starter: the canonical order of a text with a
/// starter in it is the canonical order of what stands before the starter,
/// the starter, and the canonical order of what stands behind it.
pub proof fn lemma_canonical_order_splits_at_starter(
    before: Seq<char>,
    starter: char,
    after: Seq<char>,
)
    requires
        combining_class(starter) == 0,
    ensures
        canonical_order(before.push(starter) + after) == canonical_order(before).push(starter)
            + canonical_order(after),
    decreases after.len(),
{
    let whole = before.push(starter) + after;
    if after.len() == 0 {
        assert(whole =~= before.push(starter));
        assert(whole.drop_last() =~= before);
        assert(canonical_order(before).push(starter) + canonical_order(after)
            =~= canonical_order(before).push(starter));
    } else {
        assert(whole.drop_last() =~= before.push(starter) + after.drop_last());
        lemma_canonical_order_splits_at_starter(before, starter, after.drop_last());
        lemma_insert_mark_behind_starter(
            canonical_order(before),
            starter,
            canonical_order(after.drop_last()),
            after.last(),
        );
    }
}

/// Canonical order leaves a canonically ordered text as it is.
pub proof fn lemma_canonical_order_fixes_ordered(text: Seq<char>)
    requires
        is_canonically_ordered(text),
    ensures
        canonical_order(text) == text,
    decreases text.len(),
{
    if text.len() > 0 {
        let front = text.drop_last();
        assert forall|i: int| 0 < i < front.len() implies #[trigger] in_place(front, i) by {
            assert(in_place(text, i));
        }
        lemma_canonical_order_fixes_ordered(front);
        if front.len() > 0 {
            assert(in_place(text, text.len() - 1));
        }
        assert(front.push(text.last()) =~= text);
    }
}

/// Putting a text in canonical order twice is the same as doing it once.
pub proof fn lemma_canonical_order_idempotent(text: Seq<char>)
    ensures
        canonical_order(canonical_order(text)) == canonical_order(text),
{
    lemma_canonical_order_sorts(text);
    lemma_canonical_order_fixes_ordered(canonical_order(text));
}

/// Decomposing a text whose scalars are their own decompositions changes
/// nothing.
pub proof fn lemma_decomposed_fixes_decomposed(text: Seq<char>)
    requires
        is_decomposed(text),
    ensures
        decomposed(text) == text,
    decreases text.len(),
{
    if text.len() > 0 {
        let front = text.drop_last();
        assert forall|i: int| 0 <= i < front.len() implies canonical_decomposition(
            #[trigger] front[i],
        ) == seq![front[i]] by {
            assert(front[i] == text[i]);
        }
        lemma_decomposed_fixes_decomposed(front);
        assert(front + seq![text.last()] =~= text);
    }
}

/// The form D of a text is its own form D, wherever none of its scalars
/// decomposes further.
pub proof fn lemma_nfd_idempotent_where_decomposed(text: Seq<char>)
    requires
        is_decomposed(nfd(text)),
    ensures
        nfd(nfd(text)) == nfd(text),
{
    lemma_decomposed_fixes_decomposed(nfd(text));
    lemma_canonical_order_idempotent(decomposed(text));
}

/// The form C of a text is its own form C, wherever decomposing the composed
/// text leads back to the form D of the text.
pub proof fn lemma_nfc_idempotent_where_composition_decomposes(text: Seq<char>)
    requires
        nfd(nfc(text)) == nfd(text),
    ensures
        nfc(nfc(text)) == nfc(text),
{
}

} // verus!
