//! Canonical normalization: the forms NFD and NFC of Unicode Standard
//! Annex #15.
//!
//! The algorithm is this module's own and is verified against the spec
//! functions below. The character properties it reads (the canonical
//! decomposition of a scalar value, its combining class, the primary composite
//! of a pair) come from the tables of the `unicode-normalization` crate and
//! are named, not restated.

use crate::convert::{scalars, text_of};
use vstd::prelude::*;

verus! {

/// A canonical normalization form.
#[derive(Clone, Copy, Debug, PartialEq, Eq)]
pub enum Form {
    /// Canonical decomposition, followed by canonical composition.
    Nfc,
    /// Canonical decomposition.
    Nfd,
}

/// The full canonical decomposition of `scalar`: the scalar itself where it
/// has no decomposition mapping.
pub uninterp spec fn canonical_decomposition(scalar: char) -> Seq<char>;

/// The canonical combining class of `scalar`: 0 for a starter.
pub uninterp spec fn combining_class(scalar: char) -> u8;

/// The primary composite of the pair `first`, `second`, if there is one.
pub uninterp spec fn primary_composite(first: char, second: char) -> Option<char>;

/// Calls `unicode_normalization::char::decompose_canonical` and collects the
/// scalar values that it emits, in the order in which it emits them.
///
/// Trusted: what it emits is a function of the scalar alone, named
/// [`canonical_decomposition`].
#[verifier::external_body]
fn decomposition_of(scalar: char) -> (parts: Vec<char>)
    ensures
        parts@ == canonical_decomposition(scalar),
{
    let mut parts = Vec::new();
    unicode_normalization::char::decompose_canonical(scalar, |part| parts.push(part));
    parts
}

/// `canonical_combining_class` looks the class of a scalar value up in the
/// Unicode Character Database. The class is named [`combining_class`].
pub assume_specification[ unicode_normalization::char::canonical_combining_class ](
    scalar: char,
) -> (class: u8)
    ensures
        class == combining_class(scalar),
;

/// `compose` gives the single scalar value that a pair composes to, if any.
/// The result is named [`primary_composite`].
pub assume_specification[ unicode_normalization::char::compose ](
    first: char,
    second: char,
) -> (composite: Option<char>)
    ensures
        composite == primary_composite(first, second),
;

/// Every scalar value of `text` replaced by its full canonical decomposition.
pub open spec fn decomposed(text: Seq<char>) -> Seq<char>
    decreases text.len(),
{
    if text.len() == 0 {
        Seq::empty()
    } else {
        decomposed(text.drop_last()) + canonical_decomposition(text.last())
    }
}

/// `scalar` put behind `ordered`, then moved forward past every scalar of a
/// higher combining class that stands directly before it. A starter does not
/// move, and nothing moves past a starter or past a scalar of its own class.
pub open spec fn insert_mark(ordered: Seq<char>, scalar: char) -> Seq<char>
    decreases ordered.len(),
{
    if ordered.len() > 0 && combining_class(scalar) != 0 && combining_class(ordered.last())
        > combining_class(scalar) {
        insert_mark(ordered.drop_last(), scalar).push(ordered.last())
    } else {
        ordered.push(scalar)
    }
}

/// `text` in canonical order: every run of non-starters sorted by combining
/// class, scalars of one class keeping the order they had.
pub open spec fn canonical_order(text: Seq<char>) -> Seq<char>
    decreases text.len(),
{
    if text.len() == 0 {
        text
    } else {
        insert_mark(canonical_order(text.drop_last()), text.last())
    }
}

/// The normalization form D of `text`.
pub open spec fn nfd(text: Seq<char>) -> Seq<char> {
    canonical_order(decomposed(text))
}

/// A text under composition: what has been composed so far, and the index in
/// it of the last starter, -1 while there is none.
pub struct Composing {
    /// The scalars composed so far.
    pub composed: Seq<char>,
    /// The index in `composed` of the last starter, or -1.
    pub starter: int,
}

/// `scalar` is blocked from the starter at index `starter`: a scalar stands
/// between them that is a starter or has a combining class not below that of
/// `scalar`.
pub open spec fn blocked(composed: Seq<char>, starter: int, scalar: char) -> bool {
    exists|k: int|
        starter < k < composed.len() && (combining_class(#[trigger] composed[k]) == 0
            || combining_class(composed[k]) >= combining_class(scalar))
}

/// One step of composition: `scalar` joins the last starter where it is not
/// blocked from it and the pair has a primary composite, which then takes the
/// starter's place; otherwise it is appended, and is the last starter from
/// then on if it is one.
pub open spec fn compose_step(state: Composing, scalar: char) -> Composing {
    if state.starter >= 0 && !blocked(state.composed, state.starter, scalar) && primary_composite(
        state.composed[state.starter],
        scalar,
    ) is Some {
        Composing {
            composed: state.composed.update(
                state.starter,
                primary_composite(state.composed[state.starter], scalar)->0,
            ),
            starter: state.starter,
        }
    } else if combining_class(scalar) == 0 {
        Composing {
            composed: state.composed.push(scalar),
            starter: state.composed.len() as int,
        }
    } else {
        Composing { composed: state.composed.push(scalar), starter: state.starter }
    }
}

/// Composition of `text`, scalar by scalar from the left.
pub open spec fn compose_all(text: Seq<char>) -> Composing
    decreases text.len(),
{
    if text.len() == 0 {
        Composing { composed: Seq::empty(), starter: -1 }
    } else {
        compose_step(compose_all(text.drop_last()), text.last())
    }
}

/// Composition never lengthens a text, and the last starter that it keeps
/// track of lies in what it has composed.
pub proof fn lemma_compose_all_bounds(text: Seq<char>)
    ensures
        compose_all(text).composed.len() <= text.len(),
        -1 <= compose_all(text).starter < compose_all(text).composed.len(),
        text.len() > 0 ==> compose_all(text).composed.len() > 0,
    decreases text.len(),
{
    if text.len() > 0 {
        lemma_compose_all_bounds(text.drop_last());
    }
}

/// The normalization form C of `text`.
pub open spec fn nfc(text: Seq<char>) -> Seq<char> {
    compose_all(nfd(text)).composed
}

/// The normalization form `form` of `text`.
pub open spec fn normal_form(text: Seq<char>, form: Form) -> Seq<char> {
    match form {
        Form::Nfc => nfc(text),
        Form::Nfd => nfd(text),
    }
}

/// Where `insert_mark` puts the scalar: behind the longest tail of scalars of
/// a higher class.
proof fn lemma_insert_mark_at(ordered: Seq<char>, scalar: char, at: int)
    requires
        0 <= at <= ordered.len(),
        combining_class(scalar) != 0,
        forall|k: int|
            at <= k < ordered.len() ==> combining_class(#[trigger] ordered[k]) > combining_class(
                scalar,
            ),
        at == 0 || combining_class(ordered[at - 1]) <= combining_class(scalar),
    ensures
        insert_mark(ordered, scalar) == ordered.subrange(0, at).push(scalar) + ordered.subrange(
            at,
            ordered.len() as int,
        ),
    decreases ordered.len() - at,
{
    let n = ordered.len() as int;
    if at == n {
        assert(ordered.subrange(0, at).push(scalar) + ordered.subrange(at, n) =~= ordered.push(
            scalar,
        ));
    } else {
        let front = ordered.drop_last();
        lemma_insert_mark_at(front, scalar, at);
        assert(front.subrange(0, at) =~= ordered.subrange(0, at));
        assert((front.subrange(0, at).push(scalar) + front.subrange(at, n - 1)).push(
            ordered.last(),
        ) =~= ordered.subrange(0, at).push(scalar) + ordered.subrange(at, n));
    }
}

/// Puts `scalar` behind the canonically ordered `ordered` and moves it to
/// its place.
fn insert_in_order(ordered: &mut Vec<char>, scalar: char)
    ensures
        final(ordered)@ == insert_mark(old(ordered)@, scalar),
{
    let ghost before = ordered@;
    let class = unicode_normalization::char::canonical_combining_class(scalar);
    ordered.push(scalar);
    if class == 0 {
        return ;
    }
    let mut at: usize = ordered.len() - 1;
    let mut settled = false;
    while at > 0 && !settled
        invariant
            before == old(ordered)@,
            class == combining_class(scalar),
            class != 0,
            at <= before.len(),
            ordered@ == before.subrange(0, at as int).push(scalar) + before.subrange(
                at as int,
                before.len() as int,
            ),
            forall|k: int|
                at <= k < before.len() ==> combining_class(#[trigger] before[k]) > class,
            settled ==> at > 0 && combining_class(before[at - 1]) <= class,
        decreases at + (if settled { 0int } else { 1int }),
    {
        let previous = ordered[at - 1];
        assert(previous == before[at - 1]);
        if unicode_normalization::char::canonical_combining_class(previous) > class {
            ordered.set(at, previous);
            ordered.set(at - 1, scalar);
            at -= 1;
            assert(ordered@ =~= before.subrange(0, at as int).push(scalar) + before.subrange(
                at as int,
                before.len() as int,
            ));
        } else {
            settled = true;
        }
    }
    proof {
        lemma_insert_mark_at(before, scalar, at as int);
    }
}

/// The normalization form D of `text`, as scalar values.
pub fn decompose_text(text: &str) -> (ordered: Vec<char>)
    ensures
        ordered@ == nfd(text@),
{
    let source = scalars(text);
    let mut ordered: Vec<char> = Vec::new();
    let mut i: usize = 0;
    while i < source.len()
        invariant
            i <= source.len(),
            source@ == text@,
            ordered@ == nfd(text@.take(i as int)),
        decreases source.len() - i,
    {
        let parts = decomposition_of(source[i]);
        let ghost done = decomposed(text@.take(i as int));
        let mut j: usize = 0;
        while j < parts.len()
            invariant
                j <= parts.len(),
                ordered@ == canonical_order(done + parts@.take(j as int)),
            decreases parts.len() - j,
        {
            proof {
                let so_far = done + parts@.take(j as int);
                assert((done + parts@.take(j + 1)).drop_last() =~= so_far);
            }
            insert_in_order(&mut ordered, parts[j]);
            j += 1;
        }
        proof {
            assert(parts@.take(parts.len() as int) =~= parts@);
            assert(text@.take(i + 1).drop_last() =~= text@.take(i as int));
        }
        i += 1;
    }
    assert(text@.take(text@.len() as int) =~= text@);
    ordered
}

/// The canonical composition of `text`, which is to be in canonical order
/// for the result to be a normalization form.
pub fn compose_scalars(text: &[char]) -> (composed: Vec<char>)
    ensures
        composed@ == compose_all(text@).composed,
{
    let mut composed: Vec<char> = Vec::new();
    let mut starter: Option<usize> = None;
    let mut highest: u8 = 0;
    let mut i: usize = 0;
    while i < text.len()
        invariant
            i <= text.len(),
            composed@ == compose_all(text@.take(i as int)).composed,
            match starter {
                Some(index) => index == compose_all(text@.take(i as int)).starter && index
                    < composed.len(),
                None => compose_all(text@.take(i as int)).starter == -1,
            },
            starter matches Some(index) ==> {
                &&& forall|k: int|
                    index < k < composed.len() ==> 0 < combining_class(#[trigger] composed[k])
                        <= highest
                &&& index + 1 < composed.len() ==> exists|k: int|
                    index < k < composed.len() && combining_class(#[trigger] composed[k])
                        == highest
            },
        decreases text.len() - i,
    {
        let scalar = text[i];
        let class = unicode_normalization::char::canonical_combining_class(scalar);
        let ghost state = compose_all(text@.take(i as int));
        proof {
            assert(text@.take(i + 1).drop_last() =~= text@.take(i as int));
        }
        let ghost kept = composed@;
        let ghost peak: int = match starter {
            Some(index) if index + 1 < composed.len() => choose|k: int|
                index < k < kept.len() && combining_class(#[trigger] kept[k]) == highest,
            _ => 0,
        };
        let mut joined = false;
        match starter {
            Some(index) => {
                let free = index + 1 == composed.len() || highest < class;
                assert(free == !blocked(state.composed, index as int, scalar));
                if free {
                    match unicode_normalization::char::compose(composed[index], scalar) {
                        Some(composite) => {
                            composed.set(index, composite);
                            joined = true;
                            proof {
                                assert forall|k: int| index < k < composed.len() implies 0
                                    < combining_class(#[trigger] composed[k]) <= highest by {
                                    assert(composed[k] == kept[k]);
                                }
                                if index + 1 < composed.len() {
                                    assert(composed[peak] == kept[peak]);
                                }
                            }
                        },
                        None => {},
                    }
                }
            },
            None => {},
        }
        if !joined {
            if class == 0 {
                starter = Some(composed.len());
                highest = 0;
                composed.push(scalar);
            } else {
                match starter {
                    Some(index) => {
                        let first = index + 1 == composed.len();
                        if first || class > highest {
                            highest = class;
                        }
                        composed.push(scalar);
                        proof {
                            assert forall|k: int| index < k < composed.len() implies 0
                                < combining_class(#[trigger] composed[k]) <= highest by {
                                if k < kept.len() {
                                    assert(composed[k] == kept[k]);
                                }
                            }
                            if highest == class {
                                assert(composed[kept.len() as int] == scalar);
                            } else {
                                assert(composed[peak] == kept[peak]);
                            }
                        }
                    },
                    None => {
                        composed.push(scalar);
                    },
                }
            }
        }
        i += 1;
    }
    assert(text@.take(text.len() as int) =~= text@);
    composed
}

/// The normalization form `form` of `text`.
pub fn normalize(text: &str, form: Form) -> (normal: String)
    ensures
        normal@ == normal_form(text@, form),
{
    let ordered = decompose_text(text);
    match form {
        Form::Nfd => text_of(ordered.as_slice()),
        Form::Nfc => {
            let composed = compose_scalars(ordered.as_slice());
            text_of(composed.as_slice())
        },
    }
}

/// Whether `first` and `second` have the same normalization form `form`:
/// whether they spell the same text, one perhaps with precomposed scalar
/// values where the other has combining marks.
pub fn equals_under_normalization(first: &str, second: &str, form: Form) -> (equal: bool)
    ensures
        equal == (normal_form(first@, form) == normal_form(second@, form)),
{
    let left = normalize(first, form);
    let right = normalize(second, form);
    left == right
}

} // verus!
