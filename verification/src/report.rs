//! A report of every measure of one text, and the four sample texts on which
//! the measures disagree.

use crate::case::{lowercase, to_lower, to_upper, uppercase};
use crate::convert::scalars;
use crate::metrics::{byte_length, reverse_by_grapheme, reverse_by_scalar, reversed_by_grapheme};
use crate::segment::{cluster_views, grapheme_clusters, graphemes};
use vstd::prelude::*;
use vstd::utf8::encode_utf8;

verus! {

/// What the library measures of one text.
#[derive(Clone, Debug, PartialEq, Eq)]
pub struct Report {
    /// The title under which the text is shown.
    pub message: String,
    /// The text itself.
    pub text: String,
    /// Its length in bytes of UTF-8.
    pub byte_length: usize,
    /// Its scalar values, in order.
    pub scalars: Vec<char>,
    /// The number of its scalar values.
    pub scalar_count: usize,
    /// The text backwards, scalar by scalar.
    pub scalar_reverse: String,
    /// Its grapheme clusters, in order.
    pub graphemes: Vec<String>,
    /// The number of its grapheme clusters.
    pub grapheme_count: usize,
    /// The text backwards, cluster by cluster.
    pub grapheme_reverse: String,
    /// The text in lower case.
    pub lowercase: String,
    /// The text in upper case.
    pub uppercase: String,
}

impl Report {
    /// Every field holds the measure of `text` that it is named after, and
    /// the title is `message`.
    pub open spec fn describes(self, message: Seq<char>, text: Seq<char>) -> bool {
        &&& self.message@ == message
        &&& self.text@ == text
        &&& self.byte_length == encode_utf8(text).len()
        &&& self.scalars@ == text
        &&& self.scalar_count == text.len()
        &&& self.scalar_reverse@ == text.reverse()
        &&& cluster_views(self.graphemes@) == grapheme_clusters(text)
        &&& self.grapheme_count == grapheme_clusters(text).len()
        &&& self.grapheme_reverse@ == reversed_by_grapheme(text)
        &&& self.lowercase@ == lowercase(text)
        &&& self.uppercase@ == uppercase(text)
    }
}

/// Measures `text` in every way the library offers, under the title `message`.
pub fn demo(message: &str, text: &str) -> (report: Report)
    ensures
        report.describes(message@, text@),
{
    let scalars = scalars(text);
    let scalar_count = scalars.len();
    let graphemes = graphemes(text);
    let grapheme_count = graphemes.len();
    Report {
        message: message.to_owned(),
        text: text.to_owned(),
        byte_length: byte_length(text),
        scalars,
        scalar_count,
        scalar_reverse: reverse_by_scalar(text),
        graphemes,
        grapheme_count,
        grapheme_reverse: reverse_by_grapheme(text),
        lowercase: to_lower(text),
        uppercase: to_upper(text),
    }
}

/// The word "noël", first with the precomposed `ë` (U+00EB), then with `e`
/// followed by a combining diaeresis (U+0308).
///
/// Both spellings show the same four characters, but the second holds five
/// scalar values, and reversing it scalar by scalar moves the diaeresis onto
/// the `l`.
pub fn demo_of_umlaut() -> (reports: (Report, Report))
    ensures
        reports.0.describes(
            "Demo of umlaut with no\u{eb}l with precomposed characters"@,
            "no\u{eb}l"@,
        ),
        reports.1.describes(
            "Demo of umlaut with no\u{eb}l with decomposed characters"@,
            "noe\u{308}l"@,
        ),
{
    (
        demo("Demo of umlaut with no\u{eb}l with precomposed characters", "no\u{eb}l"),
        demo("Demo of umlaut with no\u{eb}l with decomposed characters", "noe\u{308}l"),
    )
}

/// The word "mañana", first with the precomposed `ñ` (U+00F1), then with `n`
/// followed by a combining tilde (U+0303).
pub fn demo_of_virguilla() -> (reports: (Report, Report))
    ensures
        reports.0.describes(
            "Demo of virguilla with ma\u{f1}ana with precomposed characters"@,
            "ma\u{f1}ana"@,
        ),
        reports.1.describes(
            "Demo of virguilla with ma\u{f1}ana with decomposed characters"@,
            "man\u{303}ana"@,
        ),
{
    (
        demo("Demo of virguilla with ma\u{f1}ana with precomposed characters", "ma\u{f1}ana"),
        demo("Demo of virguilla with ma\u{f1}ana with decomposed characters", "man\u{303}ana"),
    )
}

/// Two cat faces, U+1F638 and U+1F63E, each one scalar value outside the
/// Basic Multilingual Plane: two scalars, two clusters, eight bytes.
pub fn demo_of_emoticons() -> (report: Report)
    ensures
        report.describes(
            "Demo of emoticons with \u{1f638}\u{1f63e}"@,
            "\u{1f638}\u{1f63e}"@,
        ),
{
    demo("Demo of emoticons with \u{1f638}\u{1f63e}", "\u{1f638}\u{1f63e}")
}

/// The word "baffle" written with the ligature U+FB04 for "ffl": one scalar
/// value whose upper case is the three letters `FFL`.
pub fn demo_of_ligature() -> (report: Report)
    ensures
        report.describes("Demo of ligature with ba\u{fb04}e"@, "ba\u{fb04}e"@),
{
    demo("Demo of ligature with ba\u{fb04}e", "ba\u{fb04}e")
}

} // verus!
