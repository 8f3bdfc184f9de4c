//! Case conversion of whole texts.
//!
//! The mapping is the locale-independent one of the Unicode Character
//! Database, as `std` applies it: one scalar may map to several (the ligature
//! U+FB04 in upper case is the three letters `FFL`, `ß` is `SS`), so a
//! converted text may be longer than its source. No locale is taken into
//! account: a Turkish dotless `ı` is not produced.

use vstd::prelude::*;

verus! {

/// The upper-case form of `text`.
pub uninterp spec fn uppercase(text: Seq<char>) -> Seq<char>;

/// The lower-case form of `text`.
pub uninterp spec fn lowercase(text: Seq<char>) -> Seq<char>;

/// `str::to_uppercase` returns the upper-case equivalent of the text as a new
/// `String`. The result is a function of the text alone, named [`uppercase`].
pub assume_specification[ str::to_uppercase ](text: &str) -> (upper: String)
    ensures
        upper@ == uppercase(text@),
;

/// `str::to_lowercase` returns the lower-case equivalent of the text as a new
/// `String`. The result is a function of the text alone, named [`lowercase`].
pub assume_specification[ str::to_lowercase ](text: &str) -> (lower: String)
    ensures
        lower@ == lowercase(text@),
;

/// The upper-case form of `text`.
pub fn to_upper(text: &str) -> (upper: String)
    ensures
        upper@ == uppercase(text@),
{
    text.to_uppercase()
}

/// The lower-case form of `text`.
pub fn to_lower(text: &str) -> (lower: String)
    ensures
        lower@ == lowercase(text@),
{
    text.to_lowercase()
}

} // verus!
