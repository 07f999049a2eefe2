//! Character classes used by text normalization: Unicode general categories
//! and the `White_Space` property.

use unicode_general_category::get_general_category;
use vstd::prelude::*;

verus! {

/// The two-letter Unicode general category abbreviation (such as `Lu`, `Po`)
/// that `unicode_general_category` assigns to `c`.
pub uninterp spec fn general_category_abbreviation(c: char) -> Seq<char>;

/// Trusted: looks `c` up with `unicode_general_category::get_general_category`
/// and returns `GeneralCategory::abbreviation` of the result; every arm of that
/// method in the crate's source returns a two-letter string.
#[verifier::external_body]
pub(crate) fn category_abbreviation(c: char) -> (abbreviation: &'static str)
    ensures
        abbreviation@ == general_category_abbreviation(c),
        abbreviation@.len() == 2,
{
    get_general_category(c).abbreviation()
}

/// Whether `c` belongs to one of the punctuation general categories: those
/// whose abbreviation starts with `P` (`Pc`, `Pd`, `Ps`, `Pe`, `Pi`, `Pf`, `Po`).
pub open spec fn spec_is_punctuation(c: char) -> bool {
    general_category_abbreviation(c).len() > 0 && general_category_abbreviation(c)[0] == 'P'
}

/// Whether `c` belongs to a punctuation general category.
pub fn is_punctuation(c: char) -> (b: bool)
    ensures
        b == spec_is_punctuation(c),
{
    let abbreviation = category_abbreviation(c);
    abbreviation.get_char(0) == 'P'
}

/// The Unicode `White_Space` property, the set that `char::is_whitespace`
/// tests: U+0009..U+000D, U+0020, U+0085, U+00A0, U+1680, U+2000..U+200A,
/// U+2028, U+2029, U+202F, U+205F and U+3000.
pub open spec fn spec_is_whitespace(c: char) -> bool {
    ||| '\u{9}' <= c <= '\u{d}'
    ||| c == ' '
    ||| c == '\u{85}'
    ||| c == '\u{a0}'
    ||| c == '\u{1680}'
    ||| '\u{2000}' <= c <= '\u{200a}'
    ||| c == '\u{2028}'
    ||| c == '\u{2029}'
    ||| c == '\u{202f}'
    ||| c == '\u{205f}'
    ||| c == '\u{3000}'
}

/// Whether `c` has the Unicode `White_Space` property.
pub fn is_whitespace(c: char) -> (b: bool)
    ensures
        b == spec_is_whitespace(c),
{
    ('\u{9}' <= c && c <= '\u{d}') || c == ' ' || c == '\u{85}' || c == '\u{a0}' || c == '\u{1680}'
        || ('\u{2000}' <= c && c <= '\u{200a}') || c == '\u{2028}' || c == '\u{2029}' || c
        == '\u{202f}' || c == '\u{205f}' || c == '\u{3000}'
}

} // verus!
