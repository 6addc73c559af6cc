//! Looking up a CSS colour by the name a viewer typed.

use vstd::prelude::*;
use crate::text::{spec_trim, trim, lemma_trim_laws};

verus! {

/// The RGB value that `color_name::css::Color::by_string` gives for `name`,
/// or `None` where it answers "not found". It compares the name, with its
/// first letter upper-cased and the rest lower-cased, against the table of
/// the 148 CSS colour names that the crate holds.
pub uninterp spec fn css_color_by_name(name: Seq<char>) -> Option<[u8; 3]>;

/// `color_name::css::Color::by_string` slices the upper-cased and the
/// lower-cased text at byte 1, which panics unless the first character of
/// the trimmed text is ASCII: this says on which texts it returns.
pub open spec fn color_name_readable(text: Seq<char>) -> bool {
    let t = spec_trim(text);
    t.len() == 0 || (t[0] as u32) < 128
}

/// Decides `color_name_readable`.
pub fn color_text_readable(text: &str) -> (r: bool)
    ensures
        r == color_name_readable(text@),
{
    let t = trim(text);
    t.unicode_len() == 0 || (t.get_char(0) as u32) < 128
}

/// Calls `color_name::css::Color::val().by_string` on an already trimmed
/// name. Claimed: the result is `css_color_by_name` of the name (a function
/// of the name alone: a lookup in a constant table), and an empty name is
/// not found (the crate checks the length first). The requirement keeps out
/// the names on which the crate's byte slicing panics.
#[verifier::external_body]
fn color_by_string(name: &str) -> (rgb: Option<[u8; 3]>)
    requires
        name@ == spec_trim(name@),
        name@.len() == 0 || (name@[0] as u32) < 128,
    ensures
        rgb == css_color_by_name(name@),
        name@.len() == 0 ==> rgb is None,
{
    color_name::css::Color::val().by_string(name.to_string()).ok()
}

/// The colour named by `source`, ignoring surrounding white space.
pub fn get_color_by_name(source: &str) -> (rgb: Option<[u8; 3]>)
    requires
        color_name_readable(source@),
    ensures
        rgb == css_color_by_name(spec_trim(source@)),
        spec_trim(source@).len() == 0 ==> rgb is None,
{
    let name = trim(source);
    proof {
        lemma_trim_laws(source@);
    }
    color_by_string(name)
}

} // verus!
