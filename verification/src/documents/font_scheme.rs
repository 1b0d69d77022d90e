//! A font scheme: a major and a minor font group, each holding three
//! typeface names and a list of per-script overrides.  Read-only in this
//! scope.

use vstd::prelude::*;

verus! {

/// An empty font group: empty typeface names and no overrides.
pub open spec fn font_group_is_empty(g: FontGroup) -> bool {
    g.latin@ == Seq::<char>::empty() && g.ea@ == Seq::<char>::empty() && g.cs@ == Seq::<char>::empty()
        && g.fonts@ == Seq::<FontSchemeFont>::empty()
}

/// A per-script typeface override.
#[derive(Debug, Clone, PartialEq)]
pub struct FontSchemeFont {
    pub script: String,
    pub typeface: String,
}

/// One font group: the Latin, East-Asian and complex-script typefaces and
/// the per-script overrides.
#[derive(Debug, Clone, PartialEq)]
pub struct FontGroup {
    pub latin: String,
    pub ea: String,
    pub cs: String,
    pub fonts: Vec<FontSchemeFont>,
}

impl Default for FontGroup {
    fn default() -> (r: Self)
        ensures
            r.latin@ == Seq::<char>::empty(),
            r.ea@ == Seq::<char>::empty(),
            r.cs@ == Seq::<char>::empty(),
            r.fonts@ == Seq::<FontSchemeFont>::empty(),
    {
        FontGroup { latin: String::new(), ea: String::new(), cs: String::new(), fonts: Vec::new() }
    }
}

#[derive(Debug, Clone, PartialEq)]
pub struct FontScheme {
    pub major_font: FontGroup,
    pub minor_font: FontGroup,
}

impl FontScheme {
    pub fn new() -> (r: Self)
        ensures
            font_group_is_empty(r.major_font),
            font_group_is_empty(r.minor_font),
    {
        FontScheme { major_font: FontGroup::default(), minor_font: FontGroup::default() }
    }
}

impl Default for FontScheme {
    fn default() -> (r: Self)
        ensures
            font_group_is_empty(r.major_font),
            font_group_is_empty(r.minor_font),
    {
        FontScheme::new()
    }
}

} // verus!
