//! The web-settings root: an ordered sequence of margin containers.

use vstd::prelude::*;

use crate::documents::div::Div;

verus! {

#[derive(Debug, PartialEq)]
pub struct WebSettings {
    pub divs: Vec<Div>,
}

impl WebSettings {
    pub fn new() -> (r: Self)
        ensures
            r.divs@ == Seq::<Div>::empty(),
    {
        WebSettings { divs: Vec::new() }
    }
}

impl Default for WebSettings {
    fn default() -> (r: Self)
        ensures
            r.divs@ == Seq::<Div>::empty(),
    {
        WebSettings::new()
    }
}

} // verus!
