//! A margin container: an identifier, four margin measurements and an
//! ordered sequence of nested containers.  The tree is exclusively owned
//! top-down, so cycles are structurally impossible.

use vstd::prelude::*;

use crate::resolve::Keyed;

verus! {

#[derive(Debug, PartialEq)]
pub struct Div {
    pub id: String,
    pub margin_left: usize,
    pub margin_right: usize,
    pub margin_top: usize,
    pub margin_bottom: usize,
    pub divs_child: Vec<Div>,
}

impl Keyed for Div {
    open spec fn key_spec(&self) -> Seq<char> {
        self.id@
    }

    fn key(&self) -> (k: &String) {
        &self.id
    }
}

impl Default for Div {
    fn default() -> (r: Self)
        ensures
            r.id@ == Seq::<char>::empty(),
            r.margin_left == 0,
            r.margin_right == 0,
            r.margin_top == 0,
            r.margin_bottom == 0,
            r.divs_child@ == Seq::<Div>::empty(),
    {
        Div {
            id: String::new(),
            margin_left: 0,
            margin_right: 0,
            margin_top: 0,
            margin_bottom: 0,
            divs_child: Vec::new(),
        }
    }
}

impl Div {
    pub fn new(id: &str) -> (r: Self)
        ensures
            r.id@ == id@,
            r.margin_left == 0,
            r.margin_right == 0,
            r.margin_top == 0,
            r.margin_bottom == 0,
            r.divs_child@ == Seq::<Div>::empty(),
    {
        Div {
            id: id.to_owned(),
            margin_left: 0,
            margin_right: 0,
            margin_top: 0,
            margin_bottom: 0,
            divs_child: Vec::new(),
        }
    }

    pub fn margin_left(self, s: usize) -> (r: Self)
        ensures
            r == (Self { margin_left: s, ..self }),
    {
        let mut d = self;
        d.margin_left = s;
        d
    }

    pub fn margin_right(self, s: usize) -> (r: Self)
        ensures
            r == (Self { margin_right: s, ..self }),
    {
        let mut d = self;
        d.margin_right = s;
        d
    }

    pub fn margin_top(self, s: usize) -> (r: Self)
        ensures
            r == (Self { margin_top: s, ..self }),
    {
        let mut d = self;
        d.margin_top = s;
        d
    }

    pub fn margin_bottom(self, s: usize) -> (r: Self)
        ensures
            r == (Self { margin_bottom: s, ..self }),
    {
        let mut d = self;
        d.margin_bottom = s;
        d
    }

    pub fn add_child(self, s: Div) -> (r: Self)
        ensures
            r.id == self.id,
            r.margin_left == self.margin_left,
            r.margin_right == self.margin_right,
            r.margin_top == self.margin_top,
            r.margin_bottom == self.margin_bottom,
            r.divs_child@ == self.divs_child@.push(s),
    {
        let mut d = self;
        d.divs_child.push(s);
        d
    }
}

} // verus!
