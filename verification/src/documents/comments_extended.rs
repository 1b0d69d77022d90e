//! The comment-thread collection: an ordered sequence of markers.

use vstd::prelude::*;

use crate::documents::comment_extended::CommentExtended;

verus! {

#[derive(Debug, Clone, PartialEq)]
pub struct CommentsExtended {
    pub children: Vec<CommentExtended>,
}

impl CommentsExtended {
    pub fn new() -> (r: Self)
        ensures
            r.children@ == Seq::<CommentExtended>::empty(),
    {
        CommentsExtended { children: Vec::new() }
    }
}

impl Default for CommentsExtended {
    fn default() -> (r: Self)
        ensures
            r.children@ == Seq::<CommentExtended>::empty(),
    {
        CommentsExtended::new()
    }
}

} // verus!
