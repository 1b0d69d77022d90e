//! A comment-thread marker: paragraph identifier, completion flag, and an
//! optional link to the parent paragraph of the thread.  The parent link is
//! not validated against other identifiers; dangling references are kept.

use vstd::prelude::*;

use crate::resolve::Keyed;
use crate::xml_builder::BuildXML;
use crate::xml_builder::XMLBuilder;

verus! {

#[derive(Debug, Clone, PartialEq)]
pub struct CommentExtended {
    pub paragraph_id: String,
    pub done: bool,
    pub parent_paragraph_id: Option<String>,
}

/// The observable content of a marker: its fields as mathematical values.
pub open spec fn comment_view(c: CommentExtended) -> (Seq<char>, bool, Option<Seq<char>>) {
    (c.paragraph_id@, c.done, c.parent_paragraph_id.deep_view())
}

impl CommentExtended {
    pub fn new(paragraph_id: &str) -> (r: Self)
        ensures
            r.paragraph_id@ == paragraph_id@,
            r.done == false,
            r.parent_paragraph_id is None,
    {
        CommentExtended {
            paragraph_id: paragraph_id.to_owned(),
            done: false,
            parent_paragraph_id: None,
        }
    }

    /// Marks the thread as resolved.
    pub fn done(self) -> (r: Self)
        ensures
            r.paragraph_id == self.paragraph_id,
            r.done == true,
            r.parent_paragraph_id == self.parent_paragraph_id,
    {
        let mut s = self;
        s.done = true;
        s
    }

    /// Links this marker to the paragraph of the thread it replies to.
    pub fn parent_paragraph_id(self, id: &str) -> (r: Self)
        ensures
            r.paragraph_id == self.paragraph_id,
            r.done == self.done,
            r.parent_paragraph_id matches Some(p) && p@ == id@,
    {
        let mut s = self;
        s.parent_paragraph_id = Some(id.to_owned());
        s
    }
}

/// The JSON object form of a marker, camel-case member names, members in
/// declaration order.  Identifier text is spliced verbatim.
pub open spec fn comment_json(c: CommentExtended) -> Seq<char> {
    "{\"paragraphId\":\""@ + c.paragraph_id@ + "\",\"done\":"@ + (if c.done {
        "true"@
    } else {
        "false"@
    }) + ",\"parentParagraphId\":"@ + (match c.parent_paragraph_id {
        Some(p) => "\""@ + p@ + "\""@,
        None => "null"@,
    }) + "}"@
}

impl CommentExtended {
    /// The marker as a JSON object.
    pub fn to_json(&self) -> (r: String)
        ensures
            r@ == comment_json(*self),
    {
        let mut out = String::new();
        out.append("{\"paragraphId\":\"");
        out.append(self.paragraph_id.as_str());
        out.append("\",\"done\":");
        if self.done {
            out.append("true");
        } else {
            out.append("false");
        }
        out.append(",\"parentParagraphId\":");
        match &self.parent_paragraph_id {
            Some(p) => {
                out.append("\"");
                out.append(p.as_str());
                out.append("\"");
            },
            None => {
                out.append("null");
            },
        }
        out.append("}");
        proof {
            assert(out@ =~= comment_json(*self));
        }
        out
    }
}

impl Keyed for CommentExtended {
    open spec fn key_spec(&self) -> Seq<char> {
        self.paragraph_id@
    }

    fn key(&self) -> (k: &String) {
        &self.paragraph_id
    }
}

impl BuildXML for CommentExtended {
    open spec fn xml(&self) -> Seq<char> {
        "<commentEx paraId=\""@ + self.paragraph_id@ + "\" done=\""@ + (if self.done {
            "true"@
        } else {
            "false"@
        }) + (match self.parent_paragraph_id {
            Some(p) => "\" paraIdParent=\""@ + p@,
            None => Seq::<char>::empty(),
        }) + "\" />"@
    }

    fn build_xml(&self) -> (r: String) {
        let b = XMLBuilder::new().comment_extended(
            self.paragraph_id.as_str(),
            self.done,
            &self.parent_paragraph_id,
        );
        let r = b.build();
        proof {
            assert(r@ =~= self.xml());
        }
        r
    }
}

} // verus!
