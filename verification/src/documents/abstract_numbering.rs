//! A numbering definition: an identifier and an ordered sequence of levels.
//! Write-only; insertion order is output order.

use vstd::prelude::*;

use crate::documents::level::Level;
use crate::strings::dec_str;
use crate::strings::usize_to_string;
use crate::xml_builder::seq_xml;
use crate::xml_builder::BuildXML;
use crate::xml_builder::XMLBuilder;

verus! {

#[derive(Debug, Clone, PartialEq)]
pub struct AbstractNumbering {
    pub id: usize,
    pub levels: Vec<Level>,
}

impl AbstractNumbering {
    pub fn new(id: usize) -> (r: Self)
        ensures
            r.id == id,
            r.levels@ == Seq::<Level>::empty(),
    {
        AbstractNumbering { id, levels: Vec::new() }
    }

    pub fn add_level(self, level: Level) -> (r: Self)
        ensures
            r.id == self.id,
            r.levels@ == self.levels@.push(level),
    {
        let mut s = self;
        s.levels.push(level);
        s
    }
}

impl BuildXML for AbstractNumbering {
    open spec fn xml(&self) -> Seq<char> {
        "<w:abstractNum w:abstractNumId=\""@ + dec_str(self.id as nat) + "\""@ + if self.levels@.len()
            == 0 {
            " />"@
        } else {
            ">"@ + seq_xml(self.levels@) + "</w:abstractNum>"@
        }
    }

    fn build_xml(&self) -> (r: String) {
        let id_s = usize_to_string(self.id);
        let ghost head: Seq<char> = "<w:abstractNum w:abstractNumId=\""@ + dec_str(
            self.id as nat,
        ) + "\""@;
        let mut b = XMLBuilder::new().open_abstract_num(id_s.as_str());
        proof {
            assert(b.buf_chars() =~= head);
        }
        let mut i: usize = 0;
        while i < self.levels.len()
            invariant
                i <= self.levels@.len(),
                b.wf(),
                b.closers_view() == Seq::<Seq<char>>::empty().push("</w:abstractNum>"@),
                i == 0 ==> b.is_pending() && b.buf_chars() == head,
                i > 0 ==> !b.is_pending() && b.buf_chars() == head + ">"@ + seq_xml(
                    self.levels@.take(i as int),
                ),
            decreases self.levels@.len() - i,
        {
            let ghost prev = b;
            b = b.add_child(&self.levels[i]);
            proof {
                assert(self.levels@.take(i + 1).drop_last() =~= self.levels@.take(i as int));
                assert(self.levels@.take(i + 1).last() == self.levels@[i as int]);
                if i == 0 {
                    assert(seq_xml(self.levels@.take(0)) == Seq::<char>::empty());
                    assert(b.buf_chars() =~= head + ">"@ + seq_xml(self.levels@.take(1)));
                } else {
                    assert(b.buf_chars() =~= head + ">"@ + seq_xml(self.levels@.take(i + 1)));
                }
            }
            i += 1;
        }
        let ghost before_close = b;
        b = b.close();
        let r = b.build();
        proof {
            if self.levels@.len() == 0 {
                assert(r@ =~= self.xml());
            } else {
                assert(self.levels@.take(self.levels@.len() as int) =~= self.levels@);
                assert(r@ =~= self.xml());
            }
        }
        r
    }
}

} // verus!
