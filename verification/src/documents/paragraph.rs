//! A paragraph and its runs, as far as the mapping contract needs them.

use vstd::prelude::*;

use crate::documents::level::ParagraphProperty;
use crate::xml_builder::seq_xml;
use crate::xml_builder::BuildXML;
use crate::xml_builder::XMLBuilder;

verus! {

/// A run of text.
#[derive(Debug, Clone, PartialEq)]
pub struct Run {
    pub text: String,
}

impl Run {
    pub fn new(text: &str) -> (r: Self)
        ensures
            r.text@ == text@,
    {
        Run { text: text.to_owned() }
    }
}

impl BuildXML for Run {
    open spec fn xml(&self) -> Seq<char> {
        "<w:r"@ + ">"@ + "<w:rPr />"@ + "<w:t xml:space=\"preserve\">"@ + self.text@ + "</w:t>"@
            + "</w:r>"@
    }

    fn build_xml(&self) -> (r: String) {
        let b = XMLBuilder::new()
            .open_run()
            .run_property_default()
            .text(self.text.as_str())
            .close();
        let r = b.build();
        proof {
            assert(r@ =~= self.xml());
        }
        r
    }
}

/// A paragraph: its properties followed by its runs.
#[derive(Debug, Clone, PartialEq)]
pub struct Paragraph {
    pub property: ParagraphProperty,
    pub runs: Vec<Run>,
}

impl Paragraph {
    pub fn new() -> (r: Self)
        ensures
            r.property.style@ == "Normal"@,
            r.runs@ == Seq::<Run>::empty(),
    {
        Paragraph { property: ParagraphProperty::new(), runs: Vec::new() }
    }

    pub fn add_run(self, run: Run) -> (r: Self)
        ensures
            r.property == self.property,
            r.runs@ == self.runs@.push(run),
    {
        let mut s = self;
        s.runs.push(run);
        s
    }
}

impl BuildXML for Paragraph {
    open spec fn xml(&self) -> Seq<char> {
        "<w:p"@ + ">"@ + self.property.xml() + seq_xml(self.runs@) + "</w:p>"@
    }

    fn build_xml(&self) -> (r: String) {
        let mut b = XMLBuilder::new().open_paragraph().add_child(&self.property);
        proof {
            assert(seq_xml(self.runs@.take(0)) == Seq::<char>::empty());
            assert(b.buf_chars() =~= "<w:p"@ + ">"@ + self.property.xml() + seq_xml(
                self.runs@.take(0),
            ));
        }
        let mut i: usize = 0;
        while i < self.runs.len()
            invariant
                i <= self.runs@.len(),
                b.wf(),
                !b.is_pending(),
                b.closers_view() == Seq::<Seq<char>>::empty().push("</w:p>"@),
                b.buf_chars() == "<w:p"@ + ">"@ + self.property.xml() + seq_xml(
                    self.runs@.take(i as int),
                ),
            decreases self.runs@.len() - i,
        {
            b = b.add_child(&self.runs[i]);
            proof {
                assert(self.runs@.take(i + 1).drop_last() =~= self.runs@.take(i as int));
                assert(self.runs@.take(i + 1).last() == self.runs@[i as int]);
                assert(b.buf_chars() =~= "<w:p"@ + ">"@ + self.property.xml() + seq_xml(
                    self.runs@.take(i + 1),
                ));
            }
            i += 1;
        }
        b = b.close();
        let r = b.build();
        proof {
            assert(self.runs@.take(self.runs@.len() as int) =~= self.runs@);
            assert(r@ =~= self.xml());
        }
        r
    }
}

} // verus!
