//! A table cell: formatting properties followed by its content variants.

use vstd::prelude::*;

use crate::documents::paragraph::Paragraph;
use crate::xml_builder::seq_xml;
use crate::xml_builder::BuildXML;
use crate::xml_builder::XMLBuilder;

verus! {

/// Cell formatting: the default single borders on top, left, bottom and the
/// inside-horizontal edge.
#[derive(Debug, Clone, PartialEq)]
pub struct TableCellProperty {
    pub default_borders: bool,
}

impl TableCellProperty {
    pub fn new() -> (r: Self)
        ensures
            r.default_borders,
    {
        TableCellProperty { default_borders: true }
    }
}

impl BuildXML for TableCellProperty {
    open spec fn xml(&self) -> Seq<char> {
        "<w:tcPr"@ + ">"@ + "<w:tcBorders"@ + ">"@ + "<w:top"@
            + " w:val=\"single\" w:sz=\"2\" w:space=\"0\" w:color=\"000000\" />"@ + "<w:left"@
            + " w:val=\"single\" w:sz=\"2\" w:space=\"0\" w:color=\"000000\" />"@ + "<w:bottom"@
            + " w:val=\"single\" w:sz=\"2\" w:space=\"0\" w:color=\"000000\" />"@ + "<w:insideH"@
            + " w:val=\"single\" w:sz=\"2\" w:space=\"0\" w:color=\"000000\" />"@
            + "</w:tcBorders>"@ + "</w:tcPr>"@
    }

    fn build_xml(&self) -> (r: String) {
        let b = XMLBuilder::new()
            .open_table_cell_property()
            .open_table_cell_borders()
            .border_top()
            .border_left()
            .border_bottom()
            .border_inside_h()
            .close()
            .close();
        let r = b.build();
        proof {
            assert(r@ =~= self.xml());
        }
        r
    }
}

/// One content variant of a table cell.
#[derive(Debug, Clone, PartialEq)]
pub enum TableCellContent {
    Paragraph(Paragraph),
}

impl BuildXML for TableCellContent {
    open spec fn xml(&self) -> Seq<char> {
        match self {
            TableCellContent::Paragraph(p) => p.xml(),
        }
    }

    fn build_xml(&self) -> (r: String) {
        match self {
            TableCellContent::Paragraph(p) => p.build_xml(),
        }
    }
}

/// A table cell: its properties followed by its ordered contents.
#[derive(Debug, Clone, PartialEq)]
pub struct TableCell {
    pub property: TableCellProperty,
    pub contents: Vec<TableCellContent>,
}

impl TableCell {
    pub fn new() -> (r: Self)
        ensures
            r.property.default_borders,
            r.contents@ == Seq::<TableCellContent>::empty(),
    {
        TableCell { property: TableCellProperty::new(), contents: Vec::new() }
    }

    pub fn add_paragraph(self, p: Paragraph) -> (r: Self)
        ensures
            r.property == self.property,
            r.contents@ == self.contents@.push(TableCellContent::Paragraph(p)),
    {
        let mut s = self;
        s.contents.push(TableCellContent::Paragraph(p));
        s
    }
}

impl BuildXML for TableCell {
    open spec fn xml(&self) -> Seq<char> {
        "<w:tc"@ + ">"@ + self.property.xml() + seq_xml(self.contents@) + "</w:tc>"@
    }

    fn build_xml(&self) -> (r: String) {
        let mut b = XMLBuilder::new().open_table_cell().add_child(&self.property);
        proof {
            assert(seq_xml(self.contents@.take(0)) == Seq::<char>::empty());
            assert(b.buf_chars() =~= "<w:tc"@ + ">"@ + self.property.xml() + seq_xml(
                self.contents@.take(0),
            ));
        }
        let mut i: usize = 0;
        while i < self.contents.len()
            invariant
                i <= self.contents@.len(),
                b.wf(),
                !b.is_pending(),
                b.closers_view() == Seq::<Seq<char>>::empty().push("</w:tc>"@),
                b.buf_chars() == "<w:tc"@ + ">"@ + self.property.xml() + seq_xml(
                    self.contents@.take(i as int),
                ),
            decreases self.contents@.len() - i,
        {
            b = b.add_child(&self.contents[i]);
            proof {
                assert(self.contents@.take(i + 1).drop_last() =~= self.contents@.take(i as int));
                assert(self.contents@.take(i + 1).last() == self.contents@[i as int]);
                assert(b.buf_chars() =~= "<w:tc"@ + ">"@ + self.property.xml() + seq_xml(
                    self.contents@.take(i + 1),
                ));
            }
            i += 1;
        }
        b = b.close();
        let r = b.build();
        proof {
            assert(self.contents@.take(self.contents@.len() as int) =~= self.contents@);
            assert(r@ =~= self.xml());
        }
        r
    }
}

} // verus!
