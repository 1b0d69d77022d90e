//! A numbering level and the small typed wrappers for its attributes.

use vstd::prelude::*;

use crate::strings::dec_str;
use crate::strings::usize_to_string;
use crate::xml_builder::BuildXML;
use crate::xml_builder::XMLBuilder;

verus! {

/// The starting value of a numbering level.
#[derive(Debug, Clone, PartialEq)]
pub struct Start {
    pub val: usize,
}

impl Start {
    pub fn new(val: usize) -> (r: Self)
        ensures
            r.val == val,
    {
        Start { val }
    }
}

/// The number format name of a numbering level (for example `decimal`).
#[derive(Debug, Clone, PartialEq)]
pub struct NumberFormat {
    pub val: String,
}

impl NumberFormat {
    pub fn new(val: &str) -> (r: Self)
        ensures
            r.val@ == val@,
    {
        NumberFormat { val: val.to_owned() }
    }
}

/// The level text pattern (for example `%4.`).
#[derive(Debug, Clone, PartialEq)]
pub struct LevelText {
    pub val: String,
}

impl LevelText {
    pub fn new(val: &str) -> (r: Self)
        ensures
            r.val@ == val@,
    {
        LevelText { val: val.to_owned() }
    }
}

/// The justification of a numbering level (for example `left`).
#[derive(Debug, Clone, PartialEq)]
pub struct LevelJc {
    pub val: String,
}

impl LevelJc {
    pub fn new(val: &str) -> (r: Self)
        ensures
            r.val@ == val@,
    {
        LevelJc { val: val.to_owned() }
    }
}

/// Paragraph properties: a style reference and an empty run-property set.
#[derive(Debug, Clone, PartialEq)]
pub struct ParagraphProperty {
    pub style: String,
}

impl ParagraphProperty {
    pub fn new() -> (r: Self)
        ensures
            r.style@ == "Normal"@,
    {
        ParagraphProperty { style: String::from_str("Normal") }
    }
}

impl BuildXML for ParagraphProperty {
    open spec fn xml(&self) -> Seq<char> {
        "<w:pPr"@ + ">"@ + "<w:pStyle w:val=\""@ + self.style@ + "\" />"@ + "<w:rPr />"@
            + "</w:pPr>"@
    }

    fn build_xml(&self) -> (r: String) {
        let b = XMLBuilder::new()
            .open_paragraph_property()
            .paragraph_style(self.style.as_str())
            .run_property_default()
            .close();
        let r = b.build();
        proof {
            assert(r@ =~= self.xml());
        }
        r
    }
}

/// One level of a numbering definition.
#[derive(Debug, Clone, PartialEq)]
pub struct Level {
    pub level: usize,
    pub start: Start,
    pub format: NumberFormat,
    pub text: LevelText,
    pub jc: LevelJc,
    pub paragraph_property: ParagraphProperty,
}

impl Level {
    pub fn new(level: usize, start: Start, format: NumberFormat, text: LevelText, jc: LevelJc) -> (r:
        Self)
        ensures
            r.level == level,
            r.start == start,
            r.format == format,
            r.text == text,
            r.jc == jc,
            r.paragraph_property.style@ == "Normal"@,
    {
        Level { level, start, format, text, jc, paragraph_property: ParagraphProperty::new() }
    }
}

impl BuildXML for Level {
    open spec fn xml(&self) -> Seq<char> {
        "<w:lvl w:ilvl=\""@ + dec_str(self.level as nat) + "\""@ + ">"@ + "<w:start w:val=\""@
            + dec_str(self.start.val as nat) + "\" />"@ + "<w:numFmt w:val=\""@ + self.format.val@
            + "\" />"@ + "<w:lvlText w:val=\""@ + self.text.val@ + "\" />"@ + "<w:lvlJc w:val=\""@
            + self.jc.val@ + "\" />"@ + self.paragraph_property.xml() + "</w:lvl>"@
    }

    fn build_xml(&self) -> (r: String) {
        let ilvl = usize_to_string(self.level);
        let start = usize_to_string(self.start.val);
        let b = XMLBuilder::new()
            .open_level(ilvl.as_str())
            .start(start.as_str())
            .num_fmt(self.format.val.as_str())
            .level_text(self.text.val.as_str())
            .level_jc(self.jc.val.as_str())
            .add_child(&self.paragraph_property)
            .close();
        let r = b.build();
        proof {
            assert(r@ =~= self.xml());
        }
        r
    }
}

} // verus!
