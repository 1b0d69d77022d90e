use docx_core::AbstractNumbering;
use docx_core::BuildXML;
use docx_core::Level;
use docx_core::LevelJc;
use docx_core::LevelText;
use docx_core::NumberFormat;
use docx_core::Start;

use std::str;

#[test]
fn test_numbering() {
    let mut c = AbstractNumbering::new(0);
    c = c.add_level(Level::new(
        1,
        Start::new(1),
        NumberFormat::new("decimal"),
        LevelText::new("%4."),
        LevelJc::new("left"),
    ));
    let b = c.build();
    assert_eq!(
        str::from_utf8(&b).unwrap(),
        r#"<w:abstractNum w:abstractNumId="0"><w:lvl w:ilvl="1"><w:start w:val="1" /><w:numFmt w:val="decimal" /><w:lvlText w:val="%4." /><w:lvlJc w:val="left" /><w:pPr><w:pStyle w:val="Normal" /><w:rPr /></w:pPr></w:lvl></w:abstractNum>"#
    );
}

#[test]
fn test_numbering_no_levels_self_closes() {
    let b = AbstractNumbering::new(7).build();
    assert_eq!(str::from_utf8(&b).unwrap(), r#"<w:abstractNum w:abstractNumId="7" />"#);
}
