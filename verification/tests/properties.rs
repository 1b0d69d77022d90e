use docx_core::reader::attributes::decode_bool;
use docx_core::reader::attributes::decode_bool_text;
use docx_core::reader::attributes::decode_measurement;
use docx_core::reader::attributes::read_bool;
use docx_core::resolve::resolve_duplicates;
use docx_core::Attribute;
use docx_core::BoolValue;
use docx_core::BuildXML;
use docx_core::CommentExtended;
use docx_core::CommentsExtended;
use docx_core::Div;
use docx_core::FontScheme;
use docx_core::FromXML;
use docx_core::ReaderError;
use docx_core::WebSettings;

use std::str;

#[test]
fn round_trip_comment_extended() {
    let marker = CommentExtended::new("00002").done().parent_paragraph_id("0004");
    let bytes = marker.build();
    let decoded = CommentExtended::from_xml_str(str::from_utf8(&bytes).unwrap()).unwrap();
    assert_eq!(decoded, marker);
}

#[test]
fn round_trip_comment_extended_no_parent() {
    let marker = CommentExtended::new("1a");
    let bytes = marker.build();
    let decoded = CommentExtended::from_xml_str(str::from_utf8(&bytes).unwrap()).unwrap();
    assert_eq!(decoded, marker);
}

#[test]
fn build_is_byte_stable() {
    let cell = docx_core::TableCell::new();
    assert_eq!(cell.build(), cell.build());
    let comment = CommentExtended::new("42").done();
    assert_eq!(comment.build(), comment.build());
    let num = docx_core::AbstractNumbering::new(3);
    assert_eq!(num.build(), num.build());
}

#[test]
fn comment_build_exact_bytes() {
    let c = CommentExtended::new("123").done();
    assert_eq!(
        str::from_utf8(&c.build()).unwrap(),
        r#"<commentEx paraId="123" done="true" />"#
    );
    let p = CommentExtended::new("7").parent_paragraph_id("3");
    assert_eq!(
        str::from_utf8(&p.build()).unwrap(),
        r#"<commentEx paraId="7" done="false" paraIdParent="3" />"#
    );
}

#[test]
fn duplicate_resolution_last_wins_and_sorts() {
    let items = vec![
        CommentExtended::new("b").done(),
        CommentExtended::new("a"),
        CommentExtended::new("b"),
        CommentExtended::new("c").done(),
        CommentExtended::new("a").done(),
    ];
    let resolved = resolve_duplicates(items);
    assert_eq!(resolved.len(), 3);
    assert_eq!(resolved[0].paragraph_id, "a");
    assert!(resolved[0].done);
    assert_eq!(resolved[1].paragraph_id, "b");
    assert!(!resolved[1].done);
    assert_eq!(resolved[2].paragraph_id, "c");
    assert!(resolved[2].done);
}

#[test]
fn duplicate_resolution_empty_and_unique() {
    let empty: Vec<Div> = vec![];
    assert_eq!(resolve_duplicates(empty).len(), 0);
    let unique = vec![Div::new("2").margin_left(5), Div::new("1")];
    let resolved = resolve_duplicates(unique);
    assert_eq!(resolved.len(), 2);
    assert_eq!(resolved[0].id, "1");
    assert_eq!(resolved[1].id, "2");
    assert_eq!(resolved[1].margin_left, 5);
}

#[test]
fn boolean_decoder_table() {
    assert_eq!(decode_bool_text("true").unwrap(), true);
    assert_eq!(decode_bool_text("1").unwrap(), true);
    assert_eq!(decode_bool_text("false").unwrap(), false);
    assert_eq!(decode_bool_text("0").unwrap(), false);
    assert!(decode_bool_text("TRUE").is_err());
    assert!(decode_bool_text("").is_err());
    assert!(decode_bool_text("yes").is_err());
    assert_eq!(decode_bool(&BoolValue::Native(true)).unwrap(), true);
    assert_eq!(decode_bool(&BoolValue::Native(false)).unwrap(), false);
    assert_eq!(decode_bool(&BoolValue::Text("1".to_string())).unwrap(), true);
    assert!(matches!(
        decode_bool(&BoolValue::Text("nope".to_string())),
        Err(ReaderError::Attribute(_))
    ));
}

#[test]
fn presence_based_boolean() {
    let none: Vec<Attribute> = vec![];
    assert!(read_bool(&none));
    let falsy = vec![Attribute { name: "w:val".to_string(), value: "0".to_string() }];
    assert!(!read_bool(&falsy));
    let truthy = vec![Attribute { name: "w:val".to_string(), value: "whatever".to_string() }];
    assert!(read_bool(&truthy));
}

#[test]
fn measurement_decoder_values() {
    assert_eq!(decode_measurement("200.0").unwrap(), 200);
    assert_eq!(decode_measurement("200.9").unwrap(), 200);
    assert_eq!(decode_measurement("0").unwrap(), 0);
    assert_eq!(decode_measurement("15").unwrap(), 15);
    assert!(matches!(decode_measurement("-3"), Err(ReaderError::Attribute(_))));
    assert!(matches!(decode_measurement(""), Err(ReaderError::Attribute(_))));
    assert!(matches!(decode_measurement("1.2.3"), Err(ReaderError::Attribute(_))));
    assert!(matches!(decode_measurement("abc"), Err(ReaderError::Attribute(_))));
    assert!(matches!(decode_measurement("."), Err(ReaderError::Attribute(_))));
    assert!(matches!(decode_measurement("1e"), Err(ReaderError::Attribute(_))));
}

#[test]
fn measurement_decoder_float_literal_forms() {
    assert_eq!(decode_measurement(".5").unwrap(), 0);
    assert_eq!(decode_measurement("5.").unwrap(), 5);
    assert_eq!(decode_measurement("1e3").unwrap(), 1000);
    assert_eq!(decode_measurement("2.5e2").unwrap(), 250);
    assert_eq!(decode_measurement("2.5E+2").unwrap(), 250);
    assert_eq!(decode_measurement("250e-1").unwrap(), 25);
    assert_eq!(decode_measurement("3e-9").unwrap(), 0);
    assert_eq!(decode_measurement("0e12").unwrap(), 0);
    assert!(matches!(decode_measurement("1e30"), Err(ReaderError::Attribute(_))));
}

#[test]
fn scenario_margin_container_flat() {
    let xml = r#"<w:div w:id="1" w:leftMargin="200" w:rightMargin="200" w:topMargin="100" w:bottomMargin="100" />"#;
    let d = Div::from_xml_str(xml).unwrap();
    assert_eq!(d.id, "1");
    assert_eq!(d.margin_left, 200);
    assert_eq!(d.margin_right, 200);
    assert_eq!(d.margin_top, 100);
    assert_eq!(d.margin_bottom, 100);
    assert!(d.divs_child.is_empty());
}

#[test]
fn scenario_duplicate_markers_collapse() {
    let xml = r#"<commentsEx>
            <commentEx paraId="1" done="true" />
            <commentEx paraId="1" done="false" />
        </commentsEx>"#;
    let col = CommentsExtended::from_xml(xml.as_bytes()).unwrap();
    assert_eq!(col.children.len(), 1);
    assert_eq!(col.children[0].paragraph_id, "1");
    assert!(!col.children[0].done);
}

#[test]
fn scenario_truncated_stream_is_structural_error() {
    let xml = "<commentsEx><commentEx paraId=\"9\" done=\"1\" /><commentEx paraId=\"8\"";
    match CommentsExtended::from_xml(xml.as_bytes()) {
        Err(ReaderError::Malformed(_)) => {}
        other => panic!("expected a structural error, got {:?}", other),
    }
}

#[test]
fn error_variants_by_cause() {
    // required attribute missing: schema mismatch
    assert!(matches!(
        CommentExtended::from_xml_str(r#"<commentEx done="true" />"#),
        Err(ReaderError::Schema(_))
    ));
    // unrecognized attribute present: schema mismatch
    assert!(matches!(
        CommentExtended::from_xml_str(r#"<commentEx paraId="1" done="true" extra="x" />"#),
        Err(ReaderError::Schema(_))
    ));
    // present but uncoercible attribute text: attribute-decode failure
    assert!(matches!(
        Div::from_xml_str(r#"<w:div w:id="1" w:leftMargin="x" w:rightMargin="1" w:topMargin="1" w:bottomMargin="1" />"#),
        Err(ReaderError::Attribute(_))
    ));
    // invalid UTF-8 input: structural failure
    assert!(matches!(
        WebSettings::from_xml(&[0xffu8, 0xfe, 0x3c]),
        Err(ReaderError::Malformed(_))
    ));
}

#[test]
fn namespaced_forms_accepted() {
    let c = CommentExtended::from_xml_str(
        r#"<w15:commentEx w15:paraId="77" w15:done="0" />"#,
    )
    .unwrap();
    assert_eq!(c.paragraph_id, "77");
    assert!(!c.done);
    let empty = WebSettings::from_xml(r#"<w:webSettings></w:webSettings>"#.as_bytes()).unwrap();
    assert!(empty.divs.is_empty());
}

#[test]
fn web_settings_without_wrapper_is_empty() {
    let bare = WebSettings::from_xml(b"<w:webSettings>\n</w:webSettings>").unwrap();
    assert!(bare.divs.is_empty());
    let selfclosing = WebSettings::from_xml(b"<w:webSettings />").unwrap();
    assert!(selfclosing.divs.is_empty());
}

#[test]
fn font_scheme_new_is_empty() {
    let f = FontScheme::new();
    assert_eq!(f.major_font.latin, "");
    assert_eq!(f.minor_font.fonts.len(), 0);
    assert_eq!(f, FontScheme::default());
}

#[test]
fn round_trip_comment_collection() {
    let markers = vec![
        CommentExtended::new("2").done(),
        CommentExtended::new("1").parent_paragraph_id("2"),
        CommentExtended::new("2"),
    ];
    let mut wire = String::from("<commentsEx>");
    for m in &markers {
        wire.push_str(str::from_utf8(&m.build()).unwrap());
    }
    wire.push_str("</commentsEx>");
    let col = CommentsExtended::from_xml(wire.as_bytes()).unwrap();
    assert_eq!(col.children.len(), 2);
    assert_eq!(col.children[0].paragraph_id, "1");
    assert_eq!(col.children[0].parent_paragraph_id, Some("2".to_string()));
    assert_eq!(col.children[1].paragraph_id, "2");
    assert!(!col.children[1].done);
}

#[test]
fn xml_declaration_and_comments_are_skipped() {
    let xml = "<?xml version=\"1.0\" encoding=\"UTF-8\"?><!-- thread state -->\n<commentsEx><commentEx paraId=\"4\" done=\"1\" /></commentsEx>";
    let col = CommentsExtended::from_xml(xml.as_bytes()).unwrap();
    assert_eq!(col.children.len(), 1);
    assert!(col.children[0].done);
    let xml2 = "<?xml version=\"1.0\"?><w:webSettings><w:divs><w:div w:id=\"9\" w:leftMargin=\"1\" w:rightMargin=\"1\" w:topMargin=\"1\" w:bottomMargin=\"1\" /></w:divs></w:webSettings>";
    let ws = WebSettings::from_xml(xml2.as_bytes()).unwrap();
    assert_eq!(ws.divs.len(), 1);
    assert_eq!(ws.divs[0].id, "9");
}

#[test]
fn decode_errors_name_field_and_value() {
    let e = decode_bool_text("maybe").unwrap_err();
    assert_eq!(e.message(), "invalid value for boolean: maybe");
    let e = CommentExtended::from_xml_str(r#"<commentEx paraId="1" done="maybe" />"#).unwrap_err();
    assert!(e.message().contains("done"));
    assert!(e.message().contains("maybe"));
    let e = Div::from_xml_str(
        r#"<w:div w:id="1" w:leftMargin="x1" w:rightMargin="1" w:topMargin="1" w:bottomMargin="1" />"#,
    )
    .unwrap_err();
    assert!(e.message().contains("leftMargin"));
    assert!(e.message().contains("x1"));
}

#[test]
fn error_message_is_carried() {
    let e = CommentExtended::from_xml_str("nonsense").unwrap_err();
    assert!(!e.message().is_empty());
}
