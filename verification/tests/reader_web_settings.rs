use docx_core::FromXML;
use docx_core::WebSettings;

#[test]
fn test_parse_xml_multiple_divs() {
    let xml = r#"
            <w:webSettings>
                <w:divs>
                    <w:div w:id="1" w:leftMargin="200" w:rightMargin="200" w:topMargin="100" w:bottomMargin="100" />
                    <w:div w:id="2" w:leftMargin="50" w:rightMargin="50" w:topMargin="50" w:bottomMargin="50" />
                </w:divs>
            </w:webSettings>
        "#;
    let result = WebSettings::from_xml(xml.as_bytes()).unwrap();
    assert_eq!(result.divs.len(), 2);
    assert_eq!(result.divs[0].id, "1");
    assert_eq!(result.divs[1].id, "2");
}

#[test]
fn test_parse_xml_duplicate_divs() {
    let xml = r#"
            <w:webSettings>
                <w:divs>
                    <w:div w:id="1" w:leftMargin="200" w:rightMargin="200" w:topMargin="100" w:bottomMargin="100" />
                    <w:div w:id="1" w:leftMargin="50" w:rightMargin="50" w:topMargin="50" w:bottomMargin="50" />
                </w:divs>
            </w:webSettings>
        "#;
    let result = WebSettings::from_xml(xml.as_bytes()).unwrap();
    assert_eq!(result.divs.len(), 1);
    assert_eq!(result.divs[0].id, "1");
    assert_eq!(result.divs[0].margin_left, 50);
}

#[test]
fn web_settings_test_parse_xml_with_early_eof() {
    let xml = "<webSettings><w:divs><w:div w:id=\"1\" w:leftMargin=\"200\" />";
    let result = WebSettings::from_xml(xml.as_bytes());
    assert!(result.is_err());
}

#[test]
fn web_settings_test_parse_xml_error() {
    let xml = "<webSettings><w:div w:id=\"1\" w:leftMargin=\"200\" w:rightMargin=\"200\"";
    let result = WebSettings::from_xml(xml.as_bytes());
    assert!(result.is_err());
}
