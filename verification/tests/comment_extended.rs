use docx_core::CommentExtended;

#[test]
fn test_comment_extended_json() {
    let ex = CommentExtended {
        paragraph_id: "00002".to_owned(),
        done: false,
        parent_paragraph_id: Some("0004".to_owned()),
    };
    assert_eq!(
        ex.to_json(),
        r#"{"paragraphId":"00002","done":false,"parentParagraphId":"0004"}"#
    );
}

#[test]
fn test_comment_extended_json_no_parent() {
    let ex = CommentExtended::new("7");
    assert_eq!(ex.to_json(), r#"{"paragraphId":"7","done":false,"parentParagraphId":null}"#);
}
