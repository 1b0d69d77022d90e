//! Decoding a comment-thread marker from its tag head.

use vstd::prelude::*;

use crate::documents::comment_extended::CommentExtended;
use crate::errors::ReaderError;
use crate::reader::attributes::decode_bool_text;
use crate::reader::attributes::is_false_text;
use crate::reader::attributes::is_true_text;
use crate::documents::comment_extended::comment_view;
use crate::reader::scan::attr_chars;
use crate::reader::scan::attr_views;
use crate::reader::scan::attrs_chars;
use crate::reader::scan::close_text;
use crate::reader::scan::is_xmlns;
use crate::reader::scan::local_part;
use crate::reader::scan::match_at;
use crate::reader::scan::name_is_xmlns;
use crate::reader::scan::parse_close_tag;
use crate::reader::scan::parse_open_tag;
use crate::reader::scan::skip_misc;
use crate::reader::scan::skip_ws;
use crate::reader::scan::direct_elem_at;
use crate::reader::scan::lemma_prefixed_name;
use crate::reader::scan::padded;
use crate::reader::scan::wf_attr_name;
use crate::reader::scan::wf_attr_value;
use crate::reader::scan::wf_attrs;
use crate::reader::scan::wf_ns_prefix;
use crate::reader::scan::wf_raw_attrs;
use crate::reader::scan::wf_raw_name;
use crate::reader::scan::ws_only;
use crate::reader::scan::OpenTag;
use crate::strings::is_name_char;
use crate::strings::is_ws_char;
use crate::strings::str_eq;
use crate::xml_builder::BuildXML;

verus! {

/// The value of the first attribute whose local name is `name`, skipping
/// namespace declarations.
pub open spec fn find_attr(attrs: Seq<(Seq<char>, Seq<char>)>, name: Seq<char>) -> Option<
    Seq<char>,
>
    decreases attrs.len(),
{
    if attrs.len() == 0 {
        None
    } else if !is_xmlns(attrs[0].0) && local_part(attrs[0].0) == name {
        Some(attrs[0].1)
    } else {
        find_attr(attrs.skip(1), name)
    }
}

/// Every attribute is either a namespace declaration or one of the three
/// recognized marker attributes.
pub open spec fn comment_attrs_recognized(attrs: Seq<(Seq<char>, Seq<char>)>) -> bool {
    forall|i: int|
        0 <= i < attrs.len() ==> is_xmlns(#[trigger] attrs[i].0) || local_part(attrs[i].0)
            == "paraId"@ || local_part(attrs[i].0) == "done"@ || local_part(attrs[i].0)
            == "paraIdParent"@
}

/// The marker `c` is what the attribute list `attrs` describes.
pub open spec fn comment_matches_attrs(attrs: Seq<(Seq<char>, Seq<char>)>, c: CommentExtended)
    -> bool {
    &&& comment_attrs_recognized(attrs)
    &&& find_attr(attrs, "paraId"@) == Some(c.paragraph_id@)
    &&& match find_attr(attrs, "done"@) {
        Some(dt) => (c.done && is_true_text(dt)) || (!c.done && is_false_text(dt)),
        None => false,
    }
    &&& match (find_attr(attrs, "paraIdParent"@), c.parent_paragraph_id) {
        (Some(p), Some(q)) => p == q@,
        (None, None) => true,
        _ => false,
    }
}

/// The attribute list is decodable: the required attributes are present,
/// the completion flag spells a boolean, and nothing unrecognized appears.
pub open spec fn comment_attrs_ok(attrs: Seq<(Seq<char>, Seq<char>)>) -> bool {
    &&& comment_attrs_recognized(attrs)
    &&& find_attr(attrs, "paraId"@) is Some
    &&& match find_attr(attrs, "done"@) {
        Some(dt) => is_true_text(dt) || is_false_text(dt),
        None => false,
    }
}

/// Builds a marker from a parsed `commentEx` tag head: `paraId` and `done`
/// are required, `paraIdParent` optional, namespace declarations ignored,
/// anything else a schema mismatch.  The first occurrence of an attribute
/// is the one read.
#[verifier::rlimit(60)]
pub fn comment_from_tag(tag: &OpenTag) -> (r: Result<CommentExtended, ReaderError>)
    ensures
        r matches Ok(c) ==> tag.name@ == "commentEx"@ && comment_matches_attrs(
            attr_views(tag.attrs@),
            c,
        ),
        tag.name@ == "commentEx"@ && comment_attrs_ok(attr_views(tag.attrs@)) ==> r is Ok,
{
    if !str_eq(tag.name.as_str(), "commentEx") {
        return Err(ReaderError::Schema(String::from_str("unexpected element")));
    }
    let ghost avs = attr_views(tag.attrs@);
    let mut para_id: Option<String> = None;
    let mut done_text: Option<String> = None;
    let mut parent: Option<String> = None;
    let mut i: usize = 0;
    while i < tag.attrs.len()
        invariant
            i <= tag.attrs@.len(),
            avs == attr_views(tag.attrs@),
            forall|m: int|
                0 <= m < i ==> is_xmlns(#[trigger] avs[m].0) || local_part(avs[m].0) == "paraId"@
                    || local_part(avs[m].0) == "done"@ || local_part(avs[m].0) == "paraIdParent"@,
            (match para_id {
                Some(p) => find_attr(avs.take(i as int), "paraId"@) == Some(p@),
                None => find_attr(avs.take(i as int), "paraId"@) is None,
            }),
            (match done_text {
                Some(d) => find_attr(avs.take(i as int), "done"@) == Some(d@),
                None => find_attr(avs.take(i as int), "done"@) is None,
            }),
            (match parent {
                Some(p) => find_attr(avs.take(i as int), "paraIdParent"@) == Some(p@),
                None => find_attr(avs.take(i as int), "paraIdParent"@) is None,
            }),
        decreases tag.attrs@.len() - i,
    {
        proof {
            reveal_strlit("paraId");
            reveal_strlit("done");
            reveal_strlit("paraIdParent");
            assert("paraId"@.len() == 6);
            assert("done"@.len() == 4);
            assert("paraIdParent"@.len() == 12);
            lemma_find_attr_snoc(avs, i as int, "paraId"@);
            lemma_find_attr_snoc(avs, i as int, "done"@);
            lemma_find_attr_snoc(avs, i as int, "paraIdParent"@);
        }
        let a = &tag.attrs[i];
        if !name_is_xmlns(a.name.as_str()) {
            let local = crate::reader::scan::local_name(a.name.as_str());
            if str_eq(local.as_str(), "paraId") {
                if para_id.is_none() {
                    para_id = Some(a.value.clone());
                }
            } else if str_eq(local.as_str(), "done") {
                if done_text.is_none() {
                    done_text = Some(a.value.clone());
                }
            } else if str_eq(local.as_str(), "paraIdParent") {
                if parent.is_none() {
                    parent = Some(a.value.clone());
                }
            } else {
                return Err(ReaderError::Schema(String::from_str("unrecognized attribute")));
            }
        }
        i += 1;
    }
    proof {
        assert(avs.take(avs.len() as int) =~= avs);
    }
    let pid = match para_id {
        Some(p) => p,
        None => {
            return Err(ReaderError::Schema(String::from_str("missing required attribute paraId")));
        },
    };
    let dt = match done_text {
        Some(d) => d,
        None => {
            return Err(ReaderError::Schema(String::from_str("missing required attribute done")));
        },
    };
    let done = match decode_bool_text(dt.as_str()) {
        Ok(b) => b,
        Err(e) => {
            let mut m = String::from_str("attribute done: ");
            m.append(e.message().as_str());
            return Err(ReaderError::Attribute(m));
        },
    };
    Ok(CommentExtended { paragraph_id: pid, done, parent_paragraph_id: parent })
}

/// `find_attr` over one more attribute at the end.
pub proof fn lemma_find_attr_snoc(avs: Seq<(Seq<char>, Seq<char>)>, i: int, name: Seq<char>)
    requires
        0 <= i < avs.len(),
    ensures
        find_attr(avs.take(i + 1), name) == (match find_attr(avs.take(i), name) {
            Some(v) => Some(v),
            None => {
                if !is_xmlns(avs[i].0) && local_part(avs[i].0) == name {
                    Some(avs[i].1)
                } else {
                    None
                }
            },
        }),
    decreases i,
{
    if i == 0 {
        assert(avs.take(0) =~= Seq::<(Seq<char>, Seq<char>)>::empty());
        assert(avs.take(1)[0] == avs[0]);
        assert(avs.take(1).skip(1) =~= Seq::<(Seq<char>, Seq<char>)>::empty());
    } else {
        assert(avs.take(i + 1)[0] == avs[0]);
        assert(avs.take(i)[0] == avs[0]);
        assert(avs.take(i + 1).skip(1) =~= avs.skip(1).take(i));
        assert(avs.take(i).skip(1) =~= avs.skip(1).take(i - 1));
        lemma_find_attr_snoc(avs.skip(1), i - 1, name);
        assert(avs.skip(1)[i - 1] == avs[i]);
    }
}

/// A marker whose identifiers are free of double quotes, so that its exact
/// markup is decodable.
pub open spec fn comment_wire_safe(c: CommentExtended) -> bool {
    wf_attr_value(c.paragraph_id@) && match c.parent_paragraph_id {
        Some(p) => wf_attr_value(p@),
        None => true,
    }
}

/// The attribute list a marker's markup carries.
pub open spec fn comment_attr_list(c: CommentExtended) -> Seq<(Seq<char>, Seq<char>)> {
    let base = seq![
        ("paraId"@, c.paragraph_id@),
        ("done"@, if c.done {
            "true"@
        } else {
            "false"@
        }),
    ];
    match c.parent_paragraph_id {
        Some(p) => base.push(("paraIdParent"@, p@)),
        None => base,
    }
}

/// The markup of a marker is the canonical self-closing `commentEx`
/// element carrying its attribute list.
#[verifier::rlimit(100)]
pub proof fn lemma_comment_xml_canonical(c: CommentExtended)
    ensures
        c.xml() == "<"@ + "commentEx"@ + attrs_chars(comment_attr_list(c)) + close_text(true),
        wf_attr_name("commentEx"@),
        comment_wire_safe(c) ==> wf_attrs(comment_attr_list(c)),
{
    reveal_strlit("<");
    reveal_strlit("commentEx");
    reveal_strlit("paraId");
    reveal_strlit("done");
    reveal_strlit("paraIdParent");
    reveal_strlit("true");
    reveal_strlit("false");
    reveal_strlit(" ");
    reveal_strlit("=\"");
    reveal_strlit("\"");
    reveal_strlit(" />");
    reveal_strlit("<commentEx paraId=\"");
    reveal_strlit("\" done=\"");
    reveal_strlit("\" paraIdParent=\"");
    reveal_strlit("\" />");
    let a = comment_attr_list(c);
    let d: Seq<char> = if c.done {
        "true"@
    } else {
        "false"@
    };
    assert(wf_attr_name("commentEx"@)) by {
        assert forall|i: int| 0 <= i < "commentEx"@.len() implies is_name_char(
            #[trigger] "commentEx"@[i],
        ) && "commentEx"@[i] != ':' by {
            assert("commentEx"@.len() == 9);
        }
    }
    assert(wf_attr_name("paraId"@)) by {
        assert forall|i: int| 0 <= i < "paraId"@.len() implies is_name_char(
            #[trigger] "paraId"@[i],
        ) && "paraId"@[i] != ':' by {
            assert("paraId"@.len() == 6);
        }
    }
    assert(wf_attr_name("done"@)) by {
        assert forall|i: int| 0 <= i < "done"@.len() implies is_name_char(#[trigger] "done"@[i])
            && "done"@[i] != ':' by {
            assert("done"@.len() == 4);
        }
    }
    assert(wf_attr_name("paraIdParent"@)) by {
        assert forall|i: int| 0 <= i < "paraIdParent"@.len() implies is_name_char(
            #[trigger] "paraIdParent"@[i],
        ) && "paraIdParent"@[i] != ':' by {
            assert("paraIdParent"@.len() == 12);
        }
    }
    assert(wf_attr_value(d)) by {
        assert forall|i: int| 0 <= i < d.len() implies (#[trigger] d[i]) != '"' by {
            assert(d.len() <= 5);
        }
    }
    if comment_wire_safe(c) {
        assert(wf_attrs(a)) by {
            assert(a[0] == ("paraId"@, c.paragraph_id@));
            assert(a[1].0 == "done"@ && a[1].1 == d);
            if c.parent_paragraph_id is Some {
                assert(a.len() == 3);
                assert(a[2].0 == "paraIdParent"@);
            } else {
                assert(a.len() == 2);
            }
        }
    }
    reveal_strlit(" paraId=\"");
    reveal_strlit(" done=\"");
    reveal_strlit(" paraIdParent=\"");
    assert(attr_chars(("paraId"@, c.paragraph_id@)) =~= " paraId=\""@ + c.paragraph_id@ + "\""@);
    assert(attr_chars(("done"@, d)) =~= " done=\""@ + d + "\""@);
    assert("<"@ + "commentEx"@ + " paraId=\""@ =~= "<commentEx paraId=\""@);
    assert("\""@ + " done=\""@ =~= "\" done=\""@);
    assert("\""@ + " />"@ =~= "\" />"@);
    match c.parent_paragraph_id {
        Some(p) => {
            let base = seq![("paraId"@, c.paragraph_id@), ("done"@, d)];
            assert(a == base.push(("paraIdParent"@, p@)));
            assert(a.skip(1) =~= seq![("done"@, d), ("paraIdParent"@, p@)]);
            assert(a.skip(1).skip(1) =~= seq![("paraIdParent"@, p@)]);
            assert(a.skip(1).skip(1).skip(1) =~= Seq::<(Seq<char>, Seq<char>)>::empty());
            assert(attr_chars(("paraIdParent"@, p@)) =~= " paraIdParent=\""@ + p@ + "\""@);
            assert("\""@ + " paraIdParent=\""@ =~= "\" paraIdParent=\""@);
            assert(attrs_chars(a) == attr_chars(a[0]) + attrs_chars(a.skip(1)));
            assert(a.skip(1)[0] == ("done"@, d));
            assert(attrs_chars(a.skip(1)) == attr_chars(("done"@, d)) + attrs_chars(
                a.skip(1).skip(1),
            ));
            assert(a.skip(1).skip(1)[0] == ("paraIdParent"@, p@));
            assert(attrs_chars(a.skip(1).skip(1)) == attr_chars(("paraIdParent"@, p@))
                + attrs_chars(a.skip(1).skip(1).skip(1)));
            assert(attrs_chars(a.skip(1).skip(1).skip(1)) == Seq::<char>::empty());
            assert(c.xml() == "<commentEx paraId=\""@ + c.paragraph_id@ + "\" done=\""@ + d + (
            match c.parent_paragraph_id {
                Some(q) => "\" paraIdParent=\""@ + q@,
                None => Seq::<char>::empty(),
            }) + "\" />"@);
            assert(c.xml() =~= "<"@ + "commentEx"@ + attrs_chars(a) + close_text(true));
        },
        None => {
            assert(a.skip(1) =~= seq![("done"@, d)]);
            assert(a.skip(1).skip(1) =~= Seq::<(Seq<char>, Seq<char>)>::empty());
            assert(attrs_chars(a) == attr_chars(a[0]) + attrs_chars(a.skip(1)));
            assert(a.skip(1)[0] == ("done"@, d));
            assert(attrs_chars(a.skip(1)) == attr_chars(("done"@, d)) + attrs_chars(
                a.skip(1).skip(1),
            ));
            assert(attrs_chars(a.skip(1).skip(1)) == Seq::<char>::empty());
            assert(c.xml() =~= "<"@ + "commentEx"@ + attrs_chars(a) + close_text(true));
        },
    }
}

/// The attribute list a marker's markup carries, each name under the
/// namespace prefix `p`.
pub open spec fn comment_attr_list_p(p: Seq<char>, c: CommentExtended) -> Seq<
    (Seq<char>, Seq<char>),
> {
    let base = seq![
        (p + "paraId"@, c.paragraph_id@),
        (p + "done"@, if c.done {
            "true"@
        } else {
            "false"@
        }),
    ];
    match c.parent_paragraph_id {
        Some(q) => base.push((p + "paraIdParent"@, q@)),
        None => base,
    }
}

/// The markup of a marker whose names carry the namespace prefix `p`.
pub open spec fn comment_elem_p(p: Seq<char>, c: CommentExtended) -> Seq<char> {
    "<"@ + (p + "commentEx"@) + attrs_chars(comment_attr_list_p(p, c)) + close_text(true)
}

/// With the empty prefix, the prefixed markup is the marker's own markup.
pub proof fn lemma_comment_elem_unprefixed(c: CommentExtended)
    ensures
        comment_elem_p(Seq::<char>::empty(), c) == c.xml(),
{
    lemma_comment_xml_canonical(c);
    let e = Seq::<char>::empty();
    assert(e + "commentEx"@ =~= "commentEx"@);
    assert(e + "paraId"@ =~= "paraId"@);
    assert(e + "done"@ =~= "done"@);
    assert(e + "paraIdParent"@ =~= "paraIdParent"@);
    assert(comment_attr_list_p(e, c) =~= comment_attr_list(c));
}

/// How the names and the three recognized attributes evaluate on a
/// marker's prefixed attribute list.
#[verifier::rlimit(100)]
pub proof fn lemma_comment_elem_p(p: Seq<char>, c: CommentExtended)
    requires
        wf_ns_prefix(p),
        comment_wire_safe(c),
    ensures
        wf_raw_name(p + "commentEx"@),
        local_part(p + "commentEx"@) == "commentEx"@,
        wf_raw_attrs(comment_attr_list_p(p, c)),
        comment_attrs_ok(comment_attr_list_p(p, c)),
        find_attr(comment_attr_list_p(p, c), "paraId"@) == Some(c.paragraph_id@),
        find_attr(comment_attr_list_p(p, c), "done"@) == Some(
            if c.done {
                "true"@
            } else {
                "false"@
            },
        ),
        find_attr(comment_attr_list_p(p, c), "paraIdParent"@) == (match c.parent_paragraph_id {
            Some(q) => Some(q@),
            None => None::<Seq<char>>,
        }),
{
    reveal_strlit("commentEx");
    reveal_strlit("paraId");
    reveal_strlit("done");
    reveal_strlit("paraIdParent");
    reveal_strlit("xmlns");
    reveal_strlit("true");
    reveal_strlit("false");
    assert("commentEx"@.len() == 9 && "paraId"@.len() == 6 && "done"@.len() == 4
        && "paraIdParent"@.len() == 12);
    assert(wf_attr_name("commentEx"@)) by {
        assert forall|i: int| 0 <= i < "commentEx"@.len() implies is_name_char(
            #[trigger] "commentEx"@[i],
        ) && "commentEx"@[i] != ':' by {}
    }
    assert(wf_attr_name("paraId"@)) by {
        assert forall|i: int| 0 <= i < "paraId"@.len() implies is_name_char(
            #[trigger] "paraId"@[i],
        ) && "paraId"@[i] != ':' by {}
    }
    assert(wf_attr_name("done"@)) by {
        assert forall|i: int| 0 <= i < "done"@.len() implies is_name_char(#[trigger] "done"@[i])
            && "done"@[i] != ':' by {}
    }
    assert(wf_attr_name("paraIdParent"@)) by {
        assert forall|i: int| 0 <= i < "paraIdParent"@.len() implies is_name_char(
            #[trigger] "paraIdParent"@[i],
        ) && "paraIdParent"@[i] != ':' by {}
    }
    lemma_prefixed_name(p, "commentEx"@);
    lemma_prefixed_name(p, "paraId"@);
    lemma_prefixed_name(p, "done"@);
    lemma_prefixed_name(p, "paraIdParent"@);
    if p.len() == 0 {
        assert(p + "paraId"@ =~= "paraId"@);
        assert(p + "done"@ =~= "done"@);
        assert(p + "paraIdParent"@ =~= "paraIdParent"@);
        assert(!is_xmlns("paraId"@)) by {
            if is_xmlns("paraId"@) {
                assert("paraId"@.take(5)[0] == "xmlns"@[0]);
            }
        }
        assert(!is_xmlns("done"@));
        assert(!is_xmlns("paraIdParent"@)) by {
            if is_xmlns("paraIdParent"@) {
                assert("paraIdParent"@.take(5)[0] == "xmlns"@[0]);
            }
        }
    }
    let d: Seq<char> = if c.done {
        "true"@
    } else {
        "false"@
    };
    assert(wf_attr_value(d)) by {
        assert forall|i: int| 0 <= i < d.len() implies (#[trigger] d[i]) != '"' by {
            assert(d.len() <= 5);
        }
    }
    let a = comment_attr_list_p(p, c);
    assert(a[0] == (p + "paraId"@, c.paragraph_id@));
    assert(a[1] == (p + "done"@, d));
    assert(wf_raw_attrs(a)) by {
        assert forall|i: int| 0 <= i < a.len() implies wf_raw_name(#[trigger] a[i].0)
            && wf_attr_value(a[i].1) by {
            if c.parent_paragraph_id is Some {
                assert(a.len() == 3);
            } else {
                assert(a.len() == 2);
            }
        }
    }
    match c.parent_paragraph_id {
        Some(q) => {
            assert(a.skip(1) =~= seq![(p + "done"@, d), (p + "paraIdParent"@, q@)]);
            assert(a.skip(1).skip(1) =~= seq![(p + "paraIdParent"@, q@)]);
            assert(a.skip(1).skip(1).skip(1) =~= Seq::<(Seq<char>, Seq<char>)>::empty());
            assert(find_attr(a, "paraId"@) == Some(c.paragraph_id@));
            assert(find_attr(a, "done"@) == find_attr(a.skip(1), "done"@));
            assert(find_attr(a.skip(1), "done"@) == Some(d));
            assert(find_attr(a, "paraIdParent"@) == find_attr(a.skip(1), "paraIdParent"@));
            assert(find_attr(a.skip(1), "paraIdParent"@) == find_attr(
                a.skip(1).skip(1),
                "paraIdParent"@,
            ));
            assert(find_attr(a.skip(1).skip(1), "paraIdParent"@) == Some(q@));
        },
        None => {
            assert(a.skip(1) =~= seq![(p + "done"@, d)]);
            assert(a.skip(1).skip(1) =~= Seq::<(Seq<char>, Seq<char>)>::empty());
            assert(find_attr(a, "paraId"@) == Some(c.paragraph_id@));
            assert(find_attr(a, "done"@) == find_attr(a.skip(1), "done"@));
            assert(find_attr(a.skip(1), "done"@) == Some(d));
            assert(find_attr(a, "paraIdParent"@) == find_attr(a.skip(1), "paraIdParent"@));
            assert(find_attr(a.skip(1), "paraIdParent"@) == find_attr(
                a.skip(1).skip(1),
                "paraIdParent"@,
            ));
            assert(find_attr(a.skip(1).skip(1), "paraIdParent"@) is None);
        },
    }
}

/// What the character-level decode of a single marker guarantees: on the
/// markup of a quote-safe marker — under any namespace prefix, whitespace
/// around it — it reconstructs that marker.
pub open spec fn comment_decode_complete(s: Seq<char>, r: Result<CommentExtended, ReaderError>)
    -> bool {
    forall|c: CommentExtended, p: Seq<char>, lead: Seq<char>, trail: Seq<char>|
        comment_wire_safe(c) && wf_ns_prefix(p) && ws_only(lead) && ws_only(trail) && s == (
        #[trigger] padded(lead, comment_elem_p(p, c), trail)) ==> (r matches Ok(w)
            && comment_view(w) == comment_view(c))
}

impl CommentExtended {
    /// Decodes one `commentEx` element (optionally namespaced) from the
    /// character sequence: the tag head, an optional immediate close tag,
    /// and nothing but whitespace around it.  On the exact markup of a
    /// quote-safe marker it reconstructs that marker.
    #[verifier::rlimit(100)]
    pub fn from_xml_chars(s: &Vec<char>) -> (r: Result<CommentExtended, ReaderError>)
        ensures
            comment_decode_complete(s@, r),
    {
        let start = skip_misc(s, 0);
        let tr = parse_open_tag(s, start);
        proof {
            assert forall|c: CommentExtended, p: Seq<char>, lead: Seq<char>, trail: Seq<char>|
                comment_wire_safe(c) && wf_ns_prefix(p) && ws_only(lead) && ws_only(trail) && s@
                == (#[trigger] padded(lead, comment_elem_p(p, c), trail)) implies (tr matches Ok(
                t,
            ) && t.0.name@ == "commentEx"@ && attr_views(t.0.attrs@) == comment_attr_list_p(p, c)
                && t.0.self_closing == true && t.1 == lead.len() + comment_elem_p(p, c).len()
                && lead.len() + comment_elem_p(p, c).len() + trail.len() == s@.len()) by {
                lemma_comment_elem_p(p, c);
                let elem = comment_elem_p(p, c);
                assert(s@ =~= lead + (elem + trail));
                assert(s@.subrange(0, s@.len() as int) =~= s@);
                crate::reader::scan::lemma_match_split(s@, 0, lead, elem + trail);
                crate::reader::scan::lemma_match_split(s@, lead.len() as int, elem, trail);
                reveal_strlit("<");
                reveal_strlit("commentEx");
                assert("<"@.len() == 1);
                assert("commentEx"@.len() == 9);
                crate::reader::scan::lemma_match_index(s@, lead.len() as int, elem, 0);
                crate::reader::scan::lemma_match_index(s@, lead.len() as int, elem, 1);
                assert(elem[0] == '<');
                assert(elem[1] == (p + "commentEx"@)[0]);
                if p.len() == 0 {
                    assert((p + "commentEx"@)[0] == "commentEx"@[0]);
                } else {
                    assert((p + "commentEx"@)[0] == p[0]);
                }
                assert(crate::reader::scan::direct_elem_at(s@, 0, lead.len() as int));
                assert(start == lead.len());
                assert(match_at(
                    s@,
                    start as int,
                    "<"@ + (p + "commentEx"@) + attrs_chars(comment_attr_list_p(p, c))
                        + close_text(true),
                ));
            }
        }
        let (tag, end) = match tr {
            Ok(t) => t,
            Err(e) => {
                return Err(e);
            },
        };
        let cr = comment_from_tag(&tag);
        proof {
            assert forall|c: CommentExtended, p: Seq<char>, lead: Seq<char>, trail: Seq<char>|
                comment_wire_safe(c) && wf_ns_prefix(p) && ws_only(lead) && ws_only(trail) && s@
                == (#[trigger] padded(lead, comment_elem_p(p, c), trail)) implies (cr matches Ok(
                w,
            ) && comment_view(w) == comment_view(c)) by {
                lemma_comment_elem_p(p, c);
                let w = cr->Ok_0;
                assert(comment_matches_attrs(comment_attr_list_p(p, c), w));
                reveal_strlit("true");
                reveal_strlit("false");
                reveal_strlit("1");
                reveal_strlit("0");
                assert("true"@.len() == 4 && "false"@.len() == 5 && "1"@.len() == 1 && "0"@.len()
                    == 1);
                assert("1"@[0] != "0"@[0]);
                assert(w.paragraph_id@ == c.paragraph_id@);
                assert(w.done == c.done);
                assert(w.parent_paragraph_id.deep_view() == c.parent_paragraph_id.deep_view());
            }
        }
        let c = match cr {
            Ok(c) => c,
            Err(e) => {
                return Err(e);
            },
        };
        let mut pos = end;
        if !tag.self_closing {
            pos = match parse_close_tag(s, pos, "commentEx") {
                Ok(p) => p,
                Err(e) => {
                    return Err(e);
                },
            };
        }
        let t = skip_ws(s, pos);
        if t < s.len() {
            proof {
                assert forall|c2: CommentExtended, p: Seq<char>, lead: Seq<char>, trail: Seq<char>|
                    comment_wire_safe(c2) && wf_ns_prefix(p) && ws_only(lead) && ws_only(trail)
                    && s@ == (#[trigger] padded(lead, comment_elem_p(p, c2), trail)) implies
                    false by {
                    assert(pos == lead.len() + comment_elem_p(p, c2).len());
                    assert(is_ws_char(s@[t as int])) by {
                        assert(s@[pos + (t - pos)] == trail[t - pos]);
                    }
                }
            }
            return Err(ReaderError::Malformed(String::from_str("trailing content")));
        }
        Ok(c)
    }

    /// Decodes one `commentEx` element from a string.
    pub fn from_xml_str(s: &str) -> (r: Result<CommentExtended, ReaderError>)
        ensures
            comment_decode_complete(s@, r),
    {
        let chars = crate::strings::str_chars(s);
        CommentExtended::from_xml_chars(&chars)
    }

    /// Decodes one `commentEx` element from its XML byte representation.
    /// Decoding the exact bytes built from a quote-safe marker
    /// reconstructs a marker with the same observable content.
    pub fn from_xml(bytes: &[u8]) -> (r: Result<CommentExtended, ReaderError>)
        ensures
            forall|c: CommentExtended|
                comment_wire_safe(c) && bytes@ == vstd::utf8::encode_utf8(#[trigger] c.xml())
                    ==> (r matches Ok(w) && comment_view(w) == comment_view(c)),
    {
        let br = crate::reader::from_xml::bytes_to_chars(bytes);
        let chars = match br {
            Ok(cs) => cs,
            Err(e) => {
                proof {
                    assert forall|c: CommentExtended|
                        comment_wire_safe(c) && bytes@ == vstd::utf8::encode_utf8(
                            #[trigger] c.xml(),
                        ) implies false by {
                        vstd::utf8::encode_utf8_valid_utf8(c.xml());
                    }
                }
                return Err(e);
            },
        };
        let r = CommentExtended::from_xml_chars(&chars);
        proof {
            assert forall|c: CommentExtended|
                comment_wire_safe(c) && bytes@ == vstd::utf8::encode_utf8(#[trigger] c.xml())
                implies (r matches Ok(w) && comment_view(w) == comment_view(c)) by {
                vstd::utf8::encode_utf8_decode_utf8(chars@);
                vstd::utf8::encode_utf8_decode_utf8(c.xml());
                assert(chars@ == c.xml());
                lemma_comment_elem_unprefixed(c);
                let e = Seq::<char>::empty();
                assert(ws_only(e));
                assert(chars@ == padded(e, comment_elem_p(e, c), e)) by {
                    assert(padded(e, comment_elem_p(e, c), e) =~= comment_elem_p(e, c));
                }
            }
        }
        r
    }
}

} // verus!
