//! Decoding a margin container, including the generic unwrap-once strategy
//! for its nested repeated-child wrapper.

use vstd::prelude::*;

use crate::documents::div::Div;
use crate::errors::ReaderError;
use crate::reader::attributes::all_digits;
use crate::reader::attributes::decode_measurement;
use crate::reader::attributes::digits_val;
use crate::reader::attributes::exp_representable;
use crate::reader::attributes::is_digit;
use crate::reader::attributes::lemma_dec_str_digits;
use crate::reader::attributes::lemma_measurement_of_digits;
use crate::reader::attributes::measurement_val;
use crate::reader::attributes::measurement_valid;
use crate::reader::comment_extended::find_attr;
use crate::reader::scan::attr_views;
use crate::reader::scan::attrs_chars;
use crate::reader::scan::close_tag_chars;
use crate::reader::scan::close_text;
use crate::reader::scan::is_xmlns;
use crate::reader::scan::lemma_local_part_plain;
use crate::reader::scan::local_part;
use crate::reader::scan::match_at;
use crate::reader::scan::name_is_xmlns;
use crate::reader::scan::parse_close_tag;
use crate::reader::scan::parse_open_tag;
use crate::reader::scan::skip_ws;
use crate::reader::scan::direct_elem_at;
use crate::reader::scan::lemma_prefixed_name;
use crate::reader::scan::padded;
use crate::reader::scan::wf_attr_name;
use crate::reader::scan::wf_attr_value;
use crate::reader::scan::wf_attrs;
use crate::reader::scan::wf_ns_prefix;
use crate::reader::scan::wf_raw_attrs;
use crate::reader::scan::wf_raw_name;
use crate::reader::scan::ws_only;
use crate::reader::scan::OpenTag;
use crate::strings::dec_str;
use crate::strings::is_name_char;
use crate::strings::is_ws_char;
use crate::strings::str_eq;

verus! {

/// Every attribute of a `div` head is a namespace declaration or one of
/// the five recognized attributes.
pub open spec fn div_attrs_recognized(attrs: Seq<(Seq<char>, Seq<char>)>) -> bool {
    forall|i: int|
        0 <= i < attrs.len() ==> is_xmlns(#[trigger] attrs[i].0) || local_part(attrs[i].0) == "id"@
            || local_part(attrs[i].0) == "leftMargin"@ || local_part(attrs[i].0) == "rightMargin"@
            || local_part(attrs[i].0) == "topMargin"@ || local_part(attrs[i].0) == "bottomMargin"@
}

/// The scalar fields of `d` are what the attribute list describes: the
/// identifier verbatim, each margin the truncated value of its measurement
/// literal.
pub open spec fn div_matches_attrs(attrs: Seq<(Seq<char>, Seq<char>)>, d: Div) -> bool {
    &&& div_attrs_recognized(attrs)
    &&& find_attr(attrs, "id"@) == Some(d.id@)
    &&& match find_attr(attrs, "leftMargin"@) {
        Some(t) => measurement_valid(t) && d.margin_left == measurement_val(t),
        None => false,
    }
    &&& match find_attr(attrs, "rightMargin"@) {
        Some(t) => measurement_valid(t) && d.margin_right == measurement_val(t),
        None => false,
    }
    &&& match find_attr(attrs, "topMargin"@) {
        Some(t) => measurement_valid(t) && d.margin_top == measurement_val(t),
        None => false,
    }
    &&& match find_attr(attrs, "bottomMargin"@) {
        Some(t) => measurement_valid(t) && d.margin_bottom == measurement_val(t),
        None => false,
    }
}

fn required_measurement(field: &str, v: &Option<String>) -> (r: Result<usize, ReaderError>)
    ensures
        r matches Ok(m) ==> v matches Some(t) && measurement_valid(t@) && m == measurement_val(
            t@,
        ),
        v matches Some(t) && measurement_valid(t@) && exp_representable(t@) && measurement_val(t@)
            <= usize::MAX ==> r is Ok,
        v is None ==> (r matches Err(e) && e matches ReaderError::Schema(_)),
{
    match v {
        Some(t) => match decode_measurement(t.as_str()) {
            Ok(m) => Ok(m),
            Err(e) => {
                let mut msg = String::from_str("attribute ");
                msg.append(field);
                msg.append(": ");
                msg.append(e.message().as_str());
                Err(ReaderError::Attribute(msg))
            },
        },
        None => {
            let mut msg = String::from_str("missing required attribute ");
            msg.append(field);
            Err(ReaderError::Schema(msg))
        },
    }
}

/// The attribute list of a `div` head is decodable: the identifier and all
/// four margins are present, each margin a representable measurement, and
/// nothing unrecognized appears.
pub open spec fn div_attrs_ok(attrs: Seq<(Seq<char>, Seq<char>)>) -> bool {
    &&& div_attrs_recognized(attrs)
    &&& find_attr(attrs, "id"@) is Some
    &&& match find_attr(attrs, "leftMargin"@) {
        Some(t) => measurement_valid(t) && exp_representable(t) && measurement_val(t)
            <= usize::MAX,
        None => false,
    }
    &&& match find_attr(attrs, "rightMargin"@) {
        Some(t) => measurement_valid(t) && exp_representable(t) && measurement_val(t)
            <= usize::MAX,
        None => false,
    }
    &&& match find_attr(attrs, "topMargin"@) {
        Some(t) => measurement_valid(t) && exp_representable(t) && measurement_val(t)
            <= usize::MAX,
        None => false,
    }
    &&& match find_attr(attrs, "bottomMargin"@) {
        Some(t) => measurement_valid(t) && exp_representable(t) && measurement_val(t)
            <= usize::MAX,
        None => false,
    }
}

/// Builds the scalar fields of a margin container from a parsed `div` tag
/// head: `id` and the four margins are required, namespace declarations
/// ignored, anything else a schema mismatch.  The child list is left empty
/// for the caller to fill.
pub fn div_from_tag(tag: &OpenTag) -> (r: Result<Div, ReaderError>)
    ensures
        r matches Ok(d) ==> tag.name@ == "div"@ && div_matches_attrs(attr_views(tag.attrs@), d)
            && d.divs_child@ == Seq::<Div>::empty(),
        tag.name@ == "div"@ && div_attrs_ok(attr_views(tag.attrs@)) ==> r is Ok,
{
    if !str_eq(tag.name.as_str(), "div") {
        return Err(ReaderError::Schema(String::from_str("unexpected element")));
    }
    let ghost avs = attr_views(tag.attrs@);
    let mut id: Option<String> = None;
    let mut left: Option<String> = None;
    let mut right: Option<String> = None;
    let mut top: Option<String> = None;
    let mut bottom: Option<String> = None;
    let mut i: usize = 0;
    while i < tag.attrs.len()
        invariant
            i <= tag.attrs@.len(),
            avs == attr_views(tag.attrs@),
            forall|m: int|
                0 <= m < i ==> is_xmlns(#[trigger] avs[m].0) || local_part(avs[m].0) == "id"@
                    || local_part(avs[m].0) == "leftMargin"@ || local_part(avs[m].0)
                    == "rightMargin"@ || local_part(avs[m].0) == "topMargin"@ || local_part(
                    avs[m].0,
                ) == "bottomMargin"@,
            (match id {
                Some(p) => find_attr(avs.take(i as int), "id"@) == Some(p@),
                None => find_attr(avs.take(i as int), "id"@) is None,
            }),
            (match left {
                Some(p) => find_attr(avs.take(i as int), "leftMargin"@) == Some(p@),
                None => find_attr(avs.take(i as int), "leftMargin"@) is None,
            }),
            (match right {
                Some(p) => find_attr(avs.take(i as int), "rightMargin"@) == Some(p@),
                None => find_attr(avs.take(i as int), "rightMargin"@) is None,
            }),
            (match top {
                Some(p) => find_attr(avs.take(i as int), "topMargin"@) == Some(p@),
                None => find_attr(avs.take(i as int), "topMargin"@) is None,
            }),
            (match bottom {
                Some(p) => find_attr(avs.take(i as int), "bottomMargin"@) == Some(p@),
                None => find_attr(avs.take(i as int), "bottomMargin"@) is None,
            }),
        decreases tag.attrs@.len() - i,
    {
        proof {
            reveal_strlit("id");
            reveal_strlit("leftMargin");
            reveal_strlit("rightMargin");
            reveal_strlit("topMargin");
            reveal_strlit("bottomMargin");
            assert("id"@.len() == 2);
            assert("leftMargin"@.len() == 10);
            assert("rightMargin"@.len() == 11);
            assert("topMargin"@.len() == 9);
            assert("bottomMargin"@.len() == 12);
            crate::reader::comment_extended::lemma_find_attr_snoc(avs, i as int, "id"@);
            crate::reader::comment_extended::lemma_find_attr_snoc(avs, i as int, "leftMargin"@);
            crate::reader::comment_extended::lemma_find_attr_snoc(avs, i as int, "rightMargin"@);
            crate::reader::comment_extended::lemma_find_attr_snoc(avs, i as int, "topMargin"@);
            crate::reader::comment_extended::lemma_find_attr_snoc(avs, i as int, "bottomMargin"@);
        }
        let a = &tag.attrs[i];
        if !name_is_xmlns(a.name.as_str()) {
            let local = crate::reader::scan::local_name(a.name.as_str());
            if str_eq(local.as_str(), "id") {
                if id.is_none() {
                    id = Some(a.value.clone());
                }
            } else if str_eq(local.as_str(), "leftMargin") {
                if left.is_none() {
                    left = Some(a.value.clone());
                }
            } else if str_eq(local.as_str(), "rightMargin") {
                if right.is_none() {
                    right = Some(a.value.clone());
                }
            } else if str_eq(local.as_str(), "topMargin") {
                if top.is_none() {
                    top = Some(a.value.clone());
                }
            } else if str_eq(local.as_str(), "bottomMargin") {
                if bottom.is_none() {
                    bottom = Some(a.value.clone());
                }
            } else {
                return Err(ReaderError::Schema(String::from_str("unrecognized attribute")));
            }
        }
        i += 1;
    }
    proof {
        assert(avs.take(avs.len() as int) =~= avs);
    }
    let id_v = match id {
        Some(p) => p,
        None => {
            return Err(ReaderError::Schema(String::from_str("missing required attribute id")));
        },
    };
    let margin_left = match required_measurement("leftMargin", &left) {
        Ok(m) => m,
        Err(e) => {
            return Err(e);
        },
    };
    let margin_right = match required_measurement("rightMargin", &right) {
        Ok(m) => m,
        Err(e) => {
            return Err(e);
        },
    };
    let margin_top = match required_measurement("topMargin", &top) {
        Ok(m) => m,
        Err(e) => {
            return Err(e);
        },
    };
    let margin_bottom = match required_measurement("bottomMargin", &bottom) {
        Ok(m) => m,
        Err(e) => {
            return Err(e);
        },
    };
    Ok(
        Div {
            id: id_v,
            margin_left,
            margin_right,
            margin_top,
            margin_bottom,
            divs_child: Vec::new(),
        },
    )
}

/// A container whose identifier is free of double quotes, so that its
/// exact markup is decodable.
pub open spec fn div_wire_safe(d: Div) -> bool {
    wf_attr_value(d.id@)
}

/// The attribute list a childless container's markup carries, margins in
/// their decimal spelling.
pub open spec fn div_attr_list(d: Div) -> Seq<(Seq<char>, Seq<char>)> {
    seq![
        ("id"@, d.id@),
        ("leftMargin"@, dec_str(d.margin_left as nat)),
        ("rightMargin"@, dec_str(d.margin_right as nat)),
        ("topMargin"@, dec_str(d.margin_top as nat)),
        ("bottomMargin"@, dec_str(d.margin_bottom as nat)),
    ]
}

/// The canonical markup of a childless container.
pub open spec fn div_flat_xml(d: Div) -> Seq<char> {
    "<"@ + "div"@ + attrs_chars(div_attr_list(d)) + close_text(true)
}

/// The attribute list a childless container's markup carries, each name
/// under the namespace prefix `p`, margins in their decimal spelling.
pub open spec fn div_attr_list_p(p: Seq<char>, d: Div) -> Seq<(Seq<char>, Seq<char>)> {
    seq![
        (p + "id"@, d.id@),
        (p + "leftMargin"@, dec_str(d.margin_left as nat)),
        (p + "rightMargin"@, dec_str(d.margin_right as nat)),
        (p + "topMargin"@, dec_str(d.margin_top as nat)),
        (p + "bottomMargin"@, dec_str(d.margin_bottom as nat)),
    ]
}

/// The markup of a childless container whose names carry the prefix `p`.
pub open spec fn div_elem_p(p: Seq<char>, d: Div) -> Seq<char> {
    "<"@ + (p + "div"@) + attrs_chars(div_attr_list_p(p, d)) + close_text(true)
}

/// With the empty prefix, the prefixed markup is the canonical markup.
pub proof fn lemma_div_elem_unprefixed(d: Div)
    ensures
        div_elem_p(Seq::<char>::empty(), d) == div_flat_xml(d),
{
    let e = Seq::<char>::empty();
    assert(e + "div"@ =~= "div"@);
    assert(e + "id"@ =~= "id"@);
    assert(e + "leftMargin"@ =~= "leftMargin"@);
    assert(e + "rightMargin"@ =~= "rightMargin"@);
    assert(e + "topMargin"@ =~= "topMargin"@);
    assert(e + "bottomMargin"@ =~= "bottomMargin"@);
    assert(div_attr_list_p(e, d) =~= div_attr_list(d));
}

/// How the names and the five recognized attributes evaluate on a
/// container's prefixed attribute list.
#[verifier::rlimit(100)]
pub proof fn lemma_div_elem_p(p: Seq<char>, d: Div)
    requires
        wf_ns_prefix(p),
        div_wire_safe(d),
    ensures
        wf_raw_name(p + "div"@),
        local_part(p + "div"@) == "div"@,
        wf_raw_attrs(div_attr_list_p(p, d)),
        div_attrs_ok(div_attr_list_p(p, d)),
        find_attr(div_attr_list_p(p, d), "id"@) == Some(d.id@),
        match find_attr(div_attr_list_p(p, d), "leftMargin"@) {
            Some(t) => measurement_valid(t) && measurement_val(t) == d.margin_left,
            None => false,
        },
        match find_attr(div_attr_list_p(p, d), "rightMargin"@) {
            Some(t) => measurement_valid(t) && measurement_val(t) == d.margin_right,
            None => false,
        },
        match find_attr(div_attr_list_p(p, d), "topMargin"@) {
            Some(t) => measurement_valid(t) && measurement_val(t) == d.margin_top,
            None => false,
        },
        match find_attr(div_attr_list_p(p, d), "bottomMargin"@) {
            Some(t) => measurement_valid(t) && measurement_val(t) == d.margin_bottom,
            None => false,
        },
{
    reveal_strlit("div");
    reveal_strlit("id");
    reveal_strlit("leftMargin");
    reveal_strlit("rightMargin");
    reveal_strlit("topMargin");
    reveal_strlit("bottomMargin");
    reveal_strlit("xmlns");
    assert("div"@.len() == 3);
    assert("id"@.len() == 2);
    assert("leftMargin"@.len() == 10);
    assert("rightMargin"@.len() == 11);
    assert("topMargin"@.len() == 9);
    assert("bottomMargin"@.len() == 12);
    assert(wf_attr_name("div"@)) by {
        assert forall|i: int| 0 <= i < "div"@.len() implies is_name_char(#[trigger] "div"@[i])
            && "div"@[i] != ':' by {}
    }
    assert(wf_attr_name("id"@)) by {
        assert forall|i: int| 0 <= i < "id"@.len() implies is_name_char(#[trigger] "id"@[i])
            && "id"@[i] != ':' by {}
    }
    assert(wf_attr_name("leftMargin"@)) by {
        assert forall|i: int|
            0 <= i < "leftMargin"@.len() implies is_name_char(#[trigger] "leftMargin"@[i])
            && "leftMargin"@[i] != ':' by {}
    }
    assert(wf_attr_name("rightMargin"@)) by {
        assert forall|i: int|
            0 <= i < "rightMargin"@.len() implies is_name_char(#[trigger] "rightMargin"@[i])
            && "rightMargin"@[i] != ':' by {}
    }
    assert(wf_attr_name("topMargin"@)) by {
        assert forall|i: int|
            0 <= i < "topMargin"@.len() implies is_name_char(#[trigger] "topMargin"@[i])
            && "topMargin"@[i] != ':' by {}
    }
    assert(wf_attr_name("bottomMargin"@)) by {
        assert forall|i: int|
            0 <= i < "bottomMargin"@.len() implies is_name_char(#[trigger] "bottomMargin"@[i])
            && "bottomMargin"@[i] != ':' by {}
    }
    lemma_prefixed_name(p, "div"@);
    lemma_prefixed_name(p, "id"@);
    lemma_prefixed_name(p, "leftMargin"@);
    lemma_prefixed_name(p, "rightMargin"@);
    lemma_prefixed_name(p, "topMargin"@);
    lemma_prefixed_name(p, "bottomMargin"@);
    if p.len() == 0 {
        assert(p + "id"@ =~= "id"@);
        assert(p + "leftMargin"@ =~= "leftMargin"@);
        assert(p + "rightMargin"@ =~= "rightMargin"@);
        assert(p + "topMargin"@ =~= "topMargin"@);
        assert(p + "bottomMargin"@ =~= "bottomMargin"@);
        assert(!is_xmlns("id"@));
        assert(!is_xmlns("leftMargin"@)) by {
            if is_xmlns("leftMargin"@) {
                assert("leftMargin"@.take(5)[0] == "xmlns"@[0]);
            }
        }
        assert(!is_xmlns("rightMargin"@)) by {
            if is_xmlns("rightMargin"@) {
                assert("rightMargin"@.take(5)[0] == "xmlns"@[0]);
            }
        }
        assert(!is_xmlns("topMargin"@)) by {
            if is_xmlns("topMargin"@) {
                assert("topMargin"@.take(5)[0] == "xmlns"@[0]);
            }
        }
        assert(!is_xmlns("bottomMargin"@)) by {
            if is_xmlns("bottomMargin"@) {
                assert("bottomMargin"@.take(5)[0] == "xmlns"@[0]);
            }
        }
    }
    lemma_dec_str_digits(d.margin_left as nat);
    lemma_dec_str_digits(d.margin_right as nat);
    lemma_dec_str_digits(d.margin_top as nat);
    lemma_dec_str_digits(d.margin_bottom as nat);
    lemma_measurement_of_digits(dec_str(d.margin_left as nat));
    lemma_measurement_of_digits(dec_str(d.margin_right as nat));
    lemma_measurement_of_digits(dec_str(d.margin_top as nat));
    lemma_measurement_of_digits(dec_str(d.margin_bottom as nat));
    let a = div_attr_list_p(p, d);
    assert(wf_raw_attrs(a)) by {
        assert forall|i: int| 0 <= i < a.len() implies wf_raw_name(#[trigger] a[i].0)
            && wf_attr_value(a[i].1) by {
            assert forall|w: Seq<char>, m: int|
                all_digits(w) && 0 <= m < w.len() implies (#[trigger] w[m]) != '"' by {
                assert(is_digit(w[m]));
            }
        }
    }
    let a1 = a.skip(1);
    let a2 = a1.skip(1);
    let a3 = a2.skip(1);
    let a4 = a3.skip(1);
    assert(a1 =~= seq![
        (p + "leftMargin"@, dec_str(d.margin_left as nat)),
        (p + "rightMargin"@, dec_str(d.margin_right as nat)),
        (p + "topMargin"@, dec_str(d.margin_top as nat)),
        (p + "bottomMargin"@, dec_str(d.margin_bottom as nat)),
    ]);
    assert(a2 =~= seq![
        (p + "rightMargin"@, dec_str(d.margin_right as nat)),
        (p + "topMargin"@, dec_str(d.margin_top as nat)),
        (p + "bottomMargin"@, dec_str(d.margin_bottom as nat)),
    ]);
    assert(a3 =~= seq![
        (p + "topMargin"@, dec_str(d.margin_top as nat)),
        (p + "bottomMargin"@, dec_str(d.margin_bottom as nat)),
    ]);
    assert(a4 =~= seq![(p + "bottomMargin"@, dec_str(d.margin_bottom as nat))]);
    assert(a4.skip(1) =~= Seq::<(Seq<char>, Seq<char>)>::empty());
    assert(find_attr(a, "id"@) == Some(d.id@));
    assert(find_attr(a, "leftMargin"@) == find_attr(a1, "leftMargin"@));
    assert(find_attr(a1, "leftMargin"@) == Some(dec_str(d.margin_left as nat)));
    assert(find_attr(a, "rightMargin"@) == find_attr(a1, "rightMargin"@));
    assert(find_attr(a1, "rightMargin"@) == find_attr(a2, "rightMargin"@));
    assert(find_attr(a2, "rightMargin"@) == Some(dec_str(d.margin_right as nat)));
    assert(find_attr(a, "topMargin"@) == find_attr(a1, "topMargin"@));
    assert(find_attr(a1, "topMargin"@) == find_attr(a2, "topMargin"@));
    assert(find_attr(a2, "topMargin"@) == find_attr(a3, "topMargin"@));
    assert(find_attr(a3, "topMargin"@) == Some(dec_str(d.margin_top as nat)));
    assert(find_attr(a, "bottomMargin"@) == find_attr(a1, "bottomMargin"@));
    assert(find_attr(a1, "bottomMargin"@) == find_attr(a2, "bottomMargin"@));
    assert(find_attr(a2, "bottomMargin"@) == find_attr(a3, "bottomMargin"@));
    assert(find_attr(a3, "bottomMargin"@) == find_attr(a4, "bottomMargin"@));
    assert(find_attr(a4, "bottomMargin"@) == Some(dec_str(d.margin_bottom as nat)));
}

/// How the five recognized attributes evaluate on a container's own
/// attribute list.
#[verifier::rlimit(100)]
pub proof fn lemma_div_attrs_eval(d: Div)
    requires
        div_wire_safe(d),
    ensures
        wf_attr_name("div"@),
        wf_attrs(div_attr_list(d)),
        div_attrs_ok(div_attr_list(d)),
        find_attr(div_attr_list(d), "id"@) == Some(d.id@),
        match find_attr(div_attr_list(d), "leftMargin"@) {
            Some(t) => measurement_valid(t) && measurement_val(t) == d.margin_left,
            None => false,
        },
        match find_attr(div_attr_list(d), "rightMargin"@) {
            Some(t) => measurement_valid(t) && measurement_val(t) == d.margin_right,
            None => false,
        },
        match find_attr(div_attr_list(d), "topMargin"@) {
            Some(t) => measurement_valid(t) && measurement_val(t) == d.margin_top,
            None => false,
        },
        match find_attr(div_attr_list(d), "bottomMargin"@) {
            Some(t) => measurement_valid(t) && measurement_val(t) == d.margin_bottom,
            None => false,
        },
{
    reveal_strlit("div");
    reveal_strlit("id");
    reveal_strlit("leftMargin");
    reveal_strlit("rightMargin");
    reveal_strlit("topMargin");
    reveal_strlit("bottomMargin");
    reveal_strlit("xmlns");
    assert("div"@.len() == 3);
    assert("id"@.len() == 2);
    assert("leftMargin"@.len() == 10);
    assert("rightMargin"@.len() == 11);
    assert("topMargin"@.len() == 9);
    assert("bottomMargin"@.len() == 12);
    assert(wf_attr_name("div"@)) by {
        assert forall|i: int| 0 <= i < "div"@.len() implies is_name_char(#[trigger] "div"@[i])
            && "div"@[i] != ':' by {}
    }
    assert(wf_attr_name("id"@)) by {
        assert forall|i: int| 0 <= i < "id"@.len() implies is_name_char(#[trigger] "id"@[i])
            && "id"@[i] != ':' by {}
    }
    assert(wf_attr_name("leftMargin"@)) by {
        assert forall|i: int|
            0 <= i < "leftMargin"@.len() implies is_name_char(#[trigger] "leftMargin"@[i])
            && "leftMargin"@[i] != ':' by {}
    }
    assert(wf_attr_name("rightMargin"@)) by {
        assert forall|i: int|
            0 <= i < "rightMargin"@.len() implies is_name_char(#[trigger] "rightMargin"@[i])
            && "rightMargin"@[i] != ':' by {}
    }
    assert(wf_attr_name("topMargin"@)) by {
        assert forall|i: int|
            0 <= i < "topMargin"@.len() implies is_name_char(#[trigger] "topMargin"@[i])
            && "topMargin"@[i] != ':' by {}
    }
    assert(wf_attr_name("bottomMargin"@)) by {
        assert forall|i: int|
            0 <= i < "bottomMargin"@.len() implies is_name_char(#[trigger] "bottomMargin"@[i])
            && "bottomMargin"@[i] != ':' by {}
    }
    assert(!is_xmlns("id"@));
    assert(!is_xmlns("div"@));
    assert(!is_xmlns("leftMargin"@)) by {
        if is_xmlns("leftMargin"@) {
            assert("leftMargin"@.take(5)[0] == "xmlns"@[0]);
        }
    }
    assert(!is_xmlns("rightMargin"@)) by {
        if is_xmlns("rightMargin"@) {
            assert("rightMargin"@.take(5)[0] == "xmlns"@[0]);
        }
    }
    assert(!is_xmlns("topMargin"@)) by {
        if is_xmlns("topMargin"@) {
            assert("topMargin"@.take(5)[0] == "xmlns"@[0]);
        }
    }
    assert(!is_xmlns("bottomMargin"@)) by {
        if is_xmlns("bottomMargin"@) {
            assert("bottomMargin"@.take(5)[0] == "xmlns"@[0]);
        }
    }
    lemma_local_part_plain("id"@);
    lemma_local_part_plain("leftMargin"@);
    lemma_local_part_plain("rightMargin"@);
    lemma_local_part_plain("topMargin"@);
    lemma_local_part_plain("bottomMargin"@);
    lemma_dec_str_digits(d.margin_left as nat);
    lemma_dec_str_digits(d.margin_right as nat);
    lemma_dec_str_digits(d.margin_top as nat);
    lemma_dec_str_digits(d.margin_bottom as nat);
    lemma_measurement_of_digits(dec_str(d.margin_left as nat));
    lemma_measurement_of_digits(dec_str(d.margin_right as nat));
    lemma_measurement_of_digits(dec_str(d.margin_top as nat));
    lemma_measurement_of_digits(dec_str(d.margin_bottom as nat));
    let a = div_attr_list(d);
    assert(wf_attrs(a)) by {
        assert forall|i: int| 0 <= i < a.len() implies wf_attr_name(#[trigger] a[i].0)
            && wf_attr_value(a[i].1) by {
            assert forall|w: Seq<char>, m: int|
                all_digits(w) && 0 <= m < w.len() implies (#[trigger] w[m]) != '"' by {
                assert(is_digit(w[m]));
            }
        }
    }
    let a1 = a.skip(1);
    let a2 = a1.skip(1);
    let a3 = a2.skip(1);
    let a4 = a3.skip(1);
    let a5 = a4.skip(1);
    assert(a1 =~= seq![
        ("leftMargin"@, dec_str(d.margin_left as nat)),
        ("rightMargin"@, dec_str(d.margin_right as nat)),
        ("topMargin"@, dec_str(d.margin_top as nat)),
        ("bottomMargin"@, dec_str(d.margin_bottom as nat)),
    ]);
    assert(a2 =~= seq![
        ("rightMargin"@, dec_str(d.margin_right as nat)),
        ("topMargin"@, dec_str(d.margin_top as nat)),
        ("bottomMargin"@, dec_str(d.margin_bottom as nat)),
    ]);
    assert(a3 =~= seq![
        ("topMargin"@, dec_str(d.margin_top as nat)),
        ("bottomMargin"@, dec_str(d.margin_bottom as nat)),
    ]);
    assert(a4 =~= seq![("bottomMargin"@, dec_str(d.margin_bottom as nat))]);
    assert(a5 =~= Seq::<(Seq<char>, Seq<char>)>::empty());
    assert(find_attr(a, "id"@) == Some(d.id@));
    assert(find_attr(a, "leftMargin"@) == find_attr(a1, "leftMargin"@));
    assert(find_attr(a1, "leftMargin"@) == Some(dec_str(d.margin_left as nat)));
    assert(find_attr(a, "rightMargin"@) == find_attr(a1, "rightMargin"@));
    assert(find_attr(a1, "rightMargin"@) == find_attr(a2, "rightMargin"@));
    assert(find_attr(a2, "rightMargin"@) == Some(dec_str(d.margin_right as nat)));
    assert(find_attr(a, "topMargin"@) == find_attr(a1, "topMargin"@));
    assert(find_attr(a1, "topMargin"@) == find_attr(a2, "topMargin"@));
    assert(find_attr(a2, "topMargin"@) == find_attr(a3, "topMargin"@));
    assert(find_attr(a3, "topMargin"@) == Some(dec_str(d.margin_top as nat)));
    assert(find_attr(a, "bottomMargin"@) == find_attr(a1, "bottomMargin"@));
    assert(find_attr(a1, "bottomMargin"@) == find_attr(a2, "bottomMargin"@));
    assert(find_attr(a2, "bottomMargin"@) == find_attr(a3, "bottomMargin"@));
    assert(find_attr(a3, "bottomMargin"@) == find_attr(a4, "bottomMargin"@));
    assert(find_attr(a4, "bottomMargin"@) == Some(dec_str(d.margin_bottom as nat)));
}

/// What a container parse guarantees on canonical input: on the exact
/// markup of a quote-safe childless container it reconstructs that
/// container and consumes exactly its markup.
pub open spec fn parse_div_complete(
    s: Seq<char>,
    pos: int,
    r: Result<(Div, usize), ReaderError>,
) -> bool {
    forall|d: Div, p: Seq<char>|
        div_wire_safe(d) && d.divs_child@ == Seq::<Div>::empty() && wf_ns_prefix(p)
            && #[trigger] match_at(s, pos, div_elem_p(p, d)) ==> (r matches Ok(t) && t.0.id@
            == d.id@ && t.0.margin_left == d.margin_left && t.0.margin_right == d.margin_right
            && t.0.margin_top == d.margin_top && t.0.margin_bottom == d.margin_bottom
            && t.0.divs_child@ == Seq::<Div>::empty() && t.1 == pos + div_elem_p(p, d).len())
}

/// Parses one complete `div` element starting at `pos`: the tag head, then
/// optionally a single wrapper element (named by `wrapper`) holding nested
/// `div` children, then the close tag.  Returns the container and the
/// position after it.
#[verifier::rlimit(100)]
pub fn parse_div(s: &Vec<char>, pos: usize) -> (r: Result<(Div, usize), ReaderError>)
    requires
        pos <= s@.len(),
    ensures
        r matches Ok(t) ==> pos < t.1 <= s@.len(),
        parse_div_complete(s@, pos as int, r),
    decreases s@.len() - pos,
{
    let tr = parse_open_tag(s, pos);
    let ghost tr_g = tr;
    proof {
        assert forall|dm: Div, p: Seq<char>|
            div_wire_safe(dm) && dm.divs_child@ == Seq::<Div>::empty() && wf_ns_prefix(p)
                && #[trigger] match_at(s@, pos as int, div_elem_p(p, dm)) implies (tr_g matches Ok(
            t,
        ) && t.0.name@ == "div"@ && attr_views(t.0.attrs@) == div_attr_list_p(p, dm)
            && t.0.self_closing == true && t.1 == pos + div_elem_p(p, dm).len()) by {
            lemma_div_elem_p(p, dm);
            assert(match_at(
                s@,
                pos as int,
                "<"@ + (p + "div"@) + attrs_chars(div_attr_list_p(p, dm)) + close_text(true),
            ));
        }
    }
    let (tag, end) = match tr {
        Ok(t) => t,
        Err(e) => {
            return Err(e);
        },
    };
    let dr = div_from_tag(&tag);
    proof {
        assert forall|dm: Div, p: Seq<char>|
            div_wire_safe(dm) && dm.divs_child@ == Seq::<Div>::empty() && wf_ns_prefix(p)
                && #[trigger] match_at(s@, pos as int, div_elem_p(p, dm)) implies (dr matches Ok(
            dd,
        ) && dd.id@ == dm.id@ && dd.margin_left == dm.margin_left && dd.margin_right
            == dm.margin_right && dd.margin_top == dm.margin_top && dd.margin_bottom
            == dm.margin_bottom && dd.divs_child@ == Seq::<Div>::empty()) by {
            assert(tr_g matches Ok(t) && t.0 == tag);
            lemma_div_elem_p(p, dm);
        }
    }
    let mut d = match dr {
        Ok(d) => d,
        Err(e) => {
            return Err(e);
        },
    };
    if tag.self_closing {
        return Ok((d, end));
    }
    proof {
        assert forall|dm: Div, p: Seq<char>|
            div_wire_safe(dm) && dm.divs_child@ == Seq::<Div>::empty() && wf_ns_prefix(p)
                && #[trigger] match_at(s@, pos as int, div_elem_p(p, dm)) implies false by {
            assert(tr_g matches Ok(t) && t.0 == tag);
        }
    }
    // the element may hold one wrapper of nested children before its close
    let w = skip_ws(s, end);
    let mut pos2 = end;
    if w < s.len() && w + 1 < s.len() && s[w] == '<' && s[w + 1] != '/' {
        let (children, after) = match parse_div_list(s, w, "divsChild") {
            Ok(t) => t,
            Err(e) => {
                return Err(e);
            },
        };
        d.divs_child = children;
        pos2 = after;
    }
    let w2 = skip_ws(s, pos2);
    match parse_close_tag(s, w2, "div") {
        Ok(p) => Ok((d, p)),
        Err(e) => Err(e),
    }
}

/// The container `a` carries the scalar content of `d` and no children.
pub open spec fn div_flat_eq(a: Div, d: Div) -> bool {
    a.id@ == d.id@ && a.margin_left == d.margin_left && a.margin_right == d.margin_right
        && a.margin_top == d.margin_top && a.margin_bottom == d.margin_bottom && a.divs_child@
        == Seq::<Div>::empty()
}

/// Every container in the sequence is quote-safe and childless.
pub open spec fn divs_wire_safe(ds: Seq<Div>) -> bool {
    forall|i: int|
        0 <= i < ds.len() ==> div_wire_safe(#[trigger] ds[i]) && ds[i].divs_child@ == Seq::<
            Div,
        >::empty()
}

/// The concatenated markup of a container sequence, in order.
/// Whitespace runs, one for each junction of a child list.
pub open spec fn ws_gaps(gaps: Seq<Seq<char>>) -> bool {
    forall|i: int| 0 <= i < gaps.len() ==> ws_only(#[trigger] gaps[i])
}

/// The gapped markup of a container sequence: before each container its
/// whitespace run, containers under the prefix `p`.
pub open spec fn divs_gapped(p: Seq<char>, ds: Seq<Div>, gaps: Seq<Seq<char>>) -> Seq<char>
    decreases ds.len(),
{
    if ds.len() == 0 {
        Seq::<char>::empty()
    } else {
        gaps[0] + div_elem_p(p, ds[0]) + divs_gapped(p, ds.skip(1), gaps.skip(1))
    }
}

/// The markup of a wrapper with local name `wn` under prefix `p`, holding
/// the containers with a whitespace run at each junction (`gaps` has one
/// run per container plus one before the close tag).
pub open spec fn div_list_wire(p: Seq<char>, wn: Seq<char>, ds: Seq<Div>, gaps: Seq<Seq<char>>)
    -> Seq<char> {
    "<"@ + (p + wn) + attrs_chars(Seq::<(Seq<char>, Seq<char>)>::empty()) + close_text(false)
        + divs_gapped(p, ds, gaps) + gaps[ds.len() as int] + close_tag_chars(p + wn)
}

pub proof fn lemma_divs_gapped_cat(
    p: Seq<char>,
    x: Seq<Div>,
    gx: Seq<Seq<char>>,
    y: Seq<Div>,
    gy: Seq<Seq<char>>,
)
    requires
        x.len() == gx.len(),
    ensures
        divs_gapped(p, x + y, gx + gy) == divs_gapped(p, x, gx) + divs_gapped(p, y, gy),
    decreases x.len(),
{
    if x.len() == 0 {
        assert(x + y =~= y);
        assert(gx + gy =~= gy);
        assert(divs_gapped(p, x, gx) + divs_gapped(p, y, gy) =~= divs_gapped(p, y, gy));
    } else {
        assert((x + y)[0] == x[0]);
        assert((gx + gy)[0] == gx[0]);
        assert((x + y).skip(1) =~= x.skip(1) + y);
        assert((gx + gy).skip(1) =~= gx.skip(1) + gy);
        lemma_divs_gapped_cat(p, x.skip(1), gx.skip(1), y, gy);
        assert(gx[0] + div_elem_p(p, x[0]) + (divs_gapped(p, x.skip(1), gx.skip(1)) + divs_gapped(
            p,
            y,
            gy,
        )) =~= (gx[0] + div_elem_p(p, x[0]) + divs_gapped(p, x.skip(1), gx.skip(1)))
            + divs_gapped(p, y, gy));
    }
}

pub proof fn lemma_divs_gapped_snoc(p: Seq<char>, ds: Seq<Div>, gaps: Seq<Seq<char>>, k: int)
    requires
        0 <= k < ds.len(),
        ds.len() <= gaps.len(),
    ensures
        divs_gapped(p, ds.take(k + 1), gaps.take(k + 1)) == divs_gapped(
            p,
            ds.take(k),
            gaps.take(k),
        ) + (gaps[k] + div_elem_p(p, ds[k])),
{
    assert(ds.take(k + 1) =~= ds.take(k) + seq![ds[k]]);
    assert(gaps.take(k + 1) =~= gaps.take(k) + seq![gaps[k]]);
    lemma_divs_gapped_cat(p, ds.take(k), gaps.take(k), seq![ds[k]], seq![gaps[k]]);
    assert(divs_gapped(p, seq![ds[k]], seq![gaps[k]]) =~= gaps[k] + div_elem_p(p, ds[k])) by {
        assert(seq![ds[k]][0] == ds[k]);
        assert(seq![gaps[k]][0] == gaps[k]);
        assert(seq![ds[k]].skip(1) =~= Seq::<Div>::empty());
        assert(seq![gaps[k]].skip(1) =~= Seq::<Seq<char>>::empty());
        assert(divs_gapped(p, seq![ds[k]].skip(1), seq![gaps[k]].skip(1)) == Seq::<char>::empty());
        assert(gaps[k] + div_elem_p(p, ds[k]) + Seq::<char>::empty() =~= gaps[k] + div_elem_p(
            p,
            ds[k],
        ));
    }
}

/// Facts about the gapped container-list text seen from the position that
/// follows the first `k` containers.
#[verifier::rlimit(100)]
proof fn lemma_div_list_at(
    s: Seq<char>,
    pos: int,
    cur: int,
    k: int,
    p: Seq<char>,
    wn: Seq<char>,
    ds: Seq<Div>,
    gaps: Seq<Seq<char>>,
)
    requires
        divs_wire_safe(ds),
        wf_ns_prefix(p),
        ws_gaps(gaps),
        gaps.len() == ds.len() + 1,
        match_at(s, pos, divs_gapped(p, ds, gaps) + gaps[ds.len() as int] + close_tag_chars(p + wn)),
        0 <= k <= ds.len(),
        cur == pos + divs_gapped(p, ds.take(k), gaps.take(k)).len(),
    ensures
        k < ds.len() ==> match_at(s, cur + gaps[k].len(), div_elem_p(p, ds[k])) && (forall|m: int|
            cur <= m < cur + gaps[k].len() ==> is_ws_char(#[trigger] s[m])) && cur + gaps[k].len()
            + 2 <= s.len() && s[cur + gaps[k].len() as int] == '<' && s[cur + gaps[k].len() as int
            + 1] != '/' && s[cur + gaps[k].len() as int + 1] != '?' && s[cur + gaps[k].len() as int
            + 1] != '!' && cur + gaps[k].len() + div_elem_p(p, ds[k]).len() == pos + divs_gapped(
            p,
            ds.take(k + 1),
            gaps.take(k + 1),
        ).len(),
        k == ds.len() ==> match_at(s, cur + gaps[k].len(), close_tag_chars(p + wn)) && (forall|
            m: int,
        |
            cur <= m < cur + gaps[k].len() ==> is_ws_char(#[trigger] s[m])) && cur + gaps[k].len()
            + 2 <= s.len() && s[cur + gaps[k].len() as int] == '<' && s[cur + gaps[k].len() as int
            + 1] == '/' && cur + gaps[k].len() + close_tag_chars(p + wn).len() == pos + (
        divs_gapped(p, ds, gaps) + gaps[ds.len() as int] + close_tag_chars(p + wn)).len(),
{
    reveal_strlit("<");
    reveal_strlit("</");
    reveal_strlit("div");
    assert("<"@.len() == 1);
    assert("</"@.len() == 2);
    assert("div"@.len() == 3);
    let close = close_tag_chars(p + wn);
    let fin = gaps[ds.len() as int];
    assert(ds.take(k) + ds.skip(k) =~= ds);
    assert(gaps.take(k) + gaps.skip(k) =~= gaps);
    lemma_divs_gapped_cat(p, ds.take(k), gaps.take(k), ds.skip(k), gaps.skip(k));
    assert((divs_gapped(p, ds.take(k), gaps.take(k)) + divs_gapped(p, ds.skip(k), gaps.skip(k)))
        + fin + close =~= divs_gapped(p, ds.take(k), gaps.take(k)) + (divs_gapped(
        p,
        ds.skip(k),
        gaps.skip(k),
    ) + fin + close));
    assert(divs_gapped(p, ds, gaps) + fin + close =~= divs_gapped(p, ds.take(k), gaps.take(k)) + (
    divs_gapped(p, ds.skip(k), gaps.skip(k)) + fin + close));
    crate::reader::scan::lemma_match_split(
        s,
        pos,
        divs_gapped(p, ds.take(k), gaps.take(k)),
        divs_gapped(p, ds.skip(k), gaps.skip(k)) + fin + close,
    );
    let rest = divs_gapped(p, ds.skip(k), gaps.skip(k)) + fin + close;
    assert(match_at(s, cur, rest));
    if k < ds.len() {
        assert(ds.skip(k)[0] == ds[k]);
        assert(gaps.skip(k)[0] == gaps[k]);
        assert(ds.skip(k).skip(1) =~= ds.skip(k + 1));
        assert(gaps.skip(k).skip(1) =~= gaps.skip(k + 1));
        assert(divs_gapped(p, ds.skip(k), gaps.skip(k)) == gaps[k] + div_elem_p(p, ds[k])
            + divs_gapped(p, ds.skip(k + 1), gaps.skip(k + 1)));
        let elem = div_elem_p(p, ds[k]);
        assert(rest =~= gaps[k] + (elem + (divs_gapped(p, ds.skip(k + 1), gaps.skip(k + 1)) + fin
            + close)));
        crate::reader::scan::lemma_match_split(
            s,
            cur,
            gaps[k],
            elem + (divs_gapped(p, ds.skip(k + 1), gaps.skip(k + 1)) + fin + close),
        );
        crate::reader::scan::lemma_match_split(
            s,
            cur + gaps[k].len(),
            elem,
            divs_gapped(p, ds.skip(k + 1), gaps.skip(k + 1)) + fin + close,
        );
        assert forall|m: int| cur <= m < cur + gaps[k].len() implies is_ws_char(
            #[trigger] s[m],
        ) by {
            crate::reader::scan::lemma_match_index(s, cur, gaps[k], m - cur);
            assert(is_ws_char(gaps[k][m - cur]));
        }
        crate::reader::scan::lemma_match_index(s, cur + gaps[k].len(), elem, 0);
        crate::reader::scan::lemma_match_index(s, cur + gaps[k].len(), elem, 1);
        assert(elem[0] == '<');
        assert(elem[1] == (p + "div"@)[0]);
        if p.len() == 0 {
            assert((p + "div"@)[0] == "div"@[0]);
        } else {
            assert((p + "div"@)[0] == p[0]);
            assert(is_name_char(p[0]));
        }
        lemma_divs_gapped_snoc(p, ds, gaps, k);
    } else {
        assert(ds.skip(k) =~= Seq::<Div>::empty());
        assert(divs_gapped(p, ds.skip(k), gaps.skip(k)) == Seq::<char>::empty());
        assert(rest =~= gaps[k] + (close + Seq::<char>::empty()));
        assert(gaps[k] + (close + Seq::<char>::empty()) =~= gaps[k] + close);
        assert(match_at(s, cur, gaps[k] + close));
        crate::reader::scan::lemma_match_split(s, cur, gaps[k], close);
        assert forall|m: int| cur <= m < cur + gaps[k].len() implies is_ws_char(
            #[trigger] s[m],
        ) by {
            crate::reader::scan::lemma_match_index(s, cur, gaps[k], m - cur);
            assert(is_ws_char(gaps[k][m - cur]));
        }
        assert(ds.take(k) =~= ds);
        assert(gaps.take(k) =~= gaps.take(k));
        crate::reader::scan::lemma_match_index(s, cur + gaps[k].len(), close, 0);
        crate::reader::scan::lemma_match_index(s, cur + gaps[k].len(), close, 1);
        assert(close[0] == '<');
        assert(close[1] == '/');
    }
}

/// What the unwrap-once strategy guarantees on canonical input: on the
/// markup of a wrapper holding quote-safe childless containers — under any
/// namespace prefix, whitespace at the junctions — the parse succeeds and
/// returns exactly those containers.
pub open spec fn parse_div_list_complete(
    s: Seq<char>,
    pos: int,
    wn: Seq<char>,
    r: Result<(Vec<Div>, usize), ReaderError>,
) -> bool {
    forall|ds: Seq<Div>, p: Seq<char>, gaps: Seq<Seq<char>>|
        divs_wire_safe(ds) && wf_attr_name(wn) && wf_ns_prefix(p) && ws_gaps(gaps) && gaps.len()
            == ds.len() + 1 && #[trigger] match_at(s, pos, div_list_wire(p, wn, ds, gaps)) ==> (
        r matches Ok(t) && t.0@.len() == ds.len() && (forall|i: int|
            0 <= i < ds.len() ==> div_flat_eq(#[trigger] t.0@[i], ds[i])) && t.1 == pos
            + div_list_wire(p, wn, ds, gaps).len())
}

/// The unwrap-once decode strategy: parses one wrapper element whose sole
/// role is to hold a repeated list of `div` children, and yields that list.
/// A self-closing wrapper yields the empty list.
#[verifier::rlimit(100)]
pub fn parse_div_list(s: &Vec<char>, pos: usize, wrapper: &str) -> (r: Result<(Vec<Div>, usize),
    ReaderError>)
    requires
        pos <= s@.len(),
    ensures
        r matches Ok(t) ==> pos < t.1 <= s@.len(),
        parse_div_list_complete(s@, pos as int, wrapper@, r),
    decreases s@.len() - pos,
{
    let tr = parse_open_tag(s, pos);
    let ghost tr_g = tr;
    proof {
        assert forall|ds: Seq<Div>, p: Seq<char>, gaps: Seq<Seq<char>>|
            divs_wire_safe(ds) && wf_attr_name(wrapper@) && wf_ns_prefix(p) && ws_gaps(gaps)
                && gaps.len() == ds.len() + 1 && #[trigger] match_at(
                s@,
                pos as int,
                div_list_wire(p, wrapper@, ds, gaps),
            ) implies (tr_g matches Ok(t) && t.0.name@ == wrapper@ && t.0.self_closing == false
            && t.1 == pos + ("<"@ + (p + wrapper@) + attrs_chars(
            Seq::<(Seq<char>, Seq<char>)>::empty(),
        ) + close_text(false)).len() && match_at(
            s@,
            t.1 as int,
            divs_gapped(p, ds, gaps) + gaps[ds.len() as int] + close_tag_chars(p + wrapper@),
        )) by {
            lemma_prefixed_name(p, wrapper@);
            crate::reader::scan::lemma_wf_attrs_raw(Seq::<(Seq<char>, Seq<char>)>::empty());
            let head = "<"@ + (p + wrapper@) + attrs_chars(Seq::<(Seq<char>, Seq<char>)>::empty())
                + close_text(false);
            assert(div_list_wire(p, wrapper@, ds, gaps) =~= head + (divs_gapped(p, ds, gaps)
                + gaps[ds.len() as int] + close_tag_chars(p + wrapper@)));
            crate::reader::scan::lemma_match_split(
                s@,
                pos as int,
                head,
                divs_gapped(p, ds, gaps) + gaps[ds.len() as int] + close_tag_chars(p + wrapper@),
            );
        }
    }
    let (tag, end) = match tr {
        Ok(t) => t,
        Err(e) => {
            return Err(e);
        },
    };
    if !str_eq(tag.name.as_str(), wrapper) {
        proof {
            assert forall|ds: Seq<Div>, p: Seq<char>, gaps: Seq<Seq<char>>|
                divs_wire_safe(ds) && wf_attr_name(wrapper@) && wf_ns_prefix(p) && ws_gaps(gaps)
                    && gaps.len() == ds.len() + 1 && #[trigger] match_at(
                    s@,
                    pos as int,
                    div_list_wire(p, wrapper@, ds, gaps),
                ) implies false by {
                assert(tr_g matches Ok(t) && t.0 == tag);
            }
        }
        return Err(ReaderError::Schema(String::from_str("unexpected wrapper element")));
    }
    let mut children: Vec<Div> = Vec::new();
    if tag.self_closing {
        proof {
            assert forall|ds: Seq<Div>, p: Seq<char>, gaps: Seq<Seq<char>>|
                divs_wire_safe(ds) && wf_attr_name(wrapper@) && wf_ns_prefix(p) && ws_gaps(gaps)
                    && gaps.len() == ds.len() + 1 && #[trigger] match_at(
                    s@,
                    pos as int,
                    div_list_wire(p, wrapper@, ds, gaps),
                ) implies false by {
                assert(tr_g matches Ok(t) && t.0 == tag);
            }
        }
        return Ok((children, end));
    }
    let mut cur = end;
    proof {
        assert forall|ds: Seq<Div>, p: Seq<char>, gaps: Seq<Seq<char>>|
            divs_wire_safe(ds) && wf_attr_name(wrapper@) && wf_ns_prefix(p) && ws_gaps(gaps)
                && gaps.len() == ds.len() + 1 && #[trigger] match_at(
                s@,
                pos as int,
                div_list_wire(p, wrapper@, ds, gaps),
            ) implies children@.len() <= ds.len() && (forall|i: int|
            0 <= i < children@.len() ==> div_flat_eq(#[trigger] children@[i], ds[i])) && match_at(
            s@,
            end as int,
            divs_gapped(p, ds, gaps) + gaps[ds.len() as int] + close_tag_chars(p + wrapper@),
        ) && cur == end + divs_gapped(p, ds.take(children@.len() as int), gaps.take(
            children@.len() as int,
        )).len() && pos + div_list_wire(p, wrapper@, ds, gaps).len() == end + (divs_gapped(
            p,
            ds,
            gaps,
        ) + gaps[ds.len() as int] + close_tag_chars(p + wrapper@)).len() by {
            assert(tr_g matches Ok(t) && t.0 == tag && t.1 == end);
            assert(ds.take(0) =~= Seq::<Div>::empty());
            assert(gaps.take(0) =~= Seq::<Seq<char>>::empty());
            assert(divs_gapped(p, ds.take(0), gaps.take(0)) == Seq::<char>::empty());
        }
    }
    loop
        invariant
            pos < cur <= s@.len(),
            end <= s@.len(),
            forall|ds: Seq<Div>, p: Seq<char>, gaps: Seq<Seq<char>>|
                divs_wire_safe(ds) && wf_attr_name(wrapper@) && wf_ns_prefix(p) && ws_gaps(gaps)
                    && gaps.len() == ds.len() + 1 && #[trigger] match_at(
                    s@,
                    pos as int,
                    div_list_wire(p, wrapper@, ds, gaps),
                ) ==> children@.len() <= ds.len() && (forall|i: int|
                    0 <= i < children@.len() ==> div_flat_eq(#[trigger] children@[i], ds[i]))
                    && match_at(
                    s@,
                    end as int,
                    divs_gapped(p, ds, gaps) + gaps[ds.len() as int] + close_tag_chars(
                        p + wrapper@,
                    ),
                ) && cur == end + divs_gapped(p, ds.take(children@.len() as int), gaps.take(
                    children@.len() as int,
                )).len() && pos + div_list_wire(p, wrapper@, ds, gaps).len() == end + (divs_gapped(
                    p,
                    ds,
                    gaps,
                ) + gaps[ds.len() as int] + close_tag_chars(p + wrapper@)).len(),
        decreases s@.len() - cur,
    {
        let ghost k = children@.len() as int;
        let w = skip_ws(s, cur);
        if w < s.len() && w + 1 < s.len() && s[w] == '<' && s[w + 1] != '/' {
            let pr = parse_div(s, w);
            let ghost pr_g = pr;
            proof {
                assert forall|ds: Seq<Div>, p: Seq<char>, gaps: Seq<Seq<char>>|
                    divs_wire_safe(ds) && wf_attr_name(wrapper@) && wf_ns_prefix(p) && ws_gaps(
                        gaps,
                    ) && gaps.len() == ds.len() + 1 && #[trigger] match_at(
                        s@,
                        pos as int,
                        div_list_wire(p, wrapper@, ds, gaps),
                    ) implies k < ds.len() && (pr_g matches Ok(t) && div_flat_eq(t.0, ds[k]) && t.1
                    == end + divs_gapped(p, ds.take(k + 1), gaps.take(k + 1)).len()) by {
                    lemma_div_list_at(s@, end as int, cur as int, k, p, wrapper@, ds, gaps);
                    if k == ds.len() {
                        assert(w == cur + gaps[k].len()) by {
                            if w > cur + gaps[k].len() {
                                assert(is_ws_char(s@[cur + gaps[k].len() as int]));
                            }
                            if w < cur + gaps[k].len() {
                                assert(is_ws_char(s@[w as int]));
                            }
                        }
                        assert(s@[w + 1] == '/');
                        assert(false);
                    }
                    assert(w == cur + gaps[k].len()) by {
                        if w > cur + gaps[k].len() {
                            assert(is_ws_char(s@[cur + gaps[k].len() as int]));
                        }
                        if w < cur + gaps[k].len() {
                            assert(is_ws_char(s@[w as int]));
                        }
                    }
                    assert(match_at(s@, w as int, div_elem_p(p, ds[k])));
                }
            }
            let (child, after) = match pr {
                Ok(t) => t,
                Err(e) => {
                    return Err(e);
                },
            };
            let ghost children_pre = children@;
            children.push(child);
            proof {
                assert forall|ds: Seq<Div>, p: Seq<char>, gaps: Seq<Seq<char>>|
                    divs_wire_safe(ds) && wf_attr_name(wrapper@) && wf_ns_prefix(p) && ws_gaps(
                        gaps,
                    ) && gaps.len() == ds.len() + 1 && #[trigger] match_at(
                        s@,
                        pos as int,
                        div_list_wire(p, wrapper@, ds, gaps),
                    ) implies children@.len() <= ds.len() && (forall|i: int|
                    0 <= i < children@.len() ==> div_flat_eq(#[trigger] children@[i], ds[i]))
                    && after == end + divs_gapped(p, ds.take(children@.len() as int), gaps.take(
                    children@.len() as int,
                )).len() by {
                    assert(pr_g matches Ok(t) && t.0 == child && t.1 == after);
                    assert(children@ == children_pre.push(child));
                    assert forall|i: int|
                        0 <= i < children@.len() implies div_flat_eq(
                        #[trigger] children@[i],
                        ds[i],
                    ) by {
                        if i < k {
                            assert(children@[i] == children_pre[i]);
                        } else {
                            assert(children@[i] == child);
                        }
                    }
                }
            }
            cur = after;
        } else {
            let pr = parse_close_tag(s, w, wrapper);
            proof {
                assert forall|ds: Seq<Div>, p: Seq<char>, gaps: Seq<Seq<char>>|
                    divs_wire_safe(ds) && wf_attr_name(wrapper@) && wf_ns_prefix(p) && ws_gaps(
                        gaps,
                    ) && gaps.len() == ds.len() + 1 && #[trigger] match_at(
                        s@,
                        pos as int,
                        div_list_wire(p, wrapper@, ds, gaps),
                    ) implies k == ds.len() && children@.len() == ds.len() && (forall|i: int|
                    0 <= i < ds.len() ==> div_flat_eq(#[trigger] children@[i], ds[i])) && (
                pr matches Ok(q) && q == pos + div_list_wire(p, wrapper@, ds, gaps).len()) by {
                    lemma_div_list_at(s@, end as int, cur as int, k, p, wrapper@, ds, gaps);
                    lemma_prefixed_name(p, wrapper@);
                    if k < ds.len() {
                        assert(w == cur + gaps[k].len()) by {
                            if w > cur + gaps[k].len() {
                                assert(is_ws_char(s@[cur + gaps[k].len() as int]));
                            }
                            if w < cur + gaps[k].len() {
                                assert(is_ws_char(s@[w as int]));
                            }
                        }
                        assert(s@[w + 1] != '/');
                        assert(false);
                    }
                    assert(w == cur + gaps[k].len()) by {
                        if w > cur + gaps[k].len() {
                            assert(is_ws_char(s@[cur + gaps[k].len() as int]));
                        }
                        if w < cur + gaps[k].len() {
                            assert(is_ws_char(s@[w as int]));
                        }
                    }
                    assert(match_at(s@, w as int, close_tag_chars(p + wrapper@)));
                    assert(ds.take(k) =~= ds);
                    assert(gaps.take(k) =~= gaps.take(k));
                }
            }
            match pr {
                Ok(p) => {
                    return Ok((children, p));
                },
                Err(e) => {
                    return Err(e);
                },
            }
        }
    }
}

impl Div {
    /// Decodes one `div` element (optionally namespaced) from a string:
    /// the element and nothing but whitespace around it.  On the markup of
    /// a quote-safe childless container — under any namespace prefix,
    /// whitespace around it — it reconstructs that container.
    pub fn from_xml_str(s: &str) -> (r: Result<Div, ReaderError>)
        ensures
            forall|d: Div, p: Seq<char>, lead: Seq<char>, trail: Seq<char>|
                div_wire_safe(d) && d.divs_child@ == Seq::<Div>::empty() && wf_ns_prefix(p)
                    && ws_only(lead) && ws_only(trail) && s@ == (#[trigger] padded(
                    lead,
                    div_elem_p(p, d),
                    trail,
                )) ==> (r matches Ok(w) && w.id@ == d.id@ && w.margin_left == d.margin_left
                    && w.margin_right == d.margin_right && w.margin_top == d.margin_top
                    && w.margin_bottom == d.margin_bottom && w.divs_child@ == Seq::<
                Div,
                >::empty()),
    {
        let chars = crate::strings::str_chars(s);
        let start = crate::reader::scan::skip_misc(&chars, 0);
        let pr = parse_div(&chars, start);
        let ghost pr_g = pr;
        proof {
            assert forall|d: Div, p: Seq<char>, lead: Seq<char>, trail: Seq<char>|
                div_wire_safe(d) && d.divs_child@ == Seq::<Div>::empty() && wf_ns_prefix(p)
                    && ws_only(lead) && ws_only(trail) && s@ == (#[trigger] padded(
                    lead,
                    div_elem_p(p, d),
                    trail,
                )) implies (pr_g matches Ok(t) && t.0.id@ == d.id@ && t.0.margin_left
                == d.margin_left && t.0.margin_right == d.margin_right && t.0.margin_top
                == d.margin_top && t.0.margin_bottom == d.margin_bottom && t.0.divs_child@
                == Seq::<Div>::empty() && t.1 == lead.len() + div_elem_p(p, d).len() && start
                == lead.len() && lead.len() + div_elem_p(p, d).len() + trail.len()
                == chars@.len()) by {
                let elem = div_elem_p(p, d);
                assert(chars@ =~= lead + (elem + trail));
                assert(chars@.subrange(0, chars@.len() as int) =~= chars@);
                crate::reader::scan::lemma_match_split(chars@, 0, lead, elem + trail);
                crate::reader::scan::lemma_match_split(chars@, lead.len() as int, elem, trail);
                reveal_strlit("<");
                reveal_strlit("div");
                assert("<"@.len() == 1);
                assert("div"@.len() == 3);
                crate::reader::scan::lemma_match_index(chars@, lead.len() as int, elem, 0);
                crate::reader::scan::lemma_match_index(chars@, lead.len() as int, elem, 1);
                assert(elem[0] == '<');
                assert(elem[1] == (p + "div"@)[0]);
                if p.len() == 0 {
                    assert((p + "div"@)[0] == "div"@[0]);
                } else {
                    assert((p + "div"@)[0] == p[0]);
                }
                assert(direct_elem_at(chars@, 0, lead.len() as int));
                assert(start == lead.len());
            }
        }
        let (d, end) = match pr {
            Ok(t) => t,
            Err(e) => {
                return Err(e);
            },
        };
        let t = skip_ws(&chars, end);
        if t < chars.len() {
            proof {
                assert forall|dm: Div, p: Seq<char>, lead: Seq<char>, trail: Seq<char>|
                    div_wire_safe(dm) && dm.divs_child@ == Seq::<Div>::empty() && wf_ns_prefix(p)
                        && ws_only(lead) && ws_only(trail) && s@ == (#[trigger] padded(
                        lead,
                        div_elem_p(p, dm),
                        trail,
                    )) implies false by {
                    assert(pr_g matches Ok(tp) && tp.1 == end);
                    assert(is_ws_char(chars@[t as int])) by {
                        assert(chars@[end + (t - end)] == trail[t - end]);
                    }
                }
            }
            return Err(ReaderError::Malformed(String::from_str("trailing content")));
        }
        proof {
            assert forall|dm: Div, p: Seq<char>, lead: Seq<char>, trail: Seq<char>|
                div_wire_safe(dm) && dm.divs_child@ == Seq::<Div>::empty() && wf_ns_prefix(p)
                    && ws_only(lead) && ws_only(trail) && s@ == (#[trigger] padded(
                    lead,
                    div_elem_p(p, dm),
                    trail,
                )) implies d.id@ == dm.id@ && d.margin_left == dm.margin_left && d.margin_right
                == dm.margin_right && d.margin_top == dm.margin_top && d.margin_bottom
                == dm.margin_bottom && d.divs_child@ == Seq::<Div>::empty() by {
                assert(pr_g matches Ok(tp) && tp.0 == d);
            }
        }
        Ok(d)
    }
}

} // verus!
