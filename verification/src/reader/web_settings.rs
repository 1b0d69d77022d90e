//! Decoding the web-settings root: a `webSettings` element optionally
//! holding a `divs` wrapper of margin containers, then the
//! duplicate-resolution pass on the container list.

use vstd::prelude::*;
use vstd::utf8::encode_utf8;

use crate::documents::div::Div;
use crate::documents::web_settings::WebSettings;
use crate::errors::ReaderError;
use crate::reader::div::div_flat_eq;
use crate::reader::div::div_list_wire;
use crate::reader::div::divs_wire_safe;
use crate::reader::div::parse_div_list;
use crate::reader::div::ws_gaps;
use crate::reader::from_xml::bytes_to_chars;
use crate::reader::from_xml::FromXML;
use crate::reader::scan::attrs_chars;
use crate::reader::scan::close_tag_chars;
use crate::reader::scan::close_text;
use crate::reader::scan::direct_elem_at;
use crate::reader::scan::lemma_match_index;
use crate::reader::scan::lemma_match_split;
use crate::reader::scan::lemma_prefixed_name;
use crate::reader::scan::match_at;
use crate::reader::scan::padded;
use crate::reader::scan::parse_close_tag;
use crate::reader::scan::parse_open_tag;
use crate::reader::scan::skip_ws;
use crate::reader::scan::wf_attr_name;
use crate::reader::scan::wf_ns_prefix;
use crate::reader::scan::ws_only;
use crate::resolve::keys_sorted;
use crate::resolve::Keyed;
use crate::resolve::resolve_duplicates;
use crate::resolve::resolves;
use crate::resolve::some_resolution;
use crate::strings::is_name_char;
use crate::strings::is_ws_char;
use crate::strings::str_eq;

verus! {

/// The head of the settings root under prefix `p`.
pub open spec fn web_settings_head(p: Seq<char>) -> Seq<char> {
    "<"@ + (p + "webSettings"@) + attrs_chars(Seq::<(Seq<char>, Seq<char>)>::empty()) + close_text(
        false,
    )
}

/// The markup of a whole settings root under prefix `p`: the `webSettings`
/// element holding a `divs` wrapper with the containers, whitespace runs
/// `g1` before the wrapper, `gaps` at its junctions, and `g2` before the
/// root's close tag.
pub open spec fn web_settings_wire(
    p: Seq<char>,
    ds: Seq<Div>,
    g1: Seq<char>,
    gaps: Seq<Seq<char>>,
    g2: Seq<char>,
) -> Seq<char> {
    web_settings_head(p) + g1 + div_list_wire(p, "divs"@, ds, gaps) + g2 + close_tag_chars(
        p + "webSettings"@,
    )
}

/// The two tag names of the settings root are canonical names.
pub proof fn lemma_web_settings_names()
    ensures
        wf_attr_name("webSettings"@),
        wf_attr_name("divs"@),
{
    reveal_strlit("webSettings");
    reveal_strlit("divs");
    assert forall|i: int| 0 <= i < "webSettings"@.len() implies is_name_char(
        #[trigger] "webSettings"@[i],
    ) && "webSettings"@[i] != ':' by {
        assert("webSettings"@.len() == 11);
    }
    assert forall|i: int| 0 <= i < "divs"@.len() implies is_name_char(#[trigger] "divs"@[i])
        && "divs"@[i] != ':' by {
        assert("divs"@.len() == 4);
    }
}

/// Where the pieces of the settings markup stand.
#[verifier::rlimit(100)]
proof fn lemma_web_settings_wire_shape(
    chars: Seq<char>,
    p: Seq<char>,
    ds: Seq<Div>,
    g1: Seq<char>,
    gaps: Seq<Seq<char>>,
    g2: Seq<char>,
    lead: Seq<char>,
    trail: Seq<char>,
)
    requires
        wf_ns_prefix(p),
        ws_only(lead),
        chars == padded(lead, web_settings_wire(p, ds, g1, gaps, g2), trail),
    ensures
        wf_attr_name("webSettings"@),
        wf_attr_name("divs"@),
        match_at(
            chars,
            lead.len() as int,
            "<"@ + (p + "webSettings"@) + attrs_chars(Seq::<(Seq<char>, Seq<char>)>::empty())
                + close_text(false),
        ),
        match_at(chars, (lead.len() + web_settings_head(p).len()) as int, g1),
        match_at(
            chars,
            (lead.len() + web_settings_head(p).len() + g1.len()) as int,
            div_list_wire(p, "divs"@, ds, gaps),
        ),
        match_at(
            chars,
            (lead.len() + web_settings_head(p).len() + g1.len() + div_list_wire(
                p,
                "divs"@,
                ds,
                gaps,
            ).len()) as int,
            g2,
        ),
        match_at(
            chars,
            (lead.len() + web_settings_head(p).len() + g1.len() + div_list_wire(
                p,
                "divs"@,
                ds,
                gaps,
            ).len() + g2.len()) as int,
            close_tag_chars(p + "webSettings"@),
        ),
        lead.len() + web_settings_head(p).len() + g1.len() + div_list_wire(
            p,
            "divs"@,
            ds,
            gaps,
        ).len() + g2.len() + close_tag_chars(p + "webSettings"@).len() + trail.len()
            == chars.len(),
        direct_elem_at(chars, 0, lead.len() as int),
        div_list_wire(p, "divs"@, ds, gaps)[0] == '<',
        div_list_wire(p, "divs"@, ds, gaps)[1] != '/',
        close_tag_chars(p + "webSettings"@)[0] == '<',
{
    lemma_web_settings_names();
    reveal_strlit("<");
    reveal_strlit("</");
    reveal_strlit(">");
    reveal_strlit("divs");
    reveal_strlit("webSettings");
    assert("<"@.len() == 1);
    assert("</"@.len() == 2);
    assert(">"@.len() == 1);
    let hd = web_settings_head(p);
    let lw = div_list_wire(p, "divs"@, ds, gaps);
    let cl = close_tag_chars(p + "webSettings"@);
    assert(chars =~= lead + (hd + (g1 + (lw + (g2 + (cl + trail))))));
    assert(chars.subrange(0, chars.len() as int) =~= chars);
    lemma_match_split(chars, 0, lead, hd + (g1 + (lw + (g2 + (cl + trail)))));
    lemma_match_split(chars, lead.len() as int, hd, g1 + (lw + (g2 + (cl + trail))));
    lemma_match_split(chars, (lead.len() + hd.len()) as int, g1, lw + (g2 + (cl + trail)));
    lemma_match_split(chars, (lead.len() + hd.len() + g1.len()) as int, lw, g2 + (cl + trail));
    lemma_match_split(
        chars,
        (lead.len() + hd.len() + g1.len() + lw.len()) as int,
        g2,
        cl + trail,
    );
    lemma_match_split(
        chars,
        (lead.len() + hd.len() + g1.len() + lw.len() + g2.len()) as int,
        cl,
        trail,
    );
    lemma_prefixed_name(p, "webSettings"@);
    lemma_prefixed_name(p, "divs"@);
    lemma_match_index(chars, lead.len() as int, hd, 0);
    lemma_match_index(chars, lead.len() as int, hd, 1);
    assert(hd[0] == '<');
    assert(hd[1] == (p + "webSettings"@)[0]);
    if p.len() == 0 {
        assert((p + "webSettings"@)[0] == "webSettings"@[0]);
    } else {
        assert((p + "webSettings"@)[0] == p[0]);
    }
    assert(direct_elem_at(chars, 0, lead.len() as int));
    assert(lw[0] == '<');
    assert(lw[1] == (p + "divs"@)[0]);
    if p.len() == 0 {
        assert((p + "divs"@)[0] == "divs"@[0]);
    } else {
        assert((p + "divs"@)[0] == p[0]);
        assert(is_name_char(p[0]));
    }
    assert(cl[0] == '<');
}

/// The markup of a settings root with no wrapper at all: the open tag,
/// whitespace, and the close tag.
pub open spec fn web_settings_bare_wire(p: Seq<char>, g1: Seq<char>) -> Seq<char> {
    web_settings_head(p) + g1 + close_tag_chars(p + "webSettings"@)
}

/// The markup of a self-closing settings root.
pub open spec fn web_settings_empty_wire(p: Seq<char>) -> Seq<char> {
    "<"@ + (p + "webSettings"@) + attrs_chars(Seq::<(Seq<char>, Seq<char>)>::empty()) + close_text(
        true,
    )
}

/// Every container list that resolves the empty input is empty.
pub proof fn lemma_resolves_empty(r: Seq<Div>)
    requires
        resolves(Seq::<Div>::empty(), r),
    ensures
        r =~= Seq::<Div>::empty(),
{
    if r.len() > 0 {
        assert(crate::resolve::last_with_key(Seq::<Div>::empty(), r[0].key_spec()) == Some(r[0]));
    }
}

/// The decoded container list is the resolution of a sequence carrying
/// exactly the content of `ds`.
pub open spec fn resolution_of_containers(ds: Seq<Div>, divs: Seq<Div>) -> bool {
    exists|parsed: Seq<Div>|
        #![trigger resolves(parsed, divs)]
        parsed.len() == ds.len() && (forall|i: int|
            0 <= i < ds.len() ==> div_flat_eq(#[trigger] parsed[i], ds[i])) && resolves(
            parsed,
            divs,
        )
}

/// Where the pieces of the wrapper-free settings markup stand.
proof fn lemma_web_settings_bare_shape(
    chars: Seq<char>,
    p: Seq<char>,
    g1: Seq<char>,
    lead: Seq<char>,
    trail: Seq<char>,
)
    requires
        wf_ns_prefix(p),
        ws_only(lead),
        chars == padded(lead, web_settings_bare_wire(p, g1), trail),
    ensures
        wf_attr_name("webSettings"@),
        match_at(
            chars,
            lead.len() as int,
            "<"@ + (p + "webSettings"@) + attrs_chars(Seq::<(Seq<char>, Seq<char>)>::empty())
                + close_text(false),
        ),
        match_at(chars, (lead.len() + web_settings_head(p).len()) as int, g1),
        match_at(
            chars,
            (lead.len() + web_settings_head(p).len() + g1.len()) as int,
            close_tag_chars(p + "webSettings"@),
        ),
        lead.len() + web_settings_head(p).len() + g1.len() + close_tag_chars(
            p + "webSettings"@,
        ).len() + trail.len() == chars.len(),
        direct_elem_at(chars, 0, lead.len() as int),
        close_tag_chars(p + "webSettings"@)[0] == '<',
        close_tag_chars(p + "webSettings"@)[1] == '/',
{
    lemma_web_settings_names();
    reveal_strlit("<");
    reveal_strlit("</");
    reveal_strlit(">");
    reveal_strlit("webSettings");
    assert("<"@.len() == 1);
    assert("</"@.len() == 2);
    assert(">"@.len() == 1);
    let hd = web_settings_head(p);
    let cl = close_tag_chars(p + "webSettings"@);
    assert(chars =~= lead + (hd + (g1 + (cl + trail))));
    assert(chars.subrange(0, chars.len() as int) =~= chars);
    lemma_match_split(chars, 0, lead, hd + (g1 + (cl + trail)));
    lemma_match_split(chars, lead.len() as int, hd, g1 + (cl + trail));
    lemma_match_split(chars, (lead.len() + hd.len()) as int, g1, cl + trail);
    lemma_match_split(chars, (lead.len() + hd.len() + g1.len()) as int, cl, trail);
    lemma_prefixed_name(p, "webSettings"@);
    lemma_match_index(chars, lead.len() as int, hd, 0);
    lemma_match_index(chars, lead.len() as int, hd, 1);
    assert(hd[0] == '<');
    assert(hd[1] == (p + "webSettings"@)[0]);
    if p.len() == 0 {
        assert((p + "webSettings"@)[0] == "webSettings"@[0]);
    } else {
        assert((p + "webSettings"@)[0] == p[0]);
    }
    assert(direct_elem_at(chars, 0, lead.len() as int));
    assert(cl[0] == '<');
    assert(cl[1] == '/');
}

/// Where the pieces of the self-closing settings markup stand.
proof fn lemma_web_settings_empty_shape(
    chars: Seq<char>,
    p: Seq<char>,
    lead: Seq<char>,
    trail: Seq<char>,
)
    requires
        wf_ns_prefix(p),
        ws_only(lead),
        chars == padded(lead, web_settings_empty_wire(p), trail),
    ensures
        wf_attr_name("webSettings"@),
        match_at(
            chars,
            lead.len() as int,
            "<"@ + (p + "webSettings"@) + attrs_chars(Seq::<(Seq<char>, Seq<char>)>::empty())
                + close_text(true),
        ),
        lead.len() + web_settings_empty_wire(p).len() + trail.len() == chars.len(),
        direct_elem_at(chars, 0, lead.len() as int),
{
    lemma_web_settings_names();
    reveal_strlit("<");
    reveal_strlit("webSettings");
    assert("<"@.len() == 1);
    let wr = web_settings_empty_wire(p);
    assert(chars =~= lead + (wr + trail));
    assert(chars.subrange(0, chars.len() as int) =~= chars);
    lemma_match_split(chars, 0, lead, wr + trail);
    lemma_match_split(chars, lead.len() as int, wr, trail);
    lemma_prefixed_name(p, "webSettings"@);
    lemma_match_index(chars, lead.len() as int, wr, 0);
    lemma_match_index(chars, lead.len() as int, wr, 1);
    assert(wr[0] == '<');
    assert(wr[1] == (p + "webSettings"@)[0]);
    if p.len() == 0 {
        assert((p + "webSettings"@)[0] == "webSettings"@[0]);
    } else {
        assert((p + "webSettings"@)[0] == p[0]);
    }
    assert(direct_elem_at(chars, 0, lead.len() as int));
}

impl FromXML for WebSettings {
    /// A decoded settings root has been through the duplicate-resolution
    /// pass: its containers are the latest occurrence per identifier, in
    /// strictly ascending identifier order.  And the decode inverts the
    /// write path: on the markup of any quote-safe childless container
    /// sequence — under any namespace prefix, whitespace at every junction
    /// and around the document — it succeeds, with a container list that
    /// is the resolution of a sequence carrying exactly those containers'
    /// content.
    open spec fn from_xml_spec(bytes: Seq<u8>, r: Result<WebSettings, ReaderError>) -> bool {
        &&& (r matches Ok(ws) ==> keys_sorted(ws.divs@) && some_resolution(ws.divs@))
        &&& forall|
            ds: Seq<Div>,
            p: Seq<char>,
            g1: Seq<char>,
            gaps: Seq<Seq<char>>,
            g2: Seq<char>,
            lead: Seq<char>,
            trail: Seq<char>,
        |
            divs_wire_safe(ds) && wf_ns_prefix(p) && ws_only(g1) && ws_gaps(gaps) && gaps.len()
                == ds.len() + 1 && ws_only(g2) && ws_only(lead) && ws_only(trail) && bytes
                == encode_utf8(
                #[trigger] padded(lead, web_settings_wire(p, ds, g1, gaps, g2), trail),
            ) ==> (r matches Ok(ws) && resolution_of_containers(ds, ws.divs@))
        &&& forall|p: Seq<char>, g1: Seq<char>, lead: Seq<char>, trail: Seq<char>|
            wf_ns_prefix(p) && ws_only(g1) && ws_only(lead) && ws_only(trail) && bytes
                == encode_utf8(#[trigger] padded(lead, web_settings_bare_wire(p, g1), trail)) ==> (
            r matches Ok(ws) && ws.divs@ == Seq::<Div>::empty())
        &&& forall|p: Seq<char>, lead: Seq<char>, trail: Seq<char>|
            wf_ns_prefix(p) && ws_only(lead) && ws_only(trail) && bytes == encode_utf8(
                #[trigger] padded(lead, web_settings_empty_wire(p), trail),
            ) ==> (r matches Ok(ws) && ws.divs@ == Seq::<Div>::empty())
    }

    #[verifier::rlimit(100)]
    fn from_xml(bytes: &[u8]) -> (r: Result<WebSettings, ReaderError>) {
        let br = bytes_to_chars(bytes);
        let chars = match br {
            Ok(c) => c,
            Err(e) => {
                proof {
                    assert forall|
                        ds: Seq<Div>,
                        p: Seq<char>,
                        g1: Seq<char>,
                        gaps: Seq<Seq<char>>,
                        g2: Seq<char>,
                        lead: Seq<char>,
                        trail: Seq<char>,
                    |
                        divs_wire_safe(ds) && wf_ns_prefix(p) && ws_only(g1) && ws_gaps(gaps)
                            && gaps.len() == ds.len() + 1 && ws_only(g2) && ws_only(lead)
                            && ws_only(trail) && bytes@ == encode_utf8(
                            #[trigger] padded(lead, web_settings_wire(p, ds, g1, gaps, g2), trail),
                        ) implies false by {
                        vstd::utf8::encode_utf8_valid_utf8(
                            padded(lead, web_settings_wire(p, ds, g1, gaps, g2), trail),
                        );
                    }
                    assert forall|p: Seq<char>, g1: Seq<char>, lead: Seq<char>, trail: Seq<char>|
                        wf_ns_prefix(p) && ws_only(g1) && ws_only(lead) && ws_only(trail)
                            && bytes@ == encode_utf8(
                            #[trigger] padded(lead, web_settings_bare_wire(p, g1), trail),
                        ) implies false by {
                        vstd::utf8::encode_utf8_valid_utf8(
                            padded(lead, web_settings_bare_wire(p, g1), trail),
                        );
                    }
                    assert forall|p: Seq<char>, lead: Seq<char>, trail: Seq<char>|
                        wf_ns_prefix(p) && ws_only(lead) && ws_only(trail) && bytes@
                            == encode_utf8(
                            #[trigger] padded(lead, web_settings_empty_wire(p), trail),
                        ) implies false by {
                        vstd::utf8::encode_utf8_valid_utf8(
                            padded(lead, web_settings_empty_wire(p), trail),
                        );
                    }
                }
                return Err(e);
            },
        };
        proof {
            assert forall|
                ds: Seq<Div>,
                p: Seq<char>,
                g1: Seq<char>,
                gaps: Seq<Seq<char>>,
                g2: Seq<char>,
                lead: Seq<char>,
                trail: Seq<char>,
            |
                divs_wire_safe(ds) && wf_ns_prefix(p) && ws_only(g1) && ws_gaps(gaps) && gaps.len()
                    == ds.len() + 1 && ws_only(g2) && ws_only(lead) && ws_only(trail) && bytes@
                    == encode_utf8(
                    #[trigger] padded(lead, web_settings_wire(p, ds, g1, gaps, g2), trail),
                ) implies chars@ == padded(lead, web_settings_wire(p, ds, g1, gaps, g2), trail) by {
                vstd::utf8::encode_utf8_decode_utf8(chars@);
                vstd::utf8::encode_utf8_decode_utf8(
                    padded(lead, web_settings_wire(p, ds, g1, gaps, g2), trail),
                );
            }
            assert forall|p: Seq<char>, g1: Seq<char>, lead: Seq<char>, trail: Seq<char>|
                wf_ns_prefix(p) && ws_only(g1) && ws_only(lead) && ws_only(trail) && bytes@
                    == encode_utf8(
                    #[trigger] padded(lead, web_settings_bare_wire(p, g1), trail),
                ) implies chars@ == padded(lead, web_settings_bare_wire(p, g1), trail) by {
                vstd::utf8::encode_utf8_decode_utf8(chars@);
                vstd::utf8::encode_utf8_decode_utf8(
                    padded(lead, web_settings_bare_wire(p, g1), trail),
                );
            }
            assert forall|p: Seq<char>, lead: Seq<char>, trail: Seq<char>|
                wf_ns_prefix(p) && ws_only(lead) && ws_only(trail) && bytes@ == encode_utf8(
                    #[trigger] padded(lead, web_settings_empty_wire(p), trail),
                ) implies chars@ == padded(lead, web_settings_empty_wire(p), trail) by {
                vstd::utf8::encode_utf8_decode_utf8(chars@);
                vstd::utf8::encode_utf8_decode_utf8(
                    padded(lead, web_settings_empty_wire(p), trail),
                );
            }
        }
        let start = crate::reader::scan::skip_misc(&chars, 0);
        let tr = parse_open_tag(&chars, start);
        let ghost tr_g = tr;
        proof {
            assert forall|
                ds: Seq<Div>,
                p: Seq<char>,
                g1: Seq<char>,
                gaps: Seq<Seq<char>>,
                g2: Seq<char>,
                lead: Seq<char>,
                trail: Seq<char>,
            |
                divs_wire_safe(ds) && wf_ns_prefix(p) && ws_only(g1) && ws_gaps(gaps) && gaps.len()
                    == ds.len() + 1 && ws_only(g2) && ws_only(lead) && ws_only(trail) && bytes@
                    == encode_utf8(
                    #[trigger] padded(lead, web_settings_wire(p, ds, g1, gaps, g2), trail),
                ) implies (tr_g matches Ok(t) && t.0.name@ == "webSettings"@ && t.0.self_closing
                == false && t.1 == lead.len() + web_settings_head(p).len() && start
                == lead.len()) by {
                lemma_web_settings_wire_shape(chars@, p, ds, g1, gaps, g2, lead, trail);
                lemma_prefixed_name(p, "webSettings"@);
                crate::reader::scan::lemma_wf_attrs_raw(Seq::<(Seq<char>, Seq<char>)>::empty());
                assert(start == lead.len());
            }
            assert forall|p: Seq<char>, g1: Seq<char>, lead: Seq<char>, trail: Seq<char>|
                wf_ns_prefix(p) && ws_only(g1) && ws_only(lead) && ws_only(trail) && bytes@
                    == encode_utf8(
                    #[trigger] padded(lead, web_settings_bare_wire(p, g1), trail),
                ) implies (tr_g matches Ok(t) && t.0.name@ == "webSettings"@ && t.0.self_closing
                == false && t.1 == lead.len() + web_settings_head(p).len() && start
                == lead.len()) by {
                lemma_web_settings_bare_shape(chars@, p, g1, lead, trail);
                lemma_prefixed_name(p, "webSettings"@);
                crate::reader::scan::lemma_wf_attrs_raw(Seq::<(Seq<char>, Seq<char>)>::empty());
                assert(start == lead.len());
            }
            assert forall|p: Seq<char>, lead: Seq<char>, trail: Seq<char>|
                wf_ns_prefix(p) && ws_only(lead) && ws_only(trail) && bytes@ == encode_utf8(
                    #[trigger] padded(lead, web_settings_empty_wire(p), trail),
                ) implies (tr_g matches Ok(t) && t.0.name@ == "webSettings"@ && t.0.self_closing
                == true && t.1 == lead.len() + web_settings_empty_wire(p).len() && start
                == lead.len()) by {
                lemma_web_settings_empty_shape(chars@, p, lead, trail);
                lemma_prefixed_name(p, "webSettings"@);
                crate::reader::scan::lemma_wf_attrs_raw(Seq::<(Seq<char>, Seq<char>)>::empty());
                assert(start == lead.len());
            }
        }
        let (tag, end) = match tr {
            Ok(t) => t,
            Err(e) => {
                return Err(e);
            },
        };
        if !str_eq(tag.name.as_str(), "webSettings") {
            proof {
                assert forall|
                    ds: Seq<Div>,
                    p: Seq<char>,
                    g1: Seq<char>,
                    gaps: Seq<Seq<char>>,
                    g2: Seq<char>,
                    lead: Seq<char>,
                    trail: Seq<char>,
                |
                    divs_wire_safe(ds) && wf_ns_prefix(p) && ws_only(g1) && ws_gaps(gaps)
                        && gaps.len() == ds.len() + 1 && ws_only(g2) && ws_only(lead) && ws_only(
                        trail,
                    ) && bytes@ == encode_utf8(
                        #[trigger] padded(lead, web_settings_wire(p, ds, g1, gaps, g2), trail),
                    ) implies false by {
                    assert(tr_g matches Ok(t) && t.0 == tag);
                }
                assert forall|p: Seq<char>, g1: Seq<char>, lead: Seq<char>, trail: Seq<char>|
                    wf_ns_prefix(p) && ws_only(g1) && ws_only(lead) && ws_only(trail) && bytes@
                        == encode_utf8(
                        #[trigger] padded(lead, web_settings_bare_wire(p, g1), trail),
                    ) implies false by {
                    assert(tr_g matches Ok(t) && t.0 == tag);
                }
                assert forall|p: Seq<char>, lead: Seq<char>, trail: Seq<char>|
                    wf_ns_prefix(p) && ws_only(lead) && ws_only(trail) && bytes@ == encode_utf8(
                        #[trigger] padded(lead, web_settings_empty_wire(p), trail),
                    ) implies false by {
                    assert(tr_g matches Ok(t) && t.0 == tag);
                }
            }
            return Err(ReaderError::Schema(String::from_str("unexpected root element")));
        }
        let mut pos = end;
        let mut divs: Vec<Div> = Vec::new();
        if !tag.self_closing {
            let w = skip_ws(&chars, pos);
            if w < chars.len() && w + 1 < chars.len() && chars[w] == '<' && chars[w + 1] != '/' {
                proof {
                    assert forall|p: Seq<char>, g1: Seq<char>, lead: Seq<char>, trail: Seq<char>|
                        wf_ns_prefix(p) && ws_only(g1) && ws_only(lead) && ws_only(trail)
                            && bytes@ == encode_utf8(
                            #[trigger] padded(lead, web_settings_bare_wire(p, g1), trail),
                        ) implies false by {
                        assert(tr_g matches Ok(t0) && t0.0 == tag && t0.1 == end);
                        lemma_web_settings_bare_shape(chars@, p, g1, lead, trail);
                        let cpos: int = (lead.len() + web_settings_head(p).len()
                            + g1.len()) as int;
                        assert(w == cpos) by {
                            if w > cpos {
                                assert(is_ws_char(chars@[cpos as int]));
                            }
                            if w < cpos {
                                assert(is_ws_char(chars@[w as int])) by {
                                    assert(chars@[end + (w - end)] == g1[w - end]);
                                }
                                assert(!is_ws_char(chars@[w as int]));
                            }
                        }
                        assert(chars@[w + 1] == '/') by {
                            lemma_match_index(
                                chars@,
                                cpos,
                                close_tag_chars(p + "webSettings"@),
                                1,
                            );
                        }
                    }
                }
                let lr = parse_div_list(&chars, w, "divs");
                let ghost lr_g = lr;
                proof {
                    assert forall|
                        ds: Seq<Div>,
                        p: Seq<char>,
                        g1: Seq<char>,
                        gaps: Seq<Seq<char>>,
                        g2: Seq<char>,
                        lead: Seq<char>,
                        trail: Seq<char>,
                    |
                        divs_wire_safe(ds) && wf_ns_prefix(p) && ws_only(g1) && ws_gaps(gaps)
                            && gaps.len() == ds.len() + 1 && ws_only(g2) && ws_only(lead)
                            && ws_only(trail) && bytes@ == encode_utf8(
                            #[trigger] padded(lead, web_settings_wire(p, ds, g1, gaps, g2), trail),
                        ) implies (lr_g matches Ok(t) && t.0@.len() == ds.len() && (forall|i: int|
                        0 <= i < ds.len() ==> div_flat_eq(#[trigger] t.0@[i], ds[i])) && t.1
                        == lead.len() + web_settings_head(p).len() + g1.len() + div_list_wire(
                        p,
                        "divs"@,
                        ds,
                        gaps,
                    ).len()) by {
                        assert(tr_g matches Ok(t0) && t0.0 == tag && t0.1 == end);
                        lemma_web_settings_wire_shape(chars@, p, ds, g1, gaps, g2, lead, trail);
                        let lpos: int = (lead.len() + web_settings_head(p).len() + g1.len()) as int;
                        lemma_match_index(chars@, lpos, div_list_wire(p, "divs"@, ds, gaps), 0);
                        assert(w == lpos) by {
                            if w > lpos {
                                assert(is_ws_char(chars@[lpos as int]));
                            }
                            if w < lpos {
                                assert(is_ws_char(chars@[w as int])) by {
                                    assert(chars@[end + (w - end)] == g1[w - end]);
                                }
                                assert(!is_ws_char(chars@[w as int]));
                            }
                        }
                        assert(match_at(chars@, w as int, div_list_wire(p, "divs"@, ds, gaps)));
                    }
                }
                let (ds2, q) = match lr {
                    Ok(t) => t,
                    Err(e) => {
                        return Err(e);
                    },
                };
                divs = ds2;
                pos = q;
            } else {
                proof {
                    assert forall|
                        ds: Seq<Div>,
                        p: Seq<char>,
                        g1: Seq<char>,
                        gaps: Seq<Seq<char>>,
                        g2: Seq<char>,
                        lead: Seq<char>,
                        trail: Seq<char>,
                    |
                        divs_wire_safe(ds) && wf_ns_prefix(p) && ws_only(g1) && ws_gaps(gaps)
                            && gaps.len() == ds.len() + 1 && ws_only(g2) && ws_only(lead)
                            && ws_only(trail) && bytes@ == encode_utf8(
                            #[trigger] padded(lead, web_settings_wire(p, ds, g1, gaps, g2), trail),
                        ) implies false by {
                        assert(tr_g matches Ok(t0) && t0.0 == tag && t0.1 == end);
                        lemma_web_settings_wire_shape(chars@, p, ds, g1, gaps, g2, lead, trail);
                        let lpos: int = (lead.len() + web_settings_head(p).len() + g1.len()) as int;
                        lemma_match_index(chars@, lpos, div_list_wire(p, "divs"@, ds, gaps), 0);
                        lemma_match_index(chars@, lpos, div_list_wire(p, "divs"@, ds, gaps), 1);
                        assert(w == lpos) by {
                            if w > lpos {
                                assert(is_ws_char(chars@[lpos as int]));
                            }
                            if w < lpos {
                                assert(is_ws_char(chars@[w as int])) by {
                                    assert(chars@[end + (w - end)] == g1[w - end]);
                                }
                                assert(!is_ws_char(chars@[w as int]));
                            }
                        }
                    }
                }
            }
            let w2 = skip_ws(&chars, pos);
            let cr = parse_close_tag(&chars, w2, "webSettings");
            let ghost cr_g = cr;
            proof {
                assert forall|
                    ds: Seq<Div>,
                    p: Seq<char>,
                    g1: Seq<char>,
                    gaps: Seq<Seq<char>>,
                    g2: Seq<char>,
                    lead: Seq<char>,
                    trail: Seq<char>,
                |
                    divs_wire_safe(ds) && wf_ns_prefix(p) && ws_only(g1) && ws_gaps(gaps)
                        && gaps.len() == ds.len() + 1 && ws_only(g2) && ws_only(lead) && ws_only(
                        trail,
                    ) && bytes@ == encode_utf8(
                        #[trigger] padded(lead, web_settings_wire(p, ds, g1, gaps, g2), trail),
                    ) implies (cr_g matches Ok(p2) && p2 == chars@.len() - trail.len()) by {
                    assert(tr_g matches Ok(t0) && t0.0 == tag && t0.1 == end);
                    lemma_web_settings_wire_shape(chars@, p, ds, g1, gaps, g2, lead, trail);
                    lemma_prefixed_name(p, "webSettings"@);
                    let cpos: int = (lead.len() + web_settings_head(p).len() + g1.len()
                        + div_list_wire(p, "divs"@, ds, gaps).len() + g2.len()) as int;
                    lemma_match_index(chars@, cpos, close_tag_chars(p + "webSettings"@), 0);
                    assert(w2 == cpos) by {
                        if w2 > cpos {
                            assert(is_ws_char(chars@[cpos as int]));
                        }
                        if w2 < cpos {
                            assert(is_ws_char(chars@[w2 as int])) by {
                                assert(chars@[pos + (w2 - pos)] == g2[w2 - pos]);
                            }
                            assert(!is_ws_char(chars@[w2 as int]));
                        }
                    }
                    assert(match_at(chars@, w2 as int, close_tag_chars(p + "webSettings"@)));
                }
                assert forall|p: Seq<char>, g1: Seq<char>, lead: Seq<char>, trail: Seq<char>|
                    wf_ns_prefix(p) && ws_only(g1) && ws_only(lead) && ws_only(trail) && bytes@
                        == encode_utf8(
                        #[trigger] padded(lead, web_settings_bare_wire(p, g1), trail),
                    ) implies (cr_g matches Ok(p2) && p2 == chars@.len() - trail.len() && divs@
                    == Seq::<Div>::empty()) by {
                    assert(tr_g matches Ok(t0) && t0.0 == tag && t0.1 == end);
                    lemma_web_settings_bare_shape(chars@, p, g1, lead, trail);
                    lemma_prefixed_name(p, "webSettings"@);
                    let cpos: int = (lead.len() + web_settings_head(p).len() + g1.len()) as int;
                    assert(w2 == cpos) by {
                        if w2 > cpos {
                            assert(is_ws_char(chars@[cpos as int])) by {
                                lemma_match_index(
                                    chars@,
                                    cpos,
                                    close_tag_chars(p + "webSettings"@),
                                    0,
                                );
                            }
                        }
                        if w2 < cpos {
                            assert(is_ws_char(chars@[w2 as int])) by {
                                assert(chars@[end + (w2 - end)] == g1[w2 - end]);
                            }
                            assert(!is_ws_char(chars@[w2 as int]));
                        }
                    }
                    assert(match_at(chars@, w2 as int, close_tag_chars(p + "webSettings"@)));
                }
            }
            pos = match cr {
                Ok(q) => q,
                Err(e) => {
                    return Err(e);
                },
            };
            proof {
                assert forall|
                    ds: Seq<Div>,
                    p: Seq<char>,
                    g1: Seq<char>,
                    gaps: Seq<Seq<char>>,
                    g2: Seq<char>,
                    lead: Seq<char>,
                    trail: Seq<char>,
                |
                    divs_wire_safe(ds) && wf_ns_prefix(p) && ws_only(g1) && ws_gaps(gaps)
                        && gaps.len() == ds.len() + 1 && ws_only(g2) && ws_only(lead) && ws_only(
                        trail,
                    ) && bytes@ == encode_utf8(
                        #[trigger] padded(lead, web_settings_wire(p, ds, g1, gaps, g2), trail),
                    ) implies pos == chars@.len() - trail.len() && divs@.len() == ds.len() && (
                forall|i: int| 0 <= i < ds.len() ==> div_flat_eq(#[trigger] divs@[i], ds[i])) by {
                    assert(cr_g matches Ok(p2) && p2 == pos);
                }
                assert forall|p: Seq<char>, g1: Seq<char>, lead: Seq<char>, trail: Seq<char>|
                    wf_ns_prefix(p) && ws_only(g1) && ws_only(lead) && ws_only(trail) && bytes@
                        == encode_utf8(
                        #[trigger] padded(lead, web_settings_bare_wire(p, g1), trail),
                    ) implies pos == chars@.len() - trail.len() && divs@ == Seq::<
                Div,
                >::empty() by {
                    assert(cr_g matches Ok(p2) && p2 == pos);
                }
            }
        }
        let t = skip_ws(&chars, pos);
        if t < chars.len() {
            proof {
                assert forall|
                    ds: Seq<Div>,
                    p: Seq<char>,
                    g1: Seq<char>,
                    gaps: Seq<Seq<char>>,
                    g2: Seq<char>,
                    lead: Seq<char>,
                    trail: Seq<char>,
                |
                    divs_wire_safe(ds) && wf_ns_prefix(p) && ws_only(g1) && ws_gaps(gaps)
                        && gaps.len() == ds.len() + 1 && ws_only(g2) && ws_only(lead) && ws_only(
                        trail,
                    ) && bytes@ == encode_utf8(
                        #[trigger] padded(lead, web_settings_wire(p, ds, g1, gaps, g2), trail),
                    ) implies false by {
                    assert(tr_g matches Ok(t0) && t0.0 == tag);
                    assert(is_ws_char(chars@[t as int])) by {
                        assert(chars@[pos + (t - pos)] == trail[t - pos]);
                    }
                }
                assert forall|p: Seq<char>, g1: Seq<char>, lead: Seq<char>, trail: Seq<char>|
                    wf_ns_prefix(p) && ws_only(g1) && ws_only(lead) && ws_only(trail) && bytes@
                        == encode_utf8(
                        #[trigger] padded(lead, web_settings_bare_wire(p, g1), trail),
                    ) implies false by {
                    assert(tr_g matches Ok(t0) && t0.0 == tag);
                    assert(is_ws_char(chars@[t as int])) by {
                        assert(chars@[pos + (t - pos)] == trail[t - pos]);
                    }
                }
                assert forall|p: Seq<char>, lead: Seq<char>, trail: Seq<char>|
                    wf_ns_prefix(p) && ws_only(lead) && ws_only(trail) && bytes@ == encode_utf8(
                        #[trigger] padded(lead, web_settings_empty_wire(p), trail),
                    ) implies false by {
                    assert(tr_g matches Ok(t0) && t0.0 == tag && t0.1 == end);
                    assert(is_ws_char(chars@[t as int])) by {
                        assert(chars@[pos + (t - pos)] == trail[t - pos]);
                    }
                }
            }
            return Err(ReaderError::Malformed(String::from_str("trailing content")));
        }
        let ghost parsed = divs@;
        let resolved = resolve_duplicates(divs);
        let ws = WebSettings { divs: resolved };
        proof {
            assert(resolves(parsed, ws.divs@));
            assert(keys_sorted(ws.divs@));
            assert(some_resolution(ws.divs@));
            assert forall|
                ds: Seq<Div>,
                p: Seq<char>,
                g1: Seq<char>,
                gaps: Seq<Seq<char>>,
                g2: Seq<char>,
                lead: Seq<char>,
                trail: Seq<char>,
            |
                divs_wire_safe(ds) && wf_ns_prefix(p) && ws_only(g1) && ws_gaps(gaps) && gaps.len()
                    == ds.len() + 1 && ws_only(g2) && ws_only(lead) && ws_only(trail) && bytes@
                    == encode_utf8(
                    #[trigger] padded(lead, web_settings_wire(p, ds, g1, gaps, g2), trail),
                ) implies resolution_of_containers(ds, ws.divs@) by {
                assert(tr_g matches Ok(t0) && t0.0 == tag);
                assert(parsed.len() == ds.len() && (forall|i: int|
                    0 <= i < ds.len() ==> div_flat_eq(#[trigger] parsed[i], ds[i])) && resolves(
                    parsed,
                    ws.divs@,
                ));
            }
            assert forall|p: Seq<char>, g1: Seq<char>, lead: Seq<char>, trail: Seq<char>|
                wf_ns_prefix(p) && ws_only(g1) && ws_only(lead) && ws_only(trail) && bytes@
                    == encode_utf8(
                    #[trigger] padded(lead, web_settings_bare_wire(p, g1), trail),
                ) implies ws.divs@ == Seq::<Div>::empty() by {
                assert(tr_g matches Ok(t0) && t0.0 == tag);
                assert(parsed =~= Seq::<Div>::empty());
                lemma_resolves_empty(ws.divs@);
            }
            assert forall|p: Seq<char>, lead: Seq<char>, trail: Seq<char>|
                wf_ns_prefix(p) && ws_only(lead) && ws_only(trail) && bytes@ == encode_utf8(
                    #[trigger] padded(lead, web_settings_empty_wire(p), trail),
                ) implies ws.divs@ == Seq::<Div>::empty() by {
                assert(tr_g matches Ok(t0) && t0.0 == tag);
                assert(parsed =~= Seq::<Div>::empty());
                lemma_resolves_empty(ws.divs@);
            }
        }
        Ok(ws)
    }
}

} // verus!
