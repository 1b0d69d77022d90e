//! Decoding the comment-thread collection: a `commentsEx` root holding
//! repeated `commentEx` markers, then the duplicate-resolution pass.

use vstd::prelude::*;
use vstd::utf8::encode_utf8;

use crate::documents::comment_extended::comment_view;
use crate::documents::comment_extended::CommentExtended;
use crate::documents::comments_extended::CommentsExtended;
use crate::errors::ReaderError;
use crate::reader::comment_extended::comment_attr_list_p;
use crate::reader::comment_extended::comment_elem_p;
use crate::reader::comment_extended::comment_from_tag;
use crate::reader::comment_extended::comment_wire_safe;
use crate::reader::comment_extended::lemma_comment_elem_p;
use crate::reader::div::ws_gaps;
use crate::reader::from_xml::bytes_to_chars;
use crate::reader::from_xml::FromXML;
use crate::reader::scan::attr_views;
use crate::reader::scan::attrs_chars;
use crate::reader::scan::close_tag_chars;
use crate::reader::scan::close_text;
use crate::reader::scan::direct_elem_at;
use crate::reader::scan::lemma_match_index;
use crate::reader::scan::lemma_match_split;
use crate::reader::scan::lemma_prefixed_name;
use crate::reader::scan::match_at;
use crate::reader::scan::padded;
use crate::reader::scan::parse_close_tag;
use crate::reader::scan::parse_open_tag;
use crate::reader::scan::skip_ws;
use crate::reader::scan::wf_attr_name;
use crate::reader::scan::wf_ns_prefix;
use crate::reader::scan::ws_only;
use crate::resolve::keys_sorted;
use crate::resolve::resolve_duplicates;
use crate::resolve::resolves;
use crate::resolve::some_resolution;
use crate::strings::is_name_char;
use crate::strings::is_ws_char;
use crate::strings::str_eq;

verus! {

/// Every marker in the sequence is quote-safe.
pub open spec fn markers_wire_safe(ms: Seq<CommentExtended>) -> bool {
    forall|i: int| 0 <= i < ms.len() ==> comment_wire_safe(#[trigger] ms[i])
}

/// The gapped markup of a marker sequence: before each marker its
/// whitespace run, markers under the prefix `p`.
pub open spec fn markers_gapped(
    p: Seq<char>,
    ms: Seq<CommentExtended>,
    gaps: Seq<Seq<char>>,
) -> Seq<char>
    decreases ms.len(),
{
    if ms.len() == 0 {
        Seq::<char>::empty()
    } else {
        gaps[0] + comment_elem_p(p, ms[0]) + markers_gapped(p, ms.skip(1), gaps.skip(1))
    }
}

/// The head of the collection root under prefix `p`.
pub open spec fn comments_head(p: Seq<char>) -> Seq<char> {
    "<"@ + (p + "commentsEx"@) + attrs_chars(Seq::<(Seq<char>, Seq<char>)>::empty()) + close_text(
        false,
    )
}

/// The markup of a whole collection under prefix `p`: the `commentsEx`
/// root holding the markers with a whitespace run at each junction
/// (`gaps` has one run per marker plus one before the close tag).
pub open spec fn comments_wire(
    p: Seq<char>,
    ms: Seq<CommentExtended>,
    gaps: Seq<Seq<char>>,
) -> Seq<char> {
    comments_head(p) + markers_gapped(p, ms, gaps) + gaps[ms.len() as int] + close_tag_chars(
        p + "commentsEx"@,
    )
}

pub proof fn lemma_markers_gapped_cat(
    p: Seq<char>,
    x: Seq<CommentExtended>,
    gx: Seq<Seq<char>>,
    y: Seq<CommentExtended>,
    gy: Seq<Seq<char>>,
)
    requires
        x.len() == gx.len(),
    ensures
        markers_gapped(p, x + y, gx + gy) == markers_gapped(p, x, gx) + markers_gapped(p, y, gy),
    decreases x.len(),
{
    if x.len() == 0 {
        assert(x + y =~= y);
        assert(gx + gy =~= gy);
        assert(markers_gapped(p, x, gx) + markers_gapped(p, y, gy) =~= markers_gapped(p, y, gy));
    } else {
        assert((x + y)[0] == x[0]);
        assert((gx + gy)[0] == gx[0]);
        assert((x + y).skip(1) =~= x.skip(1) + y);
        assert((gx + gy).skip(1) =~= gx.skip(1) + gy);
        lemma_markers_gapped_cat(p, x.skip(1), gx.skip(1), y, gy);
        assert(gx[0] + comment_elem_p(p, x[0]) + (markers_gapped(p, x.skip(1), gx.skip(1))
            + markers_gapped(p, y, gy)) =~= (gx[0] + comment_elem_p(p, x[0]) + markers_gapped(
            p,
            x.skip(1),
            gx.skip(1),
        )) + markers_gapped(p, y, gy));
    }
}

pub proof fn lemma_markers_gapped_snoc(
    p: Seq<char>,
    ms: Seq<CommentExtended>,
    gaps: Seq<Seq<char>>,
    k: int,
)
    requires
        0 <= k < ms.len(),
        ms.len() <= gaps.len(),
    ensures
        markers_gapped(p, ms.take(k + 1), gaps.take(k + 1)) == markers_gapped(
            p,
            ms.take(k),
            gaps.take(k),
        ) + (gaps[k] + comment_elem_p(p, ms[k])),
{
    assert(ms.take(k + 1) =~= ms.take(k) + seq![ms[k]]);
    assert(gaps.take(k + 1) =~= gaps.take(k) + seq![gaps[k]]);
    lemma_markers_gapped_cat(p, ms.take(k), gaps.take(k), seq![ms[k]], seq![gaps[k]]);
    assert(markers_gapped(p, seq![ms[k]], seq![gaps[k]]) =~= gaps[k] + comment_elem_p(
        p,
        ms[k],
    )) by {
        assert(seq![ms[k]][0] == ms[k]);
        assert(seq![gaps[k]][0] == gaps[k]);
        assert(seq![ms[k]].skip(1) =~= Seq::<CommentExtended>::empty());
        assert(seq![gaps[k]].skip(1) =~= Seq::<Seq<char>>::empty());
        assert(markers_gapped(p, seq![ms[k]].skip(1), seq![gaps[k]].skip(1)) == Seq::<
            char,
        >::empty());
        assert(gaps[k] + comment_elem_p(p, ms[k]) + Seq::<char>::empty() =~= gaps[k]
            + comment_elem_p(p, ms[k]));
    }
}

/// The root tag name is a canonical name.
pub proof fn lemma_comments_root_name()
    ensures
        wf_attr_name("commentsEx"@),
{
    reveal_strlit("commentsEx");
    assert forall|i: int| 0 <= i < "commentsEx"@.len() implies is_name_char(
        #[trigger] "commentsEx"@[i],
    ) && "commentsEx"@[i] != ':' by {
        assert("commentsEx"@.len() == 10);
    }
}

/// What the children loop guarantees on canonical input: if the text at
/// `pos` continues as the gapped markers of `ms` followed by the final gap
/// and the collection's close tag, the parse succeeds and returns markers
/// with the same observable content, consuming exactly that text.
pub open spec fn children_complete(
    s: Seq<char>,
    pos: int,
    r: Result<(Vec<CommentExtended>, usize), ReaderError>,
) -> bool {
    forall|ms: Seq<CommentExtended>, p: Seq<char>, gaps: Seq<Seq<char>>|
        markers_wire_safe(ms) && wf_ns_prefix(p) && ws_gaps(gaps) && gaps.len() == ms.len() + 1
            && #[trigger] match_at(
            s,
            pos,
            markers_gapped(p, ms, gaps) + gaps[ms.len() as int] + close_tag_chars(
                p + "commentsEx"@,
            ),
        ) ==> (r matches Ok(t) && t.0@.len() == ms.len() && (forall|i: int|
            0 <= i < ms.len() ==> comment_view(#[trigger] t.0@[i]) == comment_view(ms[i])) && t.1
            == pos + (markers_gapped(p, ms, gaps) + gaps[ms.len() as int] + close_tag_chars(
            p + "commentsEx"@,
        )).len())
}

/// Facts about the gapped children text seen from the position that
/// follows the first `k` markers.
#[verifier::rlimit(100)]
proof fn lemma_children_at(
    s: Seq<char>,
    pos: int,
    cur: int,
    k: int,
    p: Seq<char>,
    ms: Seq<CommentExtended>,
    gaps: Seq<Seq<char>>,
)
    requires
        markers_wire_safe(ms),
        wf_ns_prefix(p),
        ws_gaps(gaps),
        gaps.len() == ms.len() + 1,
        match_at(
            s,
            pos,
            markers_gapped(p, ms, gaps) + gaps[ms.len() as int] + close_tag_chars(
                p + "commentsEx"@,
            ),
        ),
        0 <= k <= ms.len(),
        cur == pos + markers_gapped(p, ms.take(k), gaps.take(k)).len(),
    ensures
        k < ms.len() ==> match_at(s, cur + gaps[k].len(), comment_elem_p(p, ms[k])) && (forall|
            m: int,
        |
            cur <= m < cur + gaps[k].len() ==> is_ws_char(#[trigger] s[m])) && cur + gaps[k].len()
            + 2 <= s.len() && s[cur + gaps[k].len() as int] == '<' && s[cur + gaps[k].len() as int
            + 1] != '/' && cur + gaps[k].len() + comment_elem_p(p, ms[k]).len() == pos
            + markers_gapped(p, ms.take(k + 1), gaps.take(k + 1)).len(),
        k == ms.len() ==> match_at(s, cur + gaps[k].len(), close_tag_chars(p + "commentsEx"@)) && (
        forall|m: int| cur <= m < cur + gaps[k].len() ==> is_ws_char(#[trigger] s[m])) && cur
            + gaps[k].len() + 2 <= s.len() && s[cur + gaps[k].len() as int] == '<' && s[cur
            + gaps[k].len() as int + 1] == '/' && cur + gaps[k].len() + close_tag_chars(
            p + "commentsEx"@,
        ).len() == pos + (markers_gapped(p, ms, gaps) + gaps[ms.len() as int] + close_tag_chars(
            p + "commentsEx"@,
        )).len(),
{
    reveal_strlit("<");
    reveal_strlit("</");
    reveal_strlit("commentEx");
    assert("<"@.len() == 1);
    assert("</"@.len() == 2);
    assert("commentEx"@.len() == 9);
    let close = close_tag_chars(p + "commentsEx"@);
    let fin = gaps[ms.len() as int];
    assert(ms.take(k) + ms.skip(k) =~= ms);
    assert(gaps.take(k) + gaps.skip(k) =~= gaps);
    lemma_markers_gapped_cat(p, ms.take(k), gaps.take(k), ms.skip(k), gaps.skip(k));
    assert(markers_gapped(p, ms, gaps) + fin + close =~= markers_gapped(p, ms.take(k), gaps.take(
        k,
    )) + (markers_gapped(p, ms.skip(k), gaps.skip(k)) + fin + close));
    lemma_match_split(
        s,
        pos,
        markers_gapped(p, ms.take(k), gaps.take(k)),
        markers_gapped(p, ms.skip(k), gaps.skip(k)) + fin + close,
    );
    let rest = markers_gapped(p, ms.skip(k), gaps.skip(k)) + fin + close;
    assert(match_at(s, cur, rest));
    if k < ms.len() {
        assert(ms.skip(k)[0] == ms[k]);
        assert(gaps.skip(k)[0] == gaps[k]);
        assert(ms.skip(k).skip(1) =~= ms.skip(k + 1));
        assert(gaps.skip(k).skip(1) =~= gaps.skip(k + 1));
        assert(markers_gapped(p, ms.skip(k), gaps.skip(k)) == gaps[k] + comment_elem_p(p, ms[k])
            + markers_gapped(p, ms.skip(k + 1), gaps.skip(k + 1)));
        let elem = comment_elem_p(p, ms[k]);
        assert(rest =~= gaps[k] + (elem + (markers_gapped(p, ms.skip(k + 1), gaps.skip(k + 1))
            + fin + close)));
        lemma_match_split(
            s,
            cur,
            gaps[k],
            elem + (markers_gapped(p, ms.skip(k + 1), gaps.skip(k + 1)) + fin + close),
        );
        lemma_match_split(
            s,
            cur + gaps[k].len(),
            elem,
            markers_gapped(p, ms.skip(k + 1), gaps.skip(k + 1)) + fin + close,
        );
        assert forall|m: int| cur <= m < cur + gaps[k].len() implies is_ws_char(
            #[trigger] s[m],
        ) by {
            lemma_match_index(s, cur, gaps[k], m - cur);
            assert(is_ws_char(gaps[k][m - cur]));
        }
        lemma_match_index(s, cur + gaps[k].len(), elem, 0);
        lemma_match_index(s, cur + gaps[k].len(), elem, 1);
        assert(elem[0] == '<');
        assert(elem[1] == (p + "commentEx"@)[0]);
        if p.len() == 0 {
            assert((p + "commentEx"@)[0] == "commentEx"@[0]);
        } else {
            assert((p + "commentEx"@)[0] == p[0]);
            assert(is_name_char(p[0]));
        }
        lemma_markers_gapped_snoc(p, ms, gaps, k);
    } else {
        assert(ms.skip(k) =~= Seq::<CommentExtended>::empty());
        assert(markers_gapped(p, ms.skip(k), gaps.skip(k)) == Seq::<char>::empty());
        assert(rest =~= gaps[k] + (close + Seq::<char>::empty()));
        assert(gaps[k] + (close + Seq::<char>::empty()) =~= gaps[k] + close);
        assert(match_at(s, cur, gaps[k] + close));
        lemma_match_split(s, cur, gaps[k], close);
        assert forall|m: int| cur <= m < cur + gaps[k].len() implies is_ws_char(
            #[trigger] s[m],
        ) by {
            lemma_match_index(s, cur, gaps[k], m - cur);
            assert(is_ws_char(gaps[k][m - cur]));
        }
        assert(ms.take(k) =~= ms);
        lemma_match_index(s, cur + gaps[k].len(), close, 0);
        lemma_match_index(s, cur + gaps[k].len(), close, 1);
        assert(close[0] == '<');
        assert(close[1] == '/');
    }
}

/// Parses the children of an open `commentsEx` element up to and including
/// its close tag.
#[verifier::rlimit(100)]
fn parse_comment_children(s: &Vec<char>, pos: usize) -> (r: Result<(Vec<CommentExtended>, usize),
    ReaderError>)
    requires
        pos <= s@.len(),
    ensures
        r matches Ok(t) ==> pos <= t.1 <= s@.len(),
        children_complete(s@, pos as int, r),
{
    proof {
        lemma_comments_root_name();
    }
    let mut children: Vec<CommentExtended> = Vec::new();
    let mut cur = pos;
    proof {
        assert forall|ms: Seq<CommentExtended>, p: Seq<char>, gaps: Seq<Seq<char>>|
            markers_wire_safe(ms) && wf_ns_prefix(p) && ws_gaps(gaps) && gaps.len() == ms.len() + 1
                && #[trigger] match_at(
                s@,
                pos as int,
                markers_gapped(p, ms, gaps) + gaps[ms.len() as int] + close_tag_chars(
                    p + "commentsEx"@,
                ),
            ) implies children@.len() <= ms.len() && (forall|i: int|
            0 <= i < children@.len() ==> comment_view(#[trigger] children@[i]) == comment_view(
                ms[i],
            )) && cur == pos + markers_gapped(p, ms.take(children@.len() as int), gaps.take(
            children@.len() as int,
        )).len() by {
            assert(ms.take(0) =~= Seq::<CommentExtended>::empty());
            assert(gaps.take(0) =~= Seq::<Seq<char>>::empty());
            assert(markers_gapped(p, ms.take(0), gaps.take(0)) == Seq::<char>::empty());
        }
    }
    loop
        invariant
            pos <= cur <= s@.len(),
            wf_attr_name("commentsEx"@),
            forall|ms: Seq<CommentExtended>, p: Seq<char>, gaps: Seq<Seq<char>>|
                markers_wire_safe(ms) && wf_ns_prefix(p) && ws_gaps(gaps) && gaps.len() == ms.len()
                    + 1 && #[trigger] match_at(
                    s@,
                    pos as int,
                    markers_gapped(p, ms, gaps) + gaps[ms.len() as int] + close_tag_chars(
                        p + "commentsEx"@,
                    ),
                ) ==> children@.len() <= ms.len() && (forall|i: int|
                    0 <= i < children@.len() ==> comment_view(#[trigger] children@[i])
                        == comment_view(ms[i])) && cur == pos + markers_gapped(
                    p,
                    ms.take(children@.len() as int),
                    gaps.take(children@.len() as int),
                ).len(),
        decreases s@.len() - cur,
    {
        let ghost k = children@.len() as int;
        let w = skip_ws(s, cur);
        if w < s.len() && w + 1 < s.len() && s[w] == '<' && s[w + 1] != '/' {
            let tr = parse_open_tag(s, w);
            let ghost tr_g = tr;
            proof {
                assert forall|ms: Seq<CommentExtended>, p: Seq<char>, gaps: Seq<Seq<char>>|
                    markers_wire_safe(ms) && wf_ns_prefix(p) && ws_gaps(gaps) && gaps.len()
                        == ms.len() + 1 && #[trigger] match_at(
                        s@,
                        pos as int,
                        markers_gapped(p, ms, gaps) + gaps[ms.len() as int] + close_tag_chars(
                            p + "commentsEx"@,
                        ),
                    ) implies k < ms.len() && (tr_g matches Ok(t) && t.0.name@ == "commentEx"@
                    && attr_views(t.0.attrs@) == comment_attr_list_p(p, ms[k]) && t.0.self_closing
                        == true && t.1 == pos + markers_gapped(p, ms.take(k + 1), gaps.take(
                        k + 1,
                    )).len()) by {
                    lemma_children_at(s@, pos as int, cur as int, k, p, ms, gaps);
                    if k == ms.len() {
                        assert(w == cur + gaps[k].len()) by {
                            if w > cur + gaps[k].len() {
                                assert(is_ws_char(s@[cur + gaps[k].len() as int]));
                            }
                            if w < cur + gaps[k].len() {
                                assert(is_ws_char(s@[w as int]));
                            }
                        }
                        assert(s@[w + 1] == '/');
                        assert(false);
                    }
                    assert(w == cur + gaps[k].len()) by {
                        if w > cur + gaps[k].len() {
                            assert(is_ws_char(s@[cur + gaps[k].len() as int]));
                        }
                        if w < cur + gaps[k].len() {
                            assert(is_ws_char(s@[w as int]));
                        }
                    }
                    lemma_comment_elem_p(p, ms[k]);
                    assert(match_at(
                        s@,
                        w as int,
                        "<"@ + (p + "commentEx"@) + attrs_chars(comment_attr_list_p(p, ms[k]))
                            + close_text(true),
                    ));
                }
            }
            let (tag, end) = match tr {
                Ok(t) => t,
                Err(e) => {
                    return Err(e);
                },
            };
            let cr = comment_from_tag(&tag);
            proof {
                assert forall|ms: Seq<CommentExtended>, p: Seq<char>, gaps: Seq<Seq<char>>|
                    markers_wire_safe(ms) && wf_ns_prefix(p) && ws_gaps(gaps) && gaps.len()
                        == ms.len() + 1 && #[trigger] match_at(
                        s@,
                        pos as int,
                        markers_gapped(p, ms, gaps) + gaps[ms.len() as int] + close_tag_chars(
                            p + "commentsEx"@,
                        ),
                    ) implies (cr matches Ok(c) && comment_view(c) == comment_view(ms[k])) by {
                    assert(tr_g matches Ok(t) && t.0 == tag);
                    lemma_comment_elem_p(p, ms[k]);
                    let c = cr->Ok_0;
                    reveal_strlit("true");
                    reveal_strlit("false");
                    reveal_strlit("1");
                    reveal_strlit("0");
                    assert("true"@.len() == 4 && "false"@.len() == 5 && "1"@.len() == 1
                        && "0"@.len() == 1);
                    assert("1"@[0] != "0"@[0]);
                    assert(c.paragraph_id@ == ms[k].paragraph_id@);
                    assert(c.done == ms[k].done);
                    assert(c.parent_paragraph_id.deep_view()
                        == ms[k].parent_paragraph_id.deep_view());
                }
            }
            let c = match cr {
                Ok(c) => c,
                Err(e) => {
                    return Err(e);
                },
            };
            let mut after = end;
            if !tag.self_closing {
                proof {
                    assert forall|ms: Seq<CommentExtended>, p: Seq<char>, gaps: Seq<Seq<char>>|
                        markers_wire_safe(ms) && wf_ns_prefix(p) && ws_gaps(gaps) && gaps.len()
                            == ms.len() + 1 && #[trigger] match_at(
                            s@,
                            pos as int,
                            markers_gapped(p, ms, gaps) + gaps[ms.len() as int]
                                + close_tag_chars(p + "commentsEx"@),
                        ) implies false by {
                        assert(tr_g matches Ok(t) && t.0 == tag);
                    }
                }
                after = match parse_close_tag(s, end, "commentEx") {
                    Ok(q) => q,
                    Err(e) => {
                        return Err(e);
                    },
                };
            }
            let ghost children_pre = children@;
            children.push(c);
            proof {
                assert forall|ms: Seq<CommentExtended>, p: Seq<char>, gaps: Seq<Seq<char>>|
                    markers_wire_safe(ms) && wf_ns_prefix(p) && ws_gaps(gaps) && gaps.len()
                        == ms.len() + 1 && #[trigger] match_at(
                        s@,
                        pos as int,
                        markers_gapped(p, ms, gaps) + gaps[ms.len() as int] + close_tag_chars(
                            p + "commentsEx"@,
                        ),
                    ) implies children@.len() <= ms.len() && (forall|i: int|
                    0 <= i < children@.len() ==> comment_view(#[trigger] children@[i])
                        == comment_view(ms[i])) && after == pos + markers_gapped(
                    p,
                    ms.take(children@.len() as int),
                    gaps.take(children@.len() as int),
                ).len() by {
                    assert(tr_g matches Ok(t) && t.0 == tag && t.1 == after);
                    assert(children@ == children_pre.push(c));
                    assert forall|i: int|
                        0 <= i < children@.len() implies comment_view(#[trigger] children@[i])
                        == comment_view(ms[i]) by {
                        if i < k {
                            assert(children@[i] == children_pre[i]);
                        } else {
                            assert(children@[i] == c);
                        }
                    }
                }
            }
            cur = after;
        } else {
            let pr = parse_close_tag(s, w, "commentsEx");
            proof {
                assert forall|ms: Seq<CommentExtended>, p: Seq<char>, gaps: Seq<Seq<char>>|
                    markers_wire_safe(ms) && wf_ns_prefix(p) && ws_gaps(gaps) && gaps.len()
                        == ms.len() + 1 && #[trigger] match_at(
                        s@,
                        pos as int,
                        markers_gapped(p, ms, gaps) + gaps[ms.len() as int] + close_tag_chars(
                            p + "commentsEx"@,
                        ),
                    ) implies k == ms.len() && children@.len() == ms.len() && (forall|i: int|
                    0 <= i < ms.len() ==> comment_view(#[trigger] children@[i]) == comment_view(
                        ms[i],
                    )) && (pr matches Ok(q) && q == pos + (markers_gapped(p, ms, gaps)
                    + gaps[ms.len() as int] + close_tag_chars(p + "commentsEx"@)).len()) by {
                    lemma_children_at(s@, pos as int, cur as int, k, p, ms, gaps);
                    lemma_prefixed_name(p, "commentsEx"@);
                    if k < ms.len() {
                        assert(w == cur + gaps[k].len()) by {
                            if w > cur + gaps[k].len() {
                                assert(is_ws_char(s@[cur + gaps[k].len() as int]));
                            }
                            if w < cur + gaps[k].len() {
                                assert(is_ws_char(s@[w as int]));
                            }
                        }
                        assert(s@[w + 1] != '/');
                        assert(false);
                    }
                    assert(w == cur + gaps[k].len()) by {
                        if w > cur + gaps[k].len() {
                            assert(is_ws_char(s@[cur + gaps[k].len() as int]));
                        }
                        if w < cur + gaps[k].len() {
                            assert(is_ws_char(s@[w as int]));
                        }
                    }
                    assert(match_at(s@, w as int, close_tag_chars(p + "commentsEx"@)));
                    assert(ms.take(k) =~= ms);
                }
            }
            match pr {
                Ok(q) => {
                    return Ok((children, q));
                },
                Err(e) => {
                    return Err(e);
                },
            }
        }
    }
}

/// The decoded marker list is the resolution of a sequence carrying
/// exactly the observable content of `ms`.
pub open spec fn resolution_of_markers(
    ms: Seq<CommentExtended>,
    children: Seq<CommentExtended>,
) -> bool {
    exists|parsed: Seq<CommentExtended>|
        #![trigger resolves(parsed, children)]
        parsed.len() == ms.len() && (forall|i: int|
            0 <= i < ms.len() ==> comment_view(#[trigger] parsed[i]) == comment_view(ms[i]))
            && resolves(parsed, children)
}

/// Marker sequences of equal observable content carry the same keys, so a
/// resolution of one has one entry per distinct paragraph identifier of
/// the other.
pub proof fn lemma_marker_views_same_keys(a: Seq<CommentExtended>, b: Seq<CommentExtended>)
    requires
        a.len() == b.len(),
        forall|i: int| 0 <= i < a.len() ==> comment_view(#[trigger] a[i]) == comment_view(b[i]),
    ensures
        crate::resolve::key_seq(a) == crate::resolve::key_seq(b),
        crate::resolve::distinct_key_count(a) == crate::resolve::distinct_key_count(b),
{
    assert(crate::resolve::key_seq(a) =~= crate::resolve::key_seq(b)) by {
        assert forall|i: int|
            0 <= i < a.len() implies crate::resolve::key_seq(a)[i] == crate::resolve::key_seq(
            b,
        )[i] by {
            assert(comment_view(a[i]).0 == comment_view(b[i]).0);
        }
    }
}

/// Where the pieces of the collection markup stand.
#[verifier::rlimit(100)]
proof fn lemma_comments_wire_shape(
    chars: Seq<char>,
    p: Seq<char>,
    ms: Seq<CommentExtended>,
    gaps: Seq<Seq<char>>,
    lead: Seq<char>,
    trail: Seq<char>,
)
    requires
        wf_ns_prefix(p),
        ws_only(lead),
        chars == padded(lead, comments_wire(p, ms, gaps), trail),
    ensures
        wf_attr_name("commentsEx"@),
        match_at(
            chars,
            lead.len() as int,
            "<"@ + (p + "commentsEx"@) + attrs_chars(Seq::<(Seq<char>, Seq<char>)>::empty())
                + close_text(false),
        ),
        match_at(
            chars,
            (lead.len() + comments_head(p).len()) as int,
            markers_gapped(p, ms, gaps) + gaps[ms.len() as int] + close_tag_chars(
                p + "commentsEx"@,
            ),
        ),
        lead.len() + comments_head(p).len() + (markers_gapped(p, ms, gaps)
            + gaps[ms.len() as int] + close_tag_chars(p + "commentsEx"@)).len() + trail.len()
            == chars.len(),
        direct_elem_at(chars, 0, lead.len() as int),
{
    lemma_comments_root_name();
    reveal_strlit("<");
    reveal_strlit(">");
    reveal_strlit("commentsEx");
    assert("<"@.len() == 1);
    assert(">"@.len() == 1);
    let hd = comments_head(p);
    let body = markers_gapped(p, ms, gaps) + gaps[ms.len() as int] + close_tag_chars(
        p + "commentsEx"@,
    );
    assert(chars =~= lead + (hd + (body + trail)));
    assert(chars.subrange(0, chars.len() as int) =~= chars);
    lemma_match_split(chars, 0, lead, hd + (body + trail));
    lemma_match_split(chars, lead.len() as int, hd, body + trail);
    lemma_match_split(chars, (lead.len() + hd.len()) as int, body, trail);
    lemma_prefixed_name(p, "commentsEx"@);
    lemma_match_index(chars, lead.len() as int, hd, 0);
    lemma_match_index(chars, lead.len() as int, hd, 1);
    assert(hd[0] == '<');
    assert(hd[1] == (p + "commentsEx"@)[0]);
    if p.len() == 0 {
        assert((p + "commentsEx"@)[0] == "commentsEx"@[0]);
    } else {
        assert((p + "commentsEx"@)[0] == p[0]);
    }
    assert(direct_elem_at(chars, 0, lead.len() as int));
}

impl FromXML for CommentsExtended {
    /// A decoded collection has been through the duplicate-resolution
    /// pass: its markers are the latest occurrence per paragraph
    /// identifier, in strictly ascending identifier order.  And the decode
    /// inverts the write path: on the markup of any quote-safe marker
    /// sequence — under any namespace prefix, whitespace at every junction
    /// and around the document — it succeeds, with children that are the
    /// resolution of a sequence carrying exactly those markers' content.
    open spec fn from_xml_spec(bytes: Seq<u8>, r: Result<CommentsExtended, ReaderError>) -> bool {
        &&& (r matches Ok(col) ==> keys_sorted(col.children@) && some_resolution(col.children@))
        &&& forall|
            ms: Seq<CommentExtended>,
            p: Seq<char>,
            gaps: Seq<Seq<char>>,
            lead: Seq<char>,
            trail: Seq<char>,
        |
            markers_wire_safe(ms) && wf_ns_prefix(p) && ws_gaps(gaps) && gaps.len() == ms.len() + 1
                && ws_only(lead) && ws_only(trail) && bytes == encode_utf8(
                #[trigger] padded(lead, comments_wire(p, ms, gaps), trail),
            ) ==> (r matches Ok(col) && resolution_of_markers(ms, col.children@))
    }

    #[verifier::rlimit(100)]
    fn from_xml(bytes: &[u8]) -> (r: Result<CommentsExtended, ReaderError>) {
        let br = bytes_to_chars(bytes);
        let chars = match br {
            Ok(c) => c,
            Err(e) => {
                proof {
                    assert forall|
                        ms: Seq<CommentExtended>,
                        p: Seq<char>,
                        gaps: Seq<Seq<char>>,
                        lead: Seq<char>,
                        trail: Seq<char>,
                    |
                        markers_wire_safe(ms) && wf_ns_prefix(p) && ws_gaps(gaps) && gaps.len()
                            == ms.len() + 1 && ws_only(lead) && ws_only(trail) && bytes@
                            == encode_utf8(
                            #[trigger] padded(lead, comments_wire(p, ms, gaps), trail),
                        ) implies false by {
                        vstd::utf8::encode_utf8_valid_utf8(
                            padded(lead, comments_wire(p, ms, gaps), trail),
                        );
                    }
                }
                return Err(e);
            },
        };
        proof {
            assert forall|
                ms: Seq<CommentExtended>,
                p: Seq<char>,
                gaps: Seq<Seq<char>>,
                lead: Seq<char>,
                trail: Seq<char>,
            |
                markers_wire_safe(ms) && wf_ns_prefix(p) && ws_gaps(gaps) && gaps.len() == ms.len()
                    + 1 && ws_only(lead) && ws_only(trail) && bytes@ == encode_utf8(
                    #[trigger] padded(lead, comments_wire(p, ms, gaps), trail),
                ) implies chars@ == padded(lead, comments_wire(p, ms, gaps), trail) by {
                vstd::utf8::encode_utf8_decode_utf8(chars@);
                vstd::utf8::encode_utf8_decode_utf8(padded(lead, comments_wire(p, ms, gaps), trail));
            }
        }
        let start = crate::reader::scan::skip_misc(&chars, 0);
        let tr = parse_open_tag(&chars, start);
        let ghost tr_g = tr;
        proof {
            assert forall|
                ms: Seq<CommentExtended>,
                p: Seq<char>,
                gaps: Seq<Seq<char>>,
                lead: Seq<char>,
                trail: Seq<char>,
            |
                markers_wire_safe(ms) && wf_ns_prefix(p) && ws_gaps(gaps) && gaps.len() == ms.len()
                    + 1 && ws_only(lead) && ws_only(trail) && bytes@ == encode_utf8(
                    #[trigger] padded(lead, comments_wire(p, ms, gaps), trail),
                ) implies (tr_g matches Ok(t) && t.0.name@ == "commentsEx"@ && t.0.self_closing
                == false && t.1 == lead.len() + comments_head(p).len() && start == lead.len()
                && match_at(
                chars@,
                t.1 as int,
                markers_gapped(p, ms, gaps) + gaps[ms.len() as int] + close_tag_chars(
                    p + "commentsEx"@,
                ),
            )) by {
                lemma_comments_wire_shape(chars@, p, ms, gaps, lead, trail);
                lemma_prefixed_name(p, "commentsEx"@);
                crate::reader::scan::lemma_wf_attrs_raw(Seq::<(Seq<char>, Seq<char>)>::empty());
                assert(start == lead.len());
            }
        }
        let (tag, end) = match tr {
            Ok(t) => t,
            Err(e) => {
                return Err(e);
            },
        };
        if !str_eq(tag.name.as_str(), "commentsEx") {
            proof {
                assert forall|
                    ms: Seq<CommentExtended>,
                    p: Seq<char>,
                    gaps: Seq<Seq<char>>,
                    lead: Seq<char>,
                    trail: Seq<char>,
                |
                    markers_wire_safe(ms) && wf_ns_prefix(p) && ws_gaps(gaps) && gaps.len()
                        == ms.len() + 1 && ws_only(lead) && ws_only(trail) && bytes@
                        == encode_utf8(
                        #[trigger] padded(lead, comments_wire(p, ms, gaps), trail),
                    ) implies false by {
                    assert(tr_g matches Ok(t) && t.0 == tag);
                }
            }
            return Err(ReaderError::Schema(String::from_str("unexpected root element")));
        }
        let mut pos = end;
        let mut children: Vec<CommentExtended> = Vec::new();
        if !tag.self_closing {
            let cr = parse_comment_children(&chars, end);
            let ghost cr_g = cr;
            proof {
                assert forall|
                    ms: Seq<CommentExtended>,
                    p: Seq<char>,
                    gaps: Seq<Seq<char>>,
                    lead: Seq<char>,
                    trail: Seq<char>,
                |
                    markers_wire_safe(ms) && wf_ns_prefix(p) && ws_gaps(gaps) && gaps.len()
                        == ms.len() + 1 && ws_only(lead) && ws_only(trail) && bytes@
                        == encode_utf8(
                        #[trigger] padded(lead, comments_wire(p, ms, gaps), trail),
                    ) implies (cr_g matches Ok(t) && t.0@.len() == ms.len() && (forall|i: int|
                    0 <= i < ms.len() ==> comment_view(#[trigger] t.0@[i]) == comment_view(ms[i]))
                    && t.1 == chars@.len() - trail.len()) by {
                    assert(tr_g matches Ok(t0) && t0.0 == tag && t0.1 == end);
                    lemma_comments_wire_shape(chars@, p, ms, gaps, lead, trail);
                }
            }
            let (cs, q) = match cr {
                Ok(t) => t,
                Err(e) => {
                    return Err(e);
                },
            };
            children = cs;
            pos = q;
            proof {
                assert forall|
                    ms: Seq<CommentExtended>,
                    p: Seq<char>,
                    gaps: Seq<Seq<char>>,
                    lead: Seq<char>,
                    trail: Seq<char>,
                |
                    markers_wire_safe(ms) && wf_ns_prefix(p) && ws_gaps(gaps) && gaps.len()
                        == ms.len() + 1 && ws_only(lead) && ws_only(trail) && bytes@
                        == encode_utf8(
                        #[trigger] padded(lead, comments_wire(p, ms, gaps), trail),
                    ) implies pos == chars@.len() - trail.len() && children@.len() == ms.len() && (
                forall|i: int|
                    0 <= i < ms.len() ==> comment_view(#[trigger] children@[i]) == comment_view(
                        ms[i],
                    )) by {
                    assert(cr_g matches Ok(t) && t.0 == children && t.1 == pos);
                }
            }
        }
        let t = skip_ws(&chars, pos);
        if t < chars.len() {
            proof {
                assert forall|
                    ms: Seq<CommentExtended>,
                    p: Seq<char>,
                    gaps: Seq<Seq<char>>,
                    lead: Seq<char>,
                    trail: Seq<char>,
                |
                    markers_wire_safe(ms) && wf_ns_prefix(p) && ws_gaps(gaps) && gaps.len()
                        == ms.len() + 1 && ws_only(lead) && ws_only(trail) && bytes@
                        == encode_utf8(
                        #[trigger] padded(lead, comments_wire(p, ms, gaps), trail),
                    ) implies false by {
                    assert(tr_g matches Ok(t0) && t0.0 == tag);
                    assert(is_ws_char(chars@[t as int])) by {
                        assert(chars@[pos + (t - pos)] == trail[t - pos]);
                    }
                }
            }
            return Err(ReaderError::Malformed(String::from_str("trailing content")));
        }
        let ghost parsed = children@;
        let resolved = resolve_duplicates(children);
        let col = CommentsExtended { children: resolved };
        proof {
            assert(resolves(parsed, col.children@));
            assert(keys_sorted(col.children@));
            assert(some_resolution(col.children@));
            assert forall|
                ms: Seq<CommentExtended>,
                p: Seq<char>,
                gaps: Seq<Seq<char>>,
                lead: Seq<char>,
                trail: Seq<char>,
            |
                markers_wire_safe(ms) && wf_ns_prefix(p) && ws_gaps(gaps) && gaps.len() == ms.len()
                    + 1 && ws_only(lead) && ws_only(trail) && bytes@ == encode_utf8(
                    #[trigger] padded(lead, comments_wire(p, ms, gaps), trail),
                ) implies resolution_of_markers(ms, col.children@) by {
                assert(tr_g matches Ok(t0) && t0.0 == tag);
                assert(parsed.len() == ms.len() && (forall|i: int|
                    0 <= i < ms.len() ==> comment_view(#[trigger] parsed[i]) == comment_view(
                        ms[i],
                    )) && resolves(parsed, col.children@));
            }
        }
        Ok(col)
    }
}

} // verus!
