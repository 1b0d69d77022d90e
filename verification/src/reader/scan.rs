//! Character-level scanning: whitespace, names, quoted attribute values,
//! and complete tag heads.  Tag and attribute names are matched on their
//! local part: a namespace prefix up to the first `:` is stripped.

use vstd::prelude::*;

use crate::errors::ReaderError;
use crate::strings::chars_substring;
use crate::strings::chars_to_string;
use crate::strings::is_name;
use crate::strings::is_name_char;
use crate::strings::is_ws;
use crate::strings::is_ws_char;

verus! {

/// One attribute, with its name as written (prefix included).
#[derive(Debug, Clone, PartialEq)]
pub struct Attribute {
    pub name: String,
    pub value: String,
}

/// The views of an attribute sequence.
pub open spec fn attr_views(v: Seq<Attribute>) -> Seq<(Seq<char>, Seq<char>)> {
    Seq::new(v.len(), |i: int| (v[i].name@, v[i].value@))
}

/// The canonical text of one attribute: a single space, the name, `="`,
/// the value, `"`.
pub open spec fn attr_chars(a: (Seq<char>, Seq<char>)) -> Seq<char> {
    " "@ + a.0 + "=\""@ + a.1 + "\""@
}

/// The canonical text of an attribute list.
pub open spec fn attrs_chars(attrs: Seq<(Seq<char>, Seq<char>)>) -> Seq<char>
    decreases attrs.len(),
{
    if attrs.len() == 0 {
        Seq::<char>::empty()
    } else {
        attr_chars(attrs[0]) + attrs_chars(attrs.skip(1))
    }
}

/// A canonical attribute name: nonempty, made of name characters, no
/// namespace prefix.
pub open spec fn wf_attr_name(n: Seq<char>) -> bool {
    n.len() > 0 && forall|i: int| 0 <= i < n.len() ==> is_name_char(#[trigger] n[i]) && n[i] != ':'
}

/// A canonical attribute value: free of double quotes.
pub open spec fn wf_attr_value(v: Seq<char>) -> bool {
    forall|i: int| 0 <= i < v.len() ==> (#[trigger] v[i]) != '"'
}

/// A canonical attribute list.
pub open spec fn wf_attrs(attrs: Seq<(Seq<char>, Seq<char>)>) -> bool {
    forall|i: int|
        0 <= i < attrs.len() ==> wf_attr_name(#[trigger] attrs[i].0) && wf_attr_value(attrs[i].1)
}

/// A name as written on the wire: nonempty and made of name characters; a
/// namespace prefix with its `:` may be part of it.
pub open spec fn wf_raw_name(n: Seq<char>) -> bool {
    n.len() > 0 && forall|i: int| 0 <= i < n.len() ==> is_name_char(#[trigger] n[i])
}

/// An attribute list as written on the wire.
pub open spec fn wf_raw_attrs(attrs: Seq<(Seq<char>, Seq<char>)>) -> bool {
    forall|i: int|
        0 <= i < attrs.len() ==> wf_raw_name(#[trigger] attrs[i].0) && wf_attr_value(attrs[i].1)
}

/// A canonical list is in particular a wire list.
pub proof fn lemma_wf_attrs_raw(attrs: Seq<(Seq<char>, Seq<char>)>)
    requires
        wf_attrs(attrs),
    ensures
        wf_raw_attrs(attrs),
{
    assert forall|i: int| 0 <= i < attrs.len() implies wf_raw_name(#[trigger] attrs[i].0)
        && wf_attr_value(attrs[i].1) by {
        assert(wf_attr_name(attrs[i].0));
    }
}

/// `t` stands at position `pos` of `s`.
pub open spec fn match_at(s: Seq<char>, pos: int, t: Seq<char>) -> bool {
    0 <= pos && pos + t.len() <= s.len() && s.subrange(pos, pos + t.len()) == t
}

/// The ending of a tag head: self-closing or not.
pub open spec fn close_text(self_closing: bool) -> Seq<char> {
    if self_closing {
        " />"@
    } else {
        ">"@
    }
}

pub proof fn lemma_match_index(s: Seq<char>, pos: int, t: Seq<char>, off: int)
    requires
        match_at(s, pos, t),
        0 <= off < t.len(),
    ensures
        s[pos + off] == t[off],
{
    assert(s.subrange(pos, pos + t.len())[off] == s[pos + off]);
}

pub proof fn lemma_match_split(s: Seq<char>, pos: int, a: Seq<char>, b: Seq<char>)
    requires
        match_at(s, pos, a + b),
    ensures
        match_at(s, pos, a),
        match_at(s, pos + a.len(), b),
{
    assert(s.subrange(pos, pos + a.len()) =~= a) by {
        assert forall|i: int| 0 <= i < a.len() implies s.subrange(pos, pos + a.len())[i]
            == a[i] by {
            lemma_match_index(s, pos, a + b, i);
            assert((a + b)[i] == a[i]);
        }
    }
    assert(s.subrange(pos + a.len(), pos + a.len() + b.len()) =~= b) by {
        assert forall|i: int|
            0 <= i < b.len() implies s.subrange(pos + a.len(), pos + a.len() + b.len())[i]
            == b[i] by {
            lemma_match_index(s, pos, a + b, a.len() + i);
            assert((a + b)[a.len() + i] == b[i]);
        }
    }
}

pub proof fn lemma_attrs_chars_cat(x: Seq<(Seq<char>, Seq<char>)>, y: Seq<(Seq<char>, Seq<char>)>)
    ensures
        attrs_chars(x + y) == attrs_chars(x) + attrs_chars(y),
    decreases x.len(),
{
    if x.len() == 0 {
        assert(x + y =~= y);
        assert(attrs_chars(x) + attrs_chars(y) =~= attrs_chars(y));
    } else {
        assert((x + y)[0] == x[0]);
        assert((x + y).skip(1) =~= x.skip(1) + y);
        lemma_attrs_chars_cat(x.skip(1), y);
        assert(attr_chars(x[0]) + (attrs_chars(x.skip(1)) + attrs_chars(y)) =~= (attr_chars(x[0])
            + attrs_chars(x.skip(1))) + attrs_chars(y));
    }
}

/// `attrs_chars` over a prefix extended by one attribute.
pub proof fn lemma_attrs_chars_snoc(attrs: Seq<(Seq<char>, Seq<char>)>, k: int)
    requires
        0 <= k < attrs.len(),
    ensures
        attrs_chars(attrs.take(k + 1)) == attrs_chars(attrs.take(k)) + attr_chars(attrs[k]),
{
    assert(attrs.take(k + 1) =~= attrs.take(k) + seq![attrs[k]]);
    lemma_attrs_chars_cat(attrs.take(k), seq![attrs[k]]);
    assert(attrs_chars(seq![attrs[k]]) =~= attr_chars(attrs[k])) by {
        assert(seq![attrs[k]].len() == 1);
        assert(seq![attrs[k]][0] == attrs[k]);
        assert(seq![attrs[k]].skip(1) =~= Seq::<(Seq<char>, Seq<char>)>::empty());
        assert(attrs_chars(seq![attrs[k]].skip(1)) == Seq::<char>::empty());
        assert(attrs_chars(seq![attrs[k]]) == attr_chars(attrs[k]) + Seq::<char>::empty());
        assert(attr_chars(attrs[k]) + Seq::<char>::empty() =~= attr_chars(attrs[k]));
    }
}

/// The shape of one canonical attribute unit: where its punctuation and
/// parts stand.
pub proof fn lemma_attr_chars_shape(a: (Seq<char>, Seq<char>))
    ensures
        attr_chars(a).len() == 4 + a.0.len() + a.1.len(),
        attr_chars(a)[0] == ' ',
        forall|i: int| 0 <= i < a.0.len() ==> attr_chars(a)[1 + i] == a.0[i],
        attr_chars(a)[1 + a.0.len() as int] == '=',
        attr_chars(a)[2 + a.0.len() as int] == '"',
        forall|i: int| 0 <= i < a.1.len() ==> attr_chars(a)[3 + a.0.len() + i] == a.1[i],
        attr_chars(a)[3 + a.0.len() as int + a.1.len() as int] == '"',
{
    reveal_strlit(" ");
    reveal_strlit("=\"");
    reveal_strlit("\"");
    assert(" "@.len() == 1);
    assert("=\""@.len() == 2);
    assert("\""@.len() == 1);
}

/// The first position at or after `pos` holding a non-whitespace character.
pub fn skip_ws(s: &Vec<char>, pos: usize) -> (r: usize)
    requires
        pos <= s@.len(),
    ensures
        pos <= r <= s@.len(),
        forall|m: int| pos <= m < r ==> is_ws_char(#[trigger] s@[m]),
        r < s@.len() ==> !is_ws_char(s@[r as int]),
{
    let mut i = pos;
    while i < s.len()
        invariant
            pos <= i <= s@.len(),
            forall|m: int| pos <= m < i ==> is_ws_char(#[trigger] s@[m]),
        decreases s@.len() - i,
    {
        if !is_ws(s[i]) {
            return i;
        }
        i += 1;
    }
    i
}

/// The end of the maximal run of name characters starting at `pos`.
pub fn scan_name(s: &Vec<char>, pos: usize) -> (r: usize)
    requires
        pos <= s@.len(),
    ensures
        pos <= r <= s@.len(),
        forall|m: int| pos <= m < r ==> is_name_char(#[trigger] s@[m]),
        r < s@.len() ==> !is_name_char(s@[r as int]),
{
    let mut i = pos;
    while i < s.len()
        invariant
            pos <= i <= s@.len(),
            forall|m: int| pos <= m < i ==> is_name_char(#[trigger] s@[m]),
        decreases s@.len() - i,
    {
        if !is_name(s[i]) {
            return i;
        }
        i += 1;
    }
    i
}

/// The first position at or after `pos` holding a double quote, or the end.
pub fn scan_value(s: &Vec<char>, pos: usize) -> (r: usize)
    requires
        pos <= s@.len(),
    ensures
        pos <= r <= s@.len(),
        forall|m: int| pos <= m < r ==> (#[trigger] s@[m]) != '"',
        r < s@.len() ==> s@[r as int] == '"',
{
    let mut i = pos;
    while i < s.len()
        invariant
            pos <= i <= s@.len(),
            forall|m: int| pos <= m < i ==> (#[trigger] s@[m]) != '"',
        decreases s@.len() - i,
    {
        if s[i] == '"' {
            return i;
        }
        i += 1;
    }
    i
}

/// The position of the first `:` in `n`, or its length.
pub open spec fn colon_index(n: Seq<char>) -> int
    decreases n.len(),
{
    if n.len() == 0 {
        0
    } else if n[0] == ':' {
        0
    } else {
        1 + colon_index(n.skip(1))
    }
}

/// The local part of a name: everything after the first `:`, or the whole
/// name when it has none.
pub open spec fn local_part(n: Seq<char>) -> Seq<char> {
    if colon_index(n) == n.len() {
        n
    } else {
        n.skip(colon_index(n) + 1)
    }
}

pub proof fn lemma_colon_index(n: Seq<char>)
    ensures
        0 <= colon_index(n) <= n.len(),
        forall|m: int| 0 <= m < colon_index(n) ==> (#[trigger] n[m]) != ':',
        colon_index(n) < n.len() ==> n[colon_index(n)] == ':',
    decreases n.len(),
{
    if n.len() == 0 {
    } else if n[0] == ':' {
    } else {
        lemma_colon_index(n.skip(1));
        assert forall|m: int| 0 <= m < colon_index(n) implies (#[trigger] n[m]) != ':' by {
            if m > 0 {
                assert(n.skip(1)[m - 1] != ':');
            }
        }
        if colon_index(n) < n.len() {
            assert(n.skip(1)[colon_index(n) - 1] == ':');
        }
    }
}

/// The local part of a name.
pub fn local_name(n: &str) -> (r: String)
    ensures
        r@ == local_part(n@),
{
    let chars = crate::strings::str_chars(n);
    proof {
        lemma_colon_index(n@);
    }
    let ghost ci = colon_index(n@);
    let mut i: usize = 0;
    while i < chars.len()
        invariant
            i <= chars@.len(),
            chars@ == n@,
            ci == colon_index(n@),
            0 <= ci <= n@.len(),
            ci < n@.len() ==> n@[ci] == ':',
            forall|m: int| 0 <= m < ci ==> (#[trigger] n@[m]) != ':',
            forall|m: int| 0 <= m < i ==> (#[trigger] n@[m]) != ':',
            i <= ci,
        decreases chars@.len() - i,
    {
        if chars[i] == ':' {
            proof {
                assert(i == ci) by {
                    if i < ci {
                        assert(n@[i as int] != ':');
                    }
                }
            }
            let rest = chars_substring(&chars, i + 1, chars.len());
            proof {
                assert(n@.subrange(i + 1, n@.len() as int) =~= n@.skip(ci + 1));
            }
            return chars_to_string(&rest);
        }
        proof {
            assert(i < ci || ci <= i);
            if ci <= i {
                assert(ci < n@.len());
                assert(n@[ci] == ':');
                assert(n@[i as int] != ':');
                assert(ci == i);
                assert(false);
            }
        }
        i += 1;
    }
    proof {
        assert(i == n@.len());
        assert(ci == n@.len());
        assert(local_part(n@) == n@);
    }
    n.to_owned()
}

/// Whether a raw attribute name is a namespace declaration: `xmlns` itself
/// or any name starting with `xmlns:` -- here, any name starting `xmlns`.
pub open spec fn is_xmlns(n: Seq<char>) -> bool {
    n.len() >= 5 && n.take(5) == "xmlns"@
}

/// Whether `n` starts with `xmlns`.
pub fn name_is_xmlns(n: &str) -> (r: bool)
    ensures
        r == is_xmlns(n@),
{
    let chars = crate::strings::str_chars(n);
    if chars.len() < 5 {
        proof {
            reveal_strlit("xmlns");
        }
        return false;
    }
    proof {
        reveal_strlit("xmlns");
    }
    let r = chars[0] == 'x' && chars[1] == 'm' && chars[2] == 'l' && chars[3] == 'n' && chars[4]
        == 's';
    proof {
        if r {
            assert(n@.take(5) =~= "xmlns"@);
        } else {
            assert(n@.take(5) != "xmlns"@) by {
                if n@.take(5) == "xmlns"@ {
                    assert(n@.take(5)[0] == 'x' && n@.take(5)[1] == 'm' && n@.take(5)[2] == 'l'
                        && n@.take(5)[3] == 'n' && n@.take(5)[4] == 's');
                }
            }
        }
    }
    r
}

/// The views of a vector with one attribute appended.
pub proof fn lemma_attr_views_push(v: Seq<Attribute>, a: Attribute)
    ensures
        attr_views(v.push(a)) == attr_views(v).push((a.name@, a.value@)),
{
    assert(attr_views(v.push(a)) =~= attr_views(v).push((a.name@, a.value@)));
}

/// Where the parts of a canonical attribute list stand in the input, seen
/// from the position `cur` that follows its first `k` attribute units.
#[verifier::rlimit(60)]
pub proof fn lemma_canonical_at(
    s: Seq<char>,
    pos: int,
    cur: int,
    k: int,
    ats: Seq<(Seq<char>, Seq<char>)>,
    sc: bool,
)
    requires
        wf_raw_attrs(ats),
        match_at(s, pos, attrs_chars(ats) + close_text(sc)),
        0 <= k <= ats.len(),
        cur == pos + attrs_chars(ats.take(k)).len(),
    ensures
        k < ats.len() ==> cur + 4 + ats[k].0.len() + ats[k].1.len() <= s.len() && s[cur] == ' '
            && (forall|m: int|
            cur + 1 <= m < cur + 1 + ats[k].0.len() ==> is_name_char(#[trigger] s[m]))
            && s.subrange(cur + 1, cur + 1 + ats[k].0.len() as int) == ats[k].0 && s[cur + 1
            + ats[k].0.len()] == '=' && s[cur + 2 + ats[k].0.len()] == '"' && (forall|m: int|
            cur + 3 + ats[k].0.len() <= m < cur + 3 + ats[k].0.len() + ats[k].1.len() ==> (
            #[trigger] s[m]) != '"') && s.subrange(
            cur + 3 + ats[k].0.len() as int,
            cur + 3 + ats[k].0.len() as int + ats[k].1.len() as int,
        ) == ats[k].1 && s[cur + 3 + ats[k].0.len() + ats[k].1.len()] == '"' && cur + 4
            + ats[k].0.len() + ats[k].1.len() == pos + attrs_chars(ats.take(k + 1)).len(),
        k == ats.len() && sc ==> cur + 3 <= s.len() && s[cur] == ' ' && s[cur + 1] == '/' && s[cur
            + 2] == '>' && cur + 3 == pos + (attrs_chars(ats) + close_text(sc)).len(),
        k == ats.len() && !sc ==> cur + 1 <= s.len() && s[cur] == '>' && cur + 1 == pos + (
        attrs_chars(ats) + close_text(sc)).len(),
{
    assert(ats.take(k) + ats.skip(k) =~= ats);
    lemma_attrs_chars_cat(ats.take(k), ats.skip(k));
    assert(attrs_chars(ats) == attrs_chars(ats.take(k)) + attrs_chars(ats.skip(k)));
    assert((attrs_chars(ats.take(k)) + attrs_chars(ats.skip(k))) + close_text(sc) =~= attrs_chars(
        ats.take(k),
    ) + (attrs_chars(ats.skip(k)) + close_text(sc)));
    lemma_match_split(s, pos, attrs_chars(ats.take(k)), attrs_chars(ats.skip(k)) + close_text(sc));
    let rest = attrs_chars(ats.skip(k)) + close_text(sc);
    assert(match_at(s, cur, rest));
    if k < ats.len() {
        let a = ats[k];
        assert(ats.skip(k)[0] == a);
        assert(ats.skip(k).skip(1) =~= ats.skip(k + 1));
        assert(attrs_chars(ats.skip(k)) == attr_chars(a) + attrs_chars(ats.skip(k + 1)));
        assert((attr_chars(a) + attrs_chars(ats.skip(k + 1))) + close_text(sc) =~= attr_chars(a) + (
        attrs_chars(ats.skip(k + 1)) + close_text(sc)));
        lemma_match_split(s, cur, attr_chars(a), attrs_chars(ats.skip(k + 1)) + close_text(sc));
        lemma_attr_chars_shape(a);
        assert(s[cur] == ' ') by {
            lemma_match_index(s, cur, attr_chars(a), 0);
        }
        assert forall|i: int| 0 <= i < a.0.len() implies s[cur + 1 + i] == a.0[i] by {
            lemma_match_index(s, cur, attr_chars(a), 1 + i);
        }
        assert forall|m: int|
            cur + 1 <= m < cur + 1 + a.0.len() implies is_name_char(#[trigger] s[m]) by {
            assert(s[cur + 1 + (m - cur - 1)] == a.0[m - cur - 1]);
            assert(is_name_char(a.0[m - cur - 1]));
        }
        assert(s.subrange(cur + 1, cur + 1 + a.0.len() as int) =~= a.0) by {
            assert forall|i: int|
                0 <= i < a.0.len() implies s.subrange(cur + 1, cur + 1 + a.0.len() as int)[i]
                == a.0[i] by {
                assert(s.subrange(cur + 1, cur + 1 + a.0.len() as int)[i] == s[cur + 1 + i]);
            }
        }
        assert(s[cur + 1 + a.0.len()] == '=') by {
            lemma_match_index(s, cur, attr_chars(a), 1 + a.0.len() as int);
        }
        assert(s[cur + 2 + a.0.len()] == '"') by {
            lemma_match_index(s, cur, attr_chars(a), 2 + a.0.len() as int);
        }
        assert forall|i: int| 0 <= i < a.1.len() implies s[cur + 3 + a.0.len() + i] == a.1[i] by {
            lemma_match_index(s, cur, attr_chars(a), 3 + a.0.len() as int + i);
        }
        assert forall|m: int|
            cur + 3 + a.0.len() <= m < cur + 3 + a.0.len() + a.1.len() implies (#[trigger] s[m])
            != '"' by {
            assert(s[cur + 3 + a.0.len() + (m - cur - 3 - a.0.len())] == a.1[m - cur - 3
                - a.0.len()]);
            assert(a.1[m - cur - 3 - a.0.len()] != '"');
        }
        assert(s.subrange(
            cur + 3 + a.0.len() as int,
            cur + 3 + a.0.len() as int + a.1.len() as int,
        ) =~= a.1) by {
            assert forall|i: int|
                0 <= i < a.1.len() implies s.subrange(
                cur + 3 + a.0.len() as int,
                cur + 3 + a.0.len() as int + a.1.len() as int,
            )[i] == a.1[i] by {
                assert(s.subrange(
                    cur + 3 + a.0.len() as int,
                    cur + 3 + a.0.len() as int + a.1.len() as int,
                )[i] == s[cur + 3 + a.0.len() + i]);
            }
        }
        assert(s[cur + 3 + a.0.len() + a.1.len()] == '"') by {
            lemma_match_index(s, cur, attr_chars(a), 3 + a.0.len() as int + a.1.len() as int);
        }
        lemma_attrs_chars_snoc(ats, k);
    } else {
        assert(ats.skip(k) =~= Seq::<(Seq<char>, Seq<char>)>::empty());
        assert(attrs_chars(ats.skip(k)) == Seq::<char>::empty());
        assert(rest =~= close_text(sc));
        assert(ats.take(k) =~= ats);
        if sc {
            reveal_strlit(" />");
            assert(close_text(sc).len() == 3);
            lemma_match_index(s, cur, rest, 0);
            lemma_match_index(s, cur, rest, 1);
            lemma_match_index(s, cur, rest, 2);
        } else {
            reveal_strlit(">");
            assert(close_text(sc).len() == 1);
            lemma_match_index(s, cur, rest, 0);
        }
    }
}

/// A parsed tag head: the tag's local name, its attributes as written, and
/// whether the tag closed itself.
pub struct OpenTag {
    pub name: String,
    pub attrs: Vec<Attribute>,
    pub self_closing: bool,
}

/// What `parse_attrs` guarantees on canonical input: if the text at `pos`
/// continues as a canonical attribute list with its tag ending, the parse
/// succeeds and returns exactly that list, that ending, and the position
/// just past it.
pub open spec fn parse_attrs_complete(
    s: Seq<char>,
    pos: int,
    r: Result<(Vec<Attribute>, bool, usize), ReaderError>,
) -> bool {
    forall|ats: Seq<(Seq<char>, Seq<char>)>, sc: bool|
        wf_raw_attrs(ats) && #[trigger] match_at(s, pos, attrs_chars(ats) + close_text(sc)) ==> (
        r matches Ok(t) && attr_views(t.0@) == ats && t.1 == sc && t.2 == pos + (attrs_chars(ats)
            + close_text(sc)).len())
}

/// Parses the attribute list of a tag head, through its ending `/>` or `>`.
/// Returns the attributes, whether the tag was self-closing, and the
/// position just past the ending.
#[verifier::rlimit(100)]
pub fn parse_attrs(s: &Vec<char>, pos: usize) -> (r: Result<(Vec<Attribute>, bool, usize),
    ReaderError>)
    requires
        pos <= s@.len(),
    ensures
        r matches Ok(t) ==> pos < t.2 <= s@.len(),
        parse_attrs_complete(s@, pos as int, r),
{
    let mut acc: Vec<Attribute> = Vec::new();
    let mut cur = pos;
    proof {
        assert forall|ats: Seq<(Seq<char>, Seq<char>)>, sc: bool|
            wf_raw_attrs(ats) && #[trigger] match_at(
                s@,
                pos as int,
                attrs_chars(ats) + close_text(sc),
            ) implies acc@.len() <= ats.len() && attr_views(acc@) == ats.take(acc@.len() as int)
            && cur == pos + attrs_chars(ats.take(acc@.len() as int)).len() by {
            assert(attr_views(acc@) =~= Seq::<(Seq<char>, Seq<char>)>::empty());
            assert(ats.take(0) =~= Seq::<(Seq<char>, Seq<char>)>::empty());
            assert(attrs_chars(ats.take(0)) == Seq::<char>::empty());
        }
    }
    loop
        invariant
            pos <= cur <= s@.len(),
            forall|ats: Seq<(Seq<char>, Seq<char>)>, sc: bool|
                wf_raw_attrs(ats) && #[trigger] match_at(
                    s@,
                    pos as int,
                    attrs_chars(ats) + close_text(sc),
                ) ==> acc@.len() <= ats.len() && attr_views(acc@) == ats.take(acc@.len() as int)
                    && cur == pos + attrs_chars(ats.take(acc@.len() as int)).len(),
        decreases s@.len() - cur,
    {
        let ghost k = acc@.len() as int;
        let w = skip_ws(s, cur);
        if w >= s.len() {
            proof {
                assert forall|ats: Seq<(Seq<char>, Seq<char>)>, sc: bool|
                    wf_raw_attrs(ats) && #[trigger] match_at(
                        s@,
                        pos as int,
                        attrs_chars(ats) + close_text(sc),
                    ) implies false by {
                    lemma_canonical_at(s@, pos as int, cur as int, k, ats, sc);
                    if k < ats.len() {
                        assert(is_name_char(ats[k].0[0]));
                        assert(!is_ws_char(s@[cur + 1]));
                        assert(is_ws_char(s@[cur + 1]));
                    } else if sc {
                        assert(!is_ws_char(s@[cur + 1]));
                        assert(is_ws_char(s@[cur + 1]));
                    } else {
                        assert(!is_ws_char(s@[cur as int]));
                        assert(is_ws_char(s@[cur as int]));
                    }
                }
            }
            return Err(ReaderError::Malformed(String::from_str("unterminated tag")));
        }
        let c = s[w];
        if c == '/' {
            if w + 1 < s.len() && s[w + 1] == '>' {
                let ghost t2 = w + 2;
                proof {
                    assert forall|ats: Seq<(Seq<char>, Seq<char>)>, sc: bool|
                        wf_raw_attrs(ats) && #[trigger] match_at(
                            s@,
                            pos as int,
                            attrs_chars(ats) + close_text(sc),
                        ) implies attr_views(acc@) == ats && sc == true && t2 == pos + (
                    attrs_chars(ats) + close_text(sc)).len() by {
                        lemma_canonical_at(s@, pos as int, cur as int, k, ats, sc);
                        if k < ats.len() {
                            assert(is_name_char(ats[k].0[0]));
                            assert(w == cur + 1) by {
                                if w > cur + 1 {
                                    assert(is_ws_char(s@[cur + 1]));
                                }
                            }
                            assert(s@[w as int] == ats[k].0[0]);
                            assert(false);
                        } else if !sc {
                            assert(w == cur) by {
                                if w > cur {
                                    assert(is_ws_char(s@[cur as int]));
                                }
                            }
                            assert(false);
                        } else {
                            assert(w == cur + 1) by {
                                if w > cur + 1 {
                                    assert(is_ws_char(s@[cur + 1]));
                                }
                            }
                            assert(ats.take(k) =~= ats);
                        }
                    }
                }
                return Ok((acc, true, w + 2));
            }
            proof {
                assert forall|ats: Seq<(Seq<char>, Seq<char>)>, sc: bool|
                    wf_raw_attrs(ats) && #[trigger] match_at(
                        s@,
                        pos as int,
                        attrs_chars(ats) + close_text(sc),
                    ) implies false by {
                    lemma_canonical_at(s@, pos as int, cur as int, k, ats, sc);
                    if k < ats.len() {
                        assert(is_name_char(ats[k].0[0]));
                        assert(w == cur + 1) by {
                            if w > cur + 1 {
                                assert(is_ws_char(s@[cur + 1]));
                            }
                        }
                        assert(false);
                    } else if !sc {
                        assert(w == cur) by {
                            if w > cur {
                                assert(is_ws_char(s@[cur as int]));
                            }
                        }
                        assert(false);
                    } else {
                        assert(w == cur + 1) by {
                            if w > cur + 1 {
                                assert(is_ws_char(s@[cur + 1]));
                            }
                        }
                        assert(s@[w + 1] == '>');
                        assert(false);
                    }
                }
            }
            return Err(ReaderError::Malformed(String::from_str("malformed tag end")));
        }
        if c == '>' {
            let ghost t2 = w + 1;
            proof {
                assert forall|ats: Seq<(Seq<char>, Seq<char>)>, sc: bool|
                    wf_raw_attrs(ats) && #[trigger] match_at(
                        s@,
                        pos as int,
                        attrs_chars(ats) + close_text(sc),
                    ) implies attr_views(acc@) == ats && sc == false && t2 == pos + (attrs_chars(
                    ats,
                ) + close_text(sc)).len() by {
                    lemma_canonical_at(s@, pos as int, cur as int, k, ats, sc);
                    if k < ats.len() {
                        assert(is_name_char(ats[k].0[0]));
                        assert(w == cur + 1) by {
                            if w > cur + 1 {
                                assert(is_ws_char(s@[cur + 1]));
                            }
                        }
                        assert(false);
                    } else if sc {
                        assert(w == cur + 1) by {
                            if w > cur + 1 {
                                assert(is_ws_char(s@[cur + 1]));
                            }
                        }
                        assert(false);
                    } else {
                        assert(w == cur) by {
                            if w > cur {
                                assert(is_ws_char(s@[cur as int]));
                            }
                        }
                        assert(ats.take(k) =~= ats);
                    }
                }
            }
            return Ok((acc, false, w + 1));
        }
        // an attribute unit must follow: under any canonical hypothesis the
        // head character is the start of a name
        proof {
            assert forall|ats: Seq<(Seq<char>, Seq<char>)>, sc: bool|
                wf_raw_attrs(ats) && #[trigger] match_at(
                    s@,
                    pos as int,
                    attrs_chars(ats) + close_text(sc),
                ) implies k < ats.len() && w == cur + 1 && (forall|i: int|
                0 <= i < ats[k].0.len() ==> s@[w + i] == ats[k].0[i]) by {
                lemma_canonical_at(s@, pos as int, cur as int, k, ats, sc);
                if k < ats.len() {
                    assert(is_name_char(ats[k].0[0]));
                    assert(w == cur + 1) by {
                        if w > cur + 1 {
                            assert(is_ws_char(s@[cur + 1]));
                        }
                    }
                } else if sc {
                    assert(w == cur + 1) by {
                        if w > cur + 1 {
                            assert(is_ws_char(s@[cur + 1]));
                        }
                    }
                    assert(false);
                } else {
                    assert(w == cur) by {
                        if w > cur {
                            assert(is_ws_char(s@[cur as int]));
                        }
                    }
                    assert(false);
                }
            }
        }
        let ne = scan_name(s, w);
        if ne == w || ne >= s.len() || s[ne] != '=' || ne + 1 >= s.len() || s[ne + 1] != '"' {
            proof {
                assert forall|ats: Seq<(Seq<char>, Seq<char>)>, sc: bool|
                    wf_raw_attrs(ats) && #[trigger] match_at(
                        s@,
                        pos as int,
                        attrs_chars(ats) + close_text(sc),
                    ) implies false by {
                    lemma_canonical_at(s@, pos as int, cur as int, k, ats, sc);
                    let n = ats[k].0;
                    assert(ne == w + n.len()) by {
                        if ne < w + n.len() {
                            assert(is_name_char(s@[ne as int]));
                        }
                        if ne > w + n.len() {
                            assert(is_name_char(s@[cur + 1 + n.len() as int]));
                        }
                    }
                    assert(s@[ne as int] == '=');
                    assert(s@[ne + 1] == '"');
                    assert(false);
                }
            }
            return Err(ReaderError::Malformed(String::from_str("malformed attribute")));
        }
        let ve = scan_value(s, ne + 2);
        if ve >= s.len() {
            proof {
                assert forall|ats: Seq<(Seq<char>, Seq<char>)>, sc: bool|
                    wf_raw_attrs(ats) && #[trigger] match_at(
                        s@,
                        pos as int,
                        attrs_chars(ats) + close_text(sc),
                    ) implies false by {
                    lemma_canonical_at(s@, pos as int, cur as int, k, ats, sc);
                    let n = ats[k].0;
                    let v = ats[k].1;
                    assert(ne == w + n.len()) by {
                        if ne < w + n.len() {
                            assert(is_name_char(s@[ne as int]));
                        }
                        if ne > w + n.len() {
                            assert(is_name_char(s@[cur + 1 + n.len() as int]));
                        }
                    }
                    assert(s@[cur + 3 + n.len() + v.len()] == '"');
                    assert(ve == ne + 2 + v.len()) by {
                        if ve < ne + 2 + v.len() {
                            assert(s@[ve as int] == v[ve - (ne + 2)]);
                        }
                    }
                    assert(false);
                }
            }
            return Err(ReaderError::Malformed(String::from_str("unterminated attribute value")));
        }
        let name_chars = chars_substring(s, w, ne);
        let value_chars = chars_substring(s, ne + 2, ve);
        let name = chars_to_string(&name_chars);
        let value = chars_to_string(&value_chars);
        let ghost acc_pre = acc@;
        let a = Attribute { name, value };
        let ghost aview = (a.name@, a.value@);
        acc.push(a);
        proof {
            lemma_attr_views_push(acc_pre, acc@.last());
            assert forall|ats: Seq<(Seq<char>, Seq<char>)>, sc: bool|
                wf_raw_attrs(ats) && #[trigger] match_at(
                    s@,
                    pos as int,
                    attrs_chars(ats) + close_text(sc),
                ) implies acc@.len() <= ats.len() && attr_views(acc@) == ats.take(acc@.len() as int)
                && ve + 1 == pos + attrs_chars(ats.take(acc@.len() as int)).len() by {
                lemma_canonical_at(s@, pos as int, cur as int, k, ats, sc);
                let n = ats[k].0;
                let v = ats[k].1;
                assert(ne == w + n.len()) by {
                    if ne < w + n.len() {
                        assert(is_name_char(s@[ne as int]));
                    }
                    if ne > w + n.len() {
                        assert(is_name_char(s@[cur + 1 + n.len() as int]));
                    }
                }
                assert(aview.0 =~= n) by {
                    assert forall|i: int| 0 <= i < n.len() implies aview.0[i] == n[i] by {
                        assert(s@.subrange(w as int, ne as int)[i] == s@[w + i]);
                    }
                }
                assert(s@[cur + 3 + n.len() + v.len()] == '"');
                assert(ve == ne + 2 + v.len()) by {
                    if ve < ne + 2 + v.len() {
                        assert(s@[ve as int] == v[ve - (ne + 2)]);
                    }
                }
                assert(aview.1 =~= v) by {
                    assert forall|i: int| 0 <= i < v.len() implies aview.1[i] == v[i] by {
                        assert(s@.subrange(ne + 2, ve as int)[i] == s@[ne + 2 + i]);
                        assert(s@[cur + 3 + n.len() + i] == v[i]);
                    }
                }
                assert(attr_views(acc@) == attr_views(acc_pre).push(aview));
                assert(ats.take(k + 1) =~= ats.take(k).push(ats[k]));
                assert(attr_views(acc@) =~= ats.take(k + 1));
            }
        }
        cur = ve + 1;
    }
}

/// A colon-free name is its own local part.
pub proof fn lemma_local_part_plain(n: Seq<char>)
    requires
        forall|i: int| 0 <= i < n.len() ==> (#[trigger] n[i]) != ':',
    ensures
        local_part(n) == n,
{
    lemma_colon_index(n);
    if colon_index(n) < n.len() {
        assert(n[colon_index(n)] != ':');
    }
}

/// What `parse_open_tag` guarantees on canonical input: if the text at
/// `pos` is exactly a canonical tag head, the parse succeeds and returns
/// its name, its attributes and its ending.
pub open spec fn parse_open_tag_complete(
    s: Seq<char>,
    pos: int,
    r: Result<(OpenTag, usize), ReaderError>,
) -> bool {
    forall|name: Seq<char>, ats: Seq<(Seq<char>, Seq<char>)>, sc: bool|
        wf_raw_name(name) && wf_raw_attrs(ats) && #[trigger] match_at(
            s,
            pos,
            "<"@ + name + attrs_chars(ats) + close_text(sc),
        ) ==> (r matches Ok(t) && t.0.name@ == local_part(name) && attr_views(t.0.attrs@) == ats
            && t.0.self_closing == sc && t.1 == pos + ("<"@ + name + attrs_chars(ats) + close_text(
            sc,
        )).len())
}

/// Parses a complete tag head `<name ... >` or `<name ... />` at `pos`
/// (whitespace allowed before it).  The returned name is the local name.
#[verifier::rlimit(100)]
pub fn parse_open_tag(s: &Vec<char>, pos: usize) -> (r: Result<(OpenTag, usize), ReaderError>)
    requires
        pos <= s@.len(),
    ensures
        r matches Ok(t) ==> pos < t.1 <= s@.len(),
        parse_open_tag_complete(s@, pos as int, r),
{
    proof {
        reveal_strlit("<");
        assert("<"@.len() == 1);
    }
    let w = skip_ws(s, pos);
    if w >= s.len() || s[w] != '<' {
        proof {
            assert forall|name: Seq<char>, ats: Seq<(Seq<char>, Seq<char>)>, sc: bool|
                wf_raw_name(name) && wf_raw_attrs(ats) && #[trigger] match_at(
                    s@,
                    pos as int,
                    "<"@ + name + attrs_chars(ats) + close_text(sc),
                ) implies false by {
                let t = "<"@ + name + attrs_chars(ats) + close_text(sc);
                lemma_match_index(s@, pos as int, t, 0);
                assert(s@[pos as int] == '<');
                assert(w == pos) by {
                    if w > pos {
                        assert(is_ws_char(s@[pos as int]));
                    }
                }
            }
        }
        return Err(ReaderError::Malformed(String::from_str("expected element")));
    }
    proof {
        assert forall|name: Seq<char>, ats: Seq<(Seq<char>, Seq<char>)>, sc: bool|
            wf_raw_name(name) && wf_raw_attrs(ats) && #[trigger] match_at(
                s@,
                pos as int,
                "<"@ + name + attrs_chars(ats) + close_text(sc),
            ) implies w == pos && match_at(s@, pos + 1, name) && match_at(
            s@,
            pos + 1 + name.len(),
            attrs_chars(ats) + close_text(sc),
        ) && (forall|m: int|
            pos + 1 <= m < pos + 1 + name.len() ==> is_name_char(#[trigger] s@[m])) && !is_name_char(
            s@[pos + 1 + name.len() as int],
        ) && pos + 1 + name.len() < s@.len() by {
            let t = "<"@ + name + attrs_chars(ats) + close_text(sc);
            lemma_match_index(s@, pos as int, t, 0);
            assert(s@[pos as int] == '<');
            assert(w == pos) by {
                if w > pos {
                    assert(is_ws_char(s@[pos as int]));
                }
            }
            assert(t =~= "<"@ + (name + (attrs_chars(ats) + close_text(sc))));
            lemma_match_split(s@, pos as int, "<"@, name + (attrs_chars(ats) + close_text(sc)));
            lemma_match_split(s@, pos + 1, name, attrs_chars(ats) + close_text(sc));
            assert forall|m: int|
                pos + 1 <= m < pos + 1 + name.len() implies is_name_char(#[trigger] s@[m]) by {
                lemma_match_index(s@, pos + 1, name, m - pos - 1);
                assert(is_name_char(name[m - pos - 1]));
            }
            assert(ats.take(0) =~= Seq::<(Seq<char>, Seq<char>)>::empty());
            assert(attrs_chars(ats.take(0)) == Seq::<char>::empty());
            lemma_canonical_at(s@, pos + 1 + name.len(), pos + 1 + name.len(), 0, ats, sc);
            if ats.len() > 0 {
                assert(s@[pos + 1 + name.len() as int] == ' ');
                assert(!is_name_char(' '));
            } else if sc {
                assert(s@[pos + 1 + name.len() as int] == ' ');
                assert(!is_name_char(' '));
            } else {
                assert(s@[pos + 1 + name.len() as int] == '>');
                assert(!is_name_char('>'));
            }
        }
    }
    let ne = scan_name(s, w + 1);
    if ne == w + 1 {
        proof {
            assert forall|name: Seq<char>, ats: Seq<(Seq<char>, Seq<char>)>, sc: bool|
                wf_raw_name(name) && wf_raw_attrs(ats) && #[trigger] match_at(
                    s@,
                    pos as int,
                    "<"@ + name + attrs_chars(ats) + close_text(sc),
                ) implies false by {
                assert(is_name_char(s@[pos + 1]));
            }
        }
        return Err(ReaderError::Malformed(String::from_str("expected tag name")));
    }
    let raw_chars = chars_substring(s, w + 1, ne);
    let raw = chars_to_string(&raw_chars);
    let name = local_name(raw.as_str());
    proof {
        assert forall|nm: Seq<char>, ats: Seq<(Seq<char>, Seq<char>)>, sc: bool|
            wf_raw_name(nm) && wf_raw_attrs(ats) && #[trigger] match_at(
                s@,
                pos as int,
                "<"@ + nm + attrs_chars(ats) + close_text(sc),
            ) implies ne == pos + 1 + nm.len() && name@ == local_part(nm) by {
            assert(ne == pos + 1 + nm.len()) by {
                if ne < pos + 1 + nm.len() {
                    assert(is_name_char(s@[ne as int]));
                }
                if ne > pos + 1 + nm.len() {
                    assert(is_name_char(s@[pos + 1 + nm.len() as int]));
                }
            }
            assert(raw@ =~= nm) by {
                assert forall|i: int| 0 <= i < nm.len() implies raw@[i] == nm[i] by {
                    assert(s@.subrange(pos + 1, ne as int)[i] == s@[pos + 1 + i]);
                    lemma_match_index(s@, pos + 1, nm, i);
                }
            }
        }
    }
    match parse_attrs(s, ne) {
        Ok((attrs, self_closing, end)) => {
            let r = Ok((OpenTag { name, attrs, self_closing }, end));
            proof {
                assert forall|nm: Seq<char>, ats: Seq<(Seq<char>, Seq<char>)>, sc: bool|
                    wf_raw_name(nm) && wf_raw_attrs(ats) && #[trigger] match_at(
                        s@,
                        pos as int,
                        "<"@ + nm + attrs_chars(ats) + close_text(sc),
                    ) implies (r matches Ok(t) && t.0.name@ == local_part(nm) && attr_views(
                    t.0.attrs@,
                ) == ats && t.0.self_closing == sc && t.1 == pos + ("<"@ + nm + attrs_chars(ats)
                    + close_text(sc)).len()) by {
                    assert(match_at(s@, ne as int, attrs_chars(ats) + close_text(sc)));
                }
            }
            r
        },
        Err(e) => {
            let r = Err(e);
            proof {
                assert forall|nm: Seq<char>, ats: Seq<(Seq<char>, Seq<char>)>, sc: bool|
                    wf_raw_name(nm) && wf_raw_attrs(ats) && #[trigger] match_at(
                        s@,
                        pos as int,
                        "<"@ + nm + attrs_chars(ats) + close_text(sc),
                    ) implies false by {
                    assert(match_at(s@, ne as int, attrs_chars(ats) + close_text(sc)));
                }
            }
            r
        },
    }
}

/// A run of whitespace only.
pub open spec fn ws_only(s: Seq<char>) -> bool {
    forall|i: int| 0 <= i < s.len() ==> is_ws_char(#[trigger] s[i])
}

/// A body with whitespace runs around it.
pub open spec fn padded(lead: Seq<char>, body: Seq<char>, trail: Seq<char>) -> Seq<char> {
    lead + body + trail
}

/// Position `w0` holds the first character of an ordinary element: only
/// whitespace before it, then `<` followed by neither `?` nor `!`.
pub open spec fn direct_elem_at(s: Seq<char>, pos: int, w0: int) -> bool {
    pos <= w0 && w0 + 1 < s.len() && (forall|m: int| pos <= m < w0 ==> is_ws_char(#[trigger] s[m]))
        && s[w0] == '<' && s[w0 + 1] != '?' && s[w0 + 1] != '!'
}

/// Skips whitespace, processing instructions (such as the XML
/// declaration) and comments standing before an element.  Whitespace
/// followed by an ordinary tag is consumed up to the tag exactly.  An
/// unterminated instruction or comment is left for the element parser to
/// judge.
pub fn skip_misc(s: &Vec<char>, pos: usize) -> (r: usize)
    requires
        pos <= s@.len(),
    ensures
        pos <= r <= s@.len(),
        forall|w0: int| #[trigger] direct_elem_at(s@, pos as int, w0) ==> r == w0,
{
    let mut cur = pos;
    loop
        invariant
            pos <= cur <= s@.len(),
            forall|w0: int| #[trigger] direct_elem_at(s@, pos as int, w0) ==> cur == pos,
        decreases s@.len() - cur,
    {
        let w = skip_ws(s, cur);
        proof {
            assert forall|w0: int| #[trigger] direct_elem_at(s@, pos as int, w0) implies w
                == w0 by {
                assert(cur == pos);
                assert(w <= w0) by {
                    if w > w0 {
                        assert(is_ws_char(s@[w0 as int]));
                    }
                }
                assert(w >= w0) by {
                    if w < w0 {
                        assert(is_ws_char(s@[w as int]));
                        assert(!is_ws_char(s@[w as int]));
                    }
                }
            }
        }
        if w < s.len() && w + 1 < s.len() && s[w] == '<' && s[w + 1] == '?' {
            proof {
                assert forall|w0: int| #[trigger] direct_elem_at(s@, pos as int, w0) implies
                    false by {
                    assert(w == w0);
                }
            }
            // a processing instruction: skip past its closing `?>`
            let mut j = w + 2;
            while j < s.len() && j + 1 < s.len() && !(s[j] == '?' && s[j + 1] == '>')
                invariant
                    w + 2 <= j <= s@.len(),
                decreases s@.len() - j,
            {
                j += 1;
            }
            if j >= s.len() || j + 1 >= s.len() {
                return w;
            }
            cur = j + 2;
        } else if w < s.len() && w + 1 < s.len() && w + 2 < s.len() && w + 3 < s.len() && s[w]
            == '<' && s[w + 1] == '!' && s[w + 2] == '-' && s[w + 3] == '-' {
            proof {
                assert forall|w0: int| #[trigger] direct_elem_at(s@, pos as int, w0) implies
                    false by {
                    assert(w == w0);
                }
            }
            // a comment: skip past its closing `-->`
            let mut j = w + 4;
            while j < s.len() && j + 1 < s.len() && j + 2 < s.len() && !(s[j] == '-' && s[j + 1]
                == '-' && s[j + 2] == '>')
                invariant
                    w + 4 <= j <= s@.len(),
                decreases s@.len() - j,
            {
                j += 1;
            }
            if j >= s.len() || j + 1 >= s.len() || j + 2 >= s.len() {
                return w;
            }
            cur = j + 3;
        } else {
            return w;
        }
    }
}

/// A namespace prefix as written before a local name: empty, or name
/// characters ending in a single `:`, not spelling a namespace
/// declaration.
pub open spec fn wf_ns_prefix(p: Seq<char>) -> bool {
    p.len() == 0 || (p[p.len() - 1] == ':' && (forall|i: int|
        0 <= i < p.len() - 1 ==> is_name_char(#[trigger] p[i]) && p[i] != ':') && !(p.len() >= 6
        && p.take(5) == "xmlns"@) && p[0] != '?' && p[0] != '!')
}

/// A well-formed prefix put before a canonical name gives a wire name that
/// strips back to that name and is no namespace declaration.
pub proof fn lemma_prefixed_name(p: Seq<char>, n: Seq<char>)
    requires
        wf_ns_prefix(p),
        wf_attr_name(n),
    ensures
        wf_raw_name(p + n),
        local_part(p + n) == n,
        p.len() > 0 ==> !is_xmlns(p + n),
{
    let w = p + n;
    assert(wf_raw_name(w)) by {
        assert forall|i: int| 0 <= i < w.len() implies is_name_char(#[trigger] w[i]) by {
            if i < p.len() {
                assert(w[i] == p[i]);
                if i == p.len() - 1 {
                    assert(w[i] == ':');
                    assert(is_name_char(':'));
                }
            } else {
                assert(w[i] == n[i - p.len()]);
            }
        }
    }
    if p.len() == 0 {
        assert(w =~= n);
        lemma_local_part_plain(n);
    } else {
        lemma_colon_index(w);
        assert(colon_index(w) == p.len() - 1) by {
            if colon_index(w) < p.len() - 1 {
                assert(w[colon_index(w)] == ':');
                assert(w[colon_index(w)] == p[colon_index(w)]);
            }
            if colon_index(w) > p.len() - 1 {
                assert(w[p.len() - 1] != ':');
                assert(w[p.len() - 1] == p[p.len() - 1]);
            }
        }
        assert(w.skip(colon_index(w) + 1) =~= n);
        assert(!is_xmlns(w)) by {
            reveal_strlit("xmlns");
            assert("xmlns"@.len() == 5);
            if is_xmlns(w) {
                if p.len() <= 5 {
                    assert(w.take(5)[p.len() - 1] == w[p.len() - 1]);
                    assert(w[p.len() - 1] == ':');
                    assert(forall|i: int|
                        0 <= i < 5 ==> ("xmlns"@[i] == 'x' || "xmlns"@[i] == 'm' || "xmlns"@[i]
                            == 'l' || "xmlns"@[i] == 'n' || "xmlns"@[i] == 's'));
                } else {
                    assert(p.take(5) =~= w.take(5));
                }
            }
        }
    }
}

/// A canonical name is its own wire spelling and local part.
pub proof fn lemma_wf_name_raw(n: Seq<char>)
    requires
        wf_attr_name(n),
    ensures
        wf_raw_name(n),
        local_part(n) == n,
{
    assert forall|i: int| 0 <= i < n.len() implies is_name_char(#[trigger] n[i]) by {}
    lemma_local_part_plain(n);
}

/// The canonical text of a close tag.
pub open spec fn close_tag_chars(name: Seq<char>) -> Seq<char> {
    "</"@ + name + ">"@
}

/// Parses a close tag `</name >` at `pos` (whitespace allowed before it)
/// and checks that its local name is `expected`.  On the exact canonical
/// close tag of any raw spelling whose local part is `expected` (a
/// namespace prefix included), the parse succeeds and consumes exactly it.
#[verifier::rlimit(100)]
pub fn parse_close_tag(s: &Vec<char>, pos: usize, expected: &str) -> (r: Result<usize,
    ReaderError>)
    requires
        pos <= s@.len(),
    ensures
        r matches Ok(t) ==> pos < t <= s@.len(),
        forall|rw: Seq<char>|
            wf_raw_name(rw) && local_part(rw) == expected@ && #[trigger] match_at(
                s@,
                pos as int,
                close_tag_chars(rw),
            ) ==> (r matches Ok(t) && t == pos + close_tag_chars(rw).len()),
{
    proof {
        reveal_strlit("</");
        reveal_strlit(">");
        assert("</"@.len() == 2);
        assert(">"@.len() == 1);
        assert forall|rw: Seq<char>|
            wf_raw_name(rw) && local_part(rw) == expected@ && #[trigger] match_at(
                s@,
                pos as int,
                close_tag_chars(rw),
            ) implies s@[pos as int] == '<' && s@[pos + 1] == '/' && (forall|i: int|
            0 <= i < rw.len() ==> s@[pos + 2 + i] == rw[i]) && (forall|m: int|
            pos + 2 <= m < pos + 2 + rw.len() ==> is_name_char(#[trigger] s@[m])) && s@[pos + 2
            + rw.len() as int] == '>' && pos + 3 + rw.len() <= s@.len() by {
            let t = close_tag_chars(rw);
            lemma_match_index(s@, pos as int, t, 0);
            lemma_match_index(s@, pos as int, t, 1);
            assert forall|i: int| 0 <= i < rw.len() implies s@[pos + 2 + i] == rw[i] by {
                lemma_match_index(s@, pos as int, t, 2 + i);
                assert(t[2 + i] == rw[i]);
            }
            assert forall|m: int|
                pos + 2 <= m < pos + 2 + rw.len() implies is_name_char(#[trigger] s@[m]) by {
                assert(s@[pos + 2 + (m - pos - 2)] == rw[m - pos - 2]);
                assert(is_name_char(rw[m - pos - 2]));
            }
            assert(s@[pos + 2 + rw.len() as int] == '>') by {
                lemma_match_index(s@, pos as int, t, 2 + rw.len() as int);
                assert(t[2 + rw.len() as int] == '>');
            }
        }
    }
    let w = skip_ws(s, pos);
    proof {
        assert forall|rw: Seq<char>|
            wf_raw_name(rw) && local_part(rw) == expected@ && #[trigger] match_at(
                s@,
                pos as int,
                close_tag_chars(rw),
            ) implies w == pos by {
            if w > pos {
                assert(is_ws_char(s@[pos as int]));
            }
        }
    }
    if w >= s.len() || s[w] != '<' {
        return Err(ReaderError::Malformed(String::from_str("expected close tag")));
    }
    if w + 1 >= s.len() || s[w + 1] != '/' {
        return Err(ReaderError::Malformed(String::from_str("expected close tag")));
    }
    let ne = scan_name(s, w + 2);
    proof {
        assert forall|rw: Seq<char>|
            wf_raw_name(rw) && local_part(rw) == expected@ && #[trigger] match_at(
                s@,
                pos as int,
                close_tag_chars(rw),
            ) implies ne == pos + 2 + rw.len() by {
            if ne < pos + 2 + rw.len() {
                assert(is_name_char(s@[ne as int]));
            }
            if ne > pos + 2 + rw.len() {
                assert(is_name_char(s@[pos + 2 + rw.len() as int]));
            }
        }
    }
    if ne == w + 2 {
        return Err(ReaderError::Malformed(String::from_str("expected close tag name")));
    }
    let raw_chars = chars_substring(s, w + 2, ne);
    let raw = chars_to_string(&raw_chars);
    let name = local_name(raw.as_str());
    proof {
        assert forall|rw: Seq<char>|
            wf_raw_name(rw) && local_part(rw) == expected@ && #[trigger] match_at(
                s@,
                pos as int,
                close_tag_chars(rw),
            ) implies name@ == expected@ by {
            assert(raw@ =~= rw) by {
                assert forall|i: int| 0 <= i < rw.len() implies raw@[i] == rw[i] by {
                    assert(s@.subrange(pos + 2, ne as int)[i] == s@[pos + 2 + i]);
                }
            }
        }
    }
    if !crate::strings::str_eq(name.as_str(), expected) {
        return Err(ReaderError::Malformed(String::from_str("mismatched close tag")));
    }
    let e = skip_ws(s, ne);
    proof {
        assert forall|rw: Seq<char>|
            wf_raw_name(rw) && local_part(rw) == expected@ && #[trigger] match_at(
                s@,
                pos as int,
                close_tag_chars(rw),
            ) implies e == ne && s@[e as int] == '>' && e + 1 == pos + close_tag_chars(
            rw,
        ).len() by {
            assert(e == ne) by {
                if e > ne {
                    assert(is_ws_char(s@[ne as int]));
                }
            }
        }
    }
    if e >= s.len() || s[e] != '>' {
        return Err(ReaderError::Malformed(String::from_str("malformed close tag")));
    }
    Ok(e + 1)
}

} // verus!
