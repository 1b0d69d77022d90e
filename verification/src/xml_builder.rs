//! The serialization engine: accumulates XML markup for one element and its
//! children depth-first, guaranteeing well-formed nesting and deterministic,
//! schema-exact attribute ordering.
//!
//! An open tag stays *pending* (its head `<tag attrs` is emitted without the
//! closing `>`) until a child arrives; closing a pending tag collapses it to
//! the self-closing form `<tag attrs />`.  Every tag shape is pre-registered
//! as a dedicated method — never free-form — and attribute values are
//! pre-formatted strings supplied by the calling element.

use vstd::prelude::*;
use vstd::utf8::encode_utf8;

verus! {

/// The write entry point of every element: `xml` is the exact character
/// sequence of the element's markup, `build` returns its UTF-8 bytes.
pub trait BuildXML {
    /// The exact markup of this element and its descendants.
    spec fn xml(&self) -> Seq<char>;

    /// The markup as a string.
    fn build_xml(&self) -> (r: String)
        ensures
            r@ == self.xml(),
    ;

    /// The markup as its UTF-8 byte sequence.
    fn build(&self) -> (r: Vec<u8>)
        ensures
            r@ == encode_utf8(self.xml()),
    {
        let s = self.build_xml();
        s.as_str().as_bytes_vec()
    }
}

/// Building is idempotent: the markup of an element is a function of the
/// element alone, so any two builds of an unchanged tree are byte-identical.
pub proof fn lemma_build_deterministic<T: BuildXML>(x: &T, b1: Seq<u8>, b2: Seq<u8>)
    requires
        b1 == encode_utf8(x.xml()),
        b2 == encode_utf8(x.xml()),
    ensures
        b1 == b2,
{
}

/// The markup of a sequence of elements, in order.
pub open spec fn seq_xml<T: BuildXML>(s: Seq<T>) -> Seq<char>
    decreases s.len(),
{
    if s.len() == 0 {
        Seq::<char>::empty()
    } else {
        seq_xml(s.drop_last()) + s.last().xml()
    }
}

pub struct XMLBuilder {
    buf: String,
    closers: Vec<String>,
    pending: bool,
}

impl XMLBuilder {
    /// The markup accumulated so far.
    pub closed spec fn buf_chars(self) -> Seq<char> {
        self.buf@
    }

    /// The end tags of the elements that are still open, innermost last.
    pub closed spec fn closers_view(self) -> Seq<Seq<char>> {
        self.closers.deep_view()
    }

    /// Whether the innermost open tag still lacks its closing `>`.
    pub closed spec fn is_pending(self) -> bool {
        self.pending
    }

    pub open spec fn wf(self) -> bool {
        self.is_pending() ==> self.closers_view().len() > 0
    }

    /// The accumulated markup once the innermost head is completed.
    pub open spec fn sealed(self) -> Seq<char> {
        self.buf_chars() + if self.is_pending() {
            ">"@
        } else {
            Seq::<char>::empty()
        }
    }

    pub fn new() -> (r: Self)
        ensures
            r.wf(),
            r.buf_chars() == Seq::<char>::empty(),
            r.closers_view() == Seq::<Seq<char>>::empty(),
            !r.is_pending(),
    {
        let r = XMLBuilder { buf: String::new(), closers: Vec::new(), pending: false };
        proof {
            assert(r.closers.deep_view() =~= Seq::<Seq<char>>::empty());
        }
        r
    }

    /// Completes the innermost head with `>` if it is still pending.
    fn seal(self) -> (r: Self)
        requires
            self.wf(),
        ensures
            r.wf(),
            r.buf_chars() == self.sealed(),
            r.closers_view() == self.closers_view(),
            !r.is_pending(),
    {
        let mut s = self;
        if s.pending {
            s.buf.append(">");
            s.pending = false;
        } else {
            proof {
                assert(s.buf@ =~= s.buf@ + Seq::<char>::empty());
            }
        }
        s
    }

    /// Appends `text` after sealing the innermost head.
    fn emit(self, text: &str) -> (r: Self)
        requires
            self.wf(),
        ensures
            r.wf(),
            r.buf_chars() == self.sealed() + text@,
            r.closers_view() == self.closers_view(),
            !r.is_pending(),
    {
        let mut s = self.seal();
        s.buf.append(text);
        s
    }

    /// Appends `text` without sealing (continues a pending head).
    fn emit_raw(self, text: &str) -> (r: Self)
        ensures
            r.wf() == self.wf(),
            r.buf_chars() == self.buf_chars() + text@,
            r.closers_view() == self.closers_view(),
            r.is_pending() == self.is_pending(),
    {
        let mut s = self;
        s.buf.append(text);
        s
    }

    /// Opens an element: seals the current head, emits `head` (the text
    /// `<tag` followed by the tag's attributes, without `>`), and registers
    /// `closer` (the matching end tag `</tag>`).
    fn open_el(self, head: &str, closer: &str) -> (r: Self)
        requires
            self.wf(),
        ensures
            r.wf(),
            r.buf_chars() == self.sealed() + head@,
            r.closers_view() == self.closers_view().push(closer@),
            r.is_pending(),
    {
        let mut s = self.seal();
        s.buf.append(head);
        let c = String::from_str(closer);
        s.closers.push(c);
        s.pending = true;
        proof {
            assert(s.closers.deep_view() =~= self.closers.deep_view().push(closer@));
        }
        s
    }

    /// Closes the innermost open element: a pending head collapses to the
    /// self-closing form ` />`, otherwise the registered end tag is emitted.
    pub fn close(self) -> (r: Self)
        requires
            self.wf(),
            self.closers_view().len() > 0,
        ensures
            r.wf(),
            r.buf_chars() == self.buf_chars() + if self.is_pending() {
                " />"@
            } else {
                self.closers_view().last()
            },
            r.closers_view() == self.closers_view().drop_last(),
            !r.is_pending(),
    {
        let mut s = self;
        let closer = s.closers.pop().unwrap();
        if s.pending {
            s.buf.append(" />");
            s.pending = false;
        } else {
            s.buf.append(closer.as_str());
        }
        proof {
            assert(s.closers.deep_view() =~= self.closers.deep_view().drop_last());
        }
        s
    }

    /// Splices a child's markup verbatim at the current position.
    pub fn add_child<T: BuildXML>(self, child: &T) -> (r: Self)
        requires
            self.wf(),
        ensures
            r.wf(),
            r.buf_chars() == self.sealed() + child.xml(),
            r.closers_view() == self.closers_view(),
            !r.is_pending(),
    {
        let c = child.build_xml();
        self.emit(c.as_str())
    }

    /// Consumes the builder and returns the accumulated markup.
    pub fn build(self) -> (r: String)
        requires
            self.wf(),
            self.closers_view().len() == 0,
        ensures
            r@ == self.buf_chars(),
    {
        self.buf
    }

    /// `<w:abstractNum w:abstractNumId="ID"` (pending).
    pub fn open_abstract_num(self, id: &str) -> (r: Self)
        requires
            self.wf(),
        ensures
            r.wf(),
            r.buf_chars() == self.sealed() + "<w:abstractNum w:abstractNumId=\""@ + id@ + "\""@,
            r.closers_view() == self.closers_view().push("</w:abstractNum>"@),
            r.is_pending(),
    {
        let s = self.open_el("<w:abstractNum w:abstractNumId=\"", "</w:abstractNum>");
        let s = s.emit_raw(id);
        let s = s.emit_raw("\"");
        proof {
            assert(s.buf_chars() =~= self.sealed() + "<w:abstractNum w:abstractNumId=\""@ + id@
                + "\""@);
        }
        s
    }

    /// `<w:lvl w:ilvl="ILVL"` (pending).
    pub fn open_level(self, ilvl: &str) -> (r: Self)
        requires
            self.wf(),
        ensures
            r.wf(),
            r.buf_chars() == self.sealed() + "<w:lvl w:ilvl=\""@ + ilvl@ + "\""@,
            r.closers_view() == self.closers_view().push("</w:lvl>"@),
            r.is_pending(),
    {
        let s = self.open_el("<w:lvl w:ilvl=\"", "</w:lvl>");
        let s = s.emit_raw(ilvl);
        let s = s.emit_raw("\"");
        proof {
            assert(s.buf_chars() =~= self.sealed() + "<w:lvl w:ilvl=\""@ + ilvl@ + "\""@);
        }
        s
    }

    /// A self-closing child of the shape `<TAG w:val="VAL" />`.  `open_lit`
    /// is the pre-registered text `<TAG w:val="`.
    fn closed_with_val(self, open_lit: &str, val: &str) -> (r: Self)
        requires
            self.wf(),
        ensures
            r.wf(),
            r.buf_chars() == self.sealed() + open_lit@ + val@ + "\" />"@,
            r.closers_view() == self.closers_view(),
            !r.is_pending(),
    {
        let s = self.emit(open_lit);
        let s = s.emit_raw(val);
        let s = s.emit_raw("\" />");
        proof {
            assert(s.buf_chars() =~= self.sealed() + open_lit@ + val@ + "\" />"@);
        }
        s
    }

    /// `<w:start w:val="VAL" />`.
    pub fn start(self, val: &str) -> (r: Self)
        requires
            self.wf(),
        ensures
            r.wf(),
            r.buf_chars() == self.sealed() + "<w:start w:val=\""@ + val@ + "\" />"@,
            r.closers_view() == self.closers_view(),
            !r.is_pending(),
    {
        self.closed_with_val("<w:start w:val=\"", val)
    }

    /// `<w:numFmt w:val="VAL" />`.
    pub fn num_fmt(self, val: &str) -> (r: Self)
        requires
            self.wf(),
        ensures
            r.wf(),
            r.buf_chars() == self.sealed() + "<w:numFmt w:val=\""@ + val@ + "\" />"@,
            r.closers_view() == self.closers_view(),
            !r.is_pending(),
    {
        self.closed_with_val("<w:numFmt w:val=\"", val)
    }

    /// `<w:lvlText w:val="VAL" />`.
    pub fn level_text(self, val: &str) -> (r: Self)
        requires
            self.wf(),
        ensures
            r.wf(),
            r.buf_chars() == self.sealed() + "<w:lvlText w:val=\""@ + val@ + "\" />"@,
            r.closers_view() == self.closers_view(),
            !r.is_pending(),
    {
        self.closed_with_val("<w:lvlText w:val=\"", val)
    }

    /// `<w:lvlJc w:val="VAL" />`.
    pub fn level_jc(self, val: &str) -> (r: Self)
        requires
            self.wf(),
        ensures
            r.wf(),
            r.buf_chars() == self.sealed() + "<w:lvlJc w:val=\""@ + val@ + "\" />"@,
            r.closers_view() == self.closers_view(),
            !r.is_pending(),
    {
        self.closed_with_val("<w:lvlJc w:val=\"", val)
    }

    /// `<w:pStyle w:val="VAL" />`.
    pub fn paragraph_style(self, val: &str) -> (r: Self)
        requires
            self.wf(),
        ensures
            r.wf(),
            r.buf_chars() == self.sealed() + "<w:pStyle w:val=\""@ + val@ + "\" />"@,
            r.closers_view() == self.closers_view(),
            !r.is_pending(),
    {
        self.closed_with_val("<w:pStyle w:val=\"", val)
    }

    /// `<w:pPr` (pending).
    pub fn open_paragraph_property(self) -> (r: Self)
        requires
            self.wf(),
        ensures
            r.wf(),
            r.buf_chars() == self.sealed() + "<w:pPr"@,
            r.closers_view() == self.closers_view().push("</w:pPr>"@),
            r.is_pending(),
    {
        self.open_el("<w:pPr", "</w:pPr>")
    }

    /// `<w:p` (pending).
    pub fn open_paragraph(self) -> (r: Self)
        requires
            self.wf(),
        ensures
            r.wf(),
            r.buf_chars() == self.sealed() + "<w:p"@,
            r.closers_view() == self.closers_view().push("</w:p>"@),
            r.is_pending(),
    {
        self.open_el("<w:p", "</w:p>")
    }

    /// `<w:r` (pending).
    pub fn open_run(self) -> (r: Self)
        requires
            self.wf(),
        ensures
            r.wf(),
            r.buf_chars() == self.sealed() + "<w:r"@,
            r.closers_view() == self.closers_view().push("</w:r>"@),
            r.is_pending(),
    {
        self.open_el("<w:r", "</w:r>")
    }

    /// `<w:rPr />`: an empty run-property element.
    pub fn run_property_default(self) -> (r: Self)
        requires
            self.wf(),
        ensures
            r.wf(),
            r.buf_chars() == self.sealed() + "<w:rPr />"@,
            r.closers_view() == self.closers_view(),
            !r.is_pending(),
    {
        self.emit("<w:rPr />")
    }

    /// `<w:t xml:space="preserve">TEXT</w:t>`.
    pub fn text(self, t: &str) -> (r: Self)
        requires
            self.wf(),
        ensures
            r.wf(),
            r.buf_chars() == self.sealed() + "<w:t xml:space=\"preserve\">"@ + t@ + "</w:t>"@,
            r.closers_view() == self.closers_view(),
            !r.is_pending(),
    {
        let s = self.emit("<w:t xml:space=\"preserve\">");
        let s = s.emit_raw(t);
        let s = s.emit_raw("</w:t>");
        proof {
            assert(s.buf_chars() =~= self.sealed() + "<w:t xml:space=\"preserve\">"@ + t@
                + "</w:t>"@);
        }
        s
    }

    /// `<w:tc` (pending).
    pub fn open_table_cell(self) -> (r: Self)
        requires
            self.wf(),
        ensures
            r.wf(),
            r.buf_chars() == self.sealed() + "<w:tc"@,
            r.closers_view() == self.closers_view().push("</w:tc>"@),
            r.is_pending(),
    {
        self.open_el("<w:tc", "</w:tc>")
    }

    /// `<w:tcPr` (pending).
    pub fn open_table_cell_property(self) -> (r: Self)
        requires
            self.wf(),
        ensures
            r.wf(),
            r.buf_chars() == self.sealed() + "<w:tcPr"@,
            r.closers_view() == self.closers_view().push("</w:tcPr>"@),
            r.is_pending(),
    {
        self.open_el("<w:tcPr", "</w:tcPr>")
    }

    /// `<w:tcBorders` (pending).
    pub fn open_table_cell_borders(self) -> (r: Self)
        requires
            self.wf(),
        ensures
            r.wf(),
            r.buf_chars() == self.sealed() + "<w:tcBorders"@,
            r.closers_view() == self.closers_view().push("</w:tcBorders>"@),
            r.is_pending(),
    {
        self.open_el("<w:tcBorders", "</w:tcBorders>")
    }

    /// A default single border: `<TAG w:val="single" w:sz="2" w:space="0"
    /// w:color="000000" />`, with `head` the pre-registered text `<TAG`.
    fn default_border(self, head: &str) -> (r: Self)
        requires
            self.wf(),
        ensures
            r.wf(),
            r.buf_chars() == self.sealed() + head@
                + " w:val=\"single\" w:sz=\"2\" w:space=\"0\" w:color=\"000000\" />"@,
            r.closers_view() == self.closers_view(),
            !r.is_pending(),
    {
        let s = self.emit(head);
        let s = s.emit_raw(" w:val=\"single\" w:sz=\"2\" w:space=\"0\" w:color=\"000000\" />");
        proof {
            assert(s.buf_chars() =~= self.sealed() + head@
                + " w:val=\"single\" w:sz=\"2\" w:space=\"0\" w:color=\"000000\" />"@);
        }
        s
    }

    /// The default top border.
    pub fn border_top(self) -> (r: Self)
        requires
            self.wf(),
        ensures
            r.wf(),
            r.buf_chars() == self.sealed() + "<w:top"@
                + " w:val=\"single\" w:sz=\"2\" w:space=\"0\" w:color=\"000000\" />"@,
            r.closers_view() == self.closers_view(),
            !r.is_pending(),
    {
        self.default_border("<w:top")
    }

    /// The default left border.
    pub fn border_left(self) -> (r: Self)
        requires
            self.wf(),
        ensures
            r.wf(),
            r.buf_chars() == self.sealed() + "<w:left"@
                + " w:val=\"single\" w:sz=\"2\" w:space=\"0\" w:color=\"000000\" />"@,
            r.closers_view() == self.closers_view(),
            !r.is_pending(),
    {
        self.default_border("<w:left")
    }

    /// The default bottom border.
    pub fn border_bottom(self) -> (r: Self)
        requires
            self.wf(),
        ensures
            r.wf(),
            r.buf_chars() == self.sealed() + "<w:bottom"@
                + " w:val=\"single\" w:sz=\"2\" w:space=\"0\" w:color=\"000000\" />"@,
            r.closers_view() == self.closers_view(),
            !r.is_pending(),
    {
        self.default_border("<w:bottom")
    }

    /// The default inside-horizontal border.
    pub fn border_inside_h(self) -> (r: Self)
        requires
            self.wf(),
        ensures
            r.wf(),
            r.buf_chars() == self.sealed() + "<w:insideH"@
                + " w:val=\"single\" w:sz=\"2\" w:space=\"0\" w:color=\"000000\" />"@,
            r.closers_view() == self.closers_view(),
            !r.is_pending(),
    {
        self.default_border("<w:insideH")
    }

    /// A complete comment-thread marker: `<commentEx paraId="PID"
    /// done="true|false"` then, if a parent is given, ` paraIdParent="PP"`,
    /// then `" />`.
    pub fn comment_extended(self, para_id: &str, done: bool, parent: &Option<String>) -> (r: Self)
        requires
            self.wf(),
        ensures
            r.wf(),
            r.buf_chars() == self.sealed() + "<commentEx paraId=\""@ + para_id@ + "\" done=\""@
                + (if done {
                    "true"@
                } else {
                    "false"@
                }) + (match parent {
                    Some(p) => "\" paraIdParent=\""@ + p@,
                    None => Seq::<char>::empty(),
                }) + "\" />"@,
            r.closers_view() == self.closers_view(),
            !r.is_pending(),
    {
        let s = self.emit("<commentEx paraId=\"");
        let s = s.emit_raw(para_id);
        let s = s.emit_raw("\" done=\"");
        let s = if done {
            s.emit_raw("true")
        } else {
            s.emit_raw("false")
        };
        let s = match parent {
            Some(p) => {
                let s = s.emit_raw("\" paraIdParent=\"");
                s.emit_raw(p.as_str())
            },
            None => s,
        };
        let s = s.emit_raw("\" />");
        proof {
            assert(s.buf_chars() =~= self.sealed() + "<commentEx paraId=\""@ + para_id@
                + "\" done=\""@ + (if done {
                "true"@
            } else {
                "false"@
            }) + (match parent {
                Some(p) => "\" paraIdParent=\""@ + p@,
                None => Seq::<char>::empty(),
            }) + "\" />"@);
        }
        s
    }
}

} // verus!
