//! The markup face of the document parser: trusted access to the HTML
//! tree that `kuchiki` builds.  Parsing a fixed text with fixed selectors
//! is deterministic, so the flattened heading/sibling structure of a
//! document is a function of its text alone; [`doc_of`] names that
//! function, the trusted accessors below each deliver one projection of
//! it, and the verified [`extract_doc`] assembles the whole.

use kuchiki::traits::TendrilSink;
use vstd::prelude::*;

verus! {

/// The characters that a Latin-1 byte string decodes to: each byte is the
/// character with the same code point.
pub open spec fn latin1_of(b: Seq<u8>) -> Seq<char> {
    Seq::new(b.len(), |i: int| b[i] as char)
}

/// Relies on `encoding_rs::mem::decode_latin1`: each byte decodes to the
/// character with the same code point.
#[verifier::external_body]
pub(crate) fn decode_latin1(bytes: &Vec<u8>) -> (r: String)
    ensures
        r@ == latin1_of(bytes@),
{
    encoding_rs::mem::decode_latin1(bytes.as_slice()).to_string()
}

/// One sibling node of a heading, reduced to what the parser reads.
pub enum SibNode {
    /// An element node: a line break, or a value-bearing markup node with
    /// its text content.
    Element { is_br: bool, text: String },
    /// A text node.
    Text { text: String },
}

/// Ghost image of a [`SibNode`].
#[verifier::ext_equal]
pub ghost enum SibNodeV {
    Element { is_br: bool, text: Seq<char> },
    Text { text: Seq<char> },
}

impl View for SibNode {
    type V = SibNodeV;

    open spec fn view(&self) -> SibNodeV {
        match self {
            SibNode::Element { is_br, text } => SibNodeV::Element { is_br: *is_br, text: text@ },
            SibNode::Text { text } => SibNodeV::Text { text: text@ },
        }
    }
}

impl DeepView for SibNode {
    type V = SibNodeV;

    open spec fn deep_view(&self) -> SibNodeV {
        self.view()
    }
}

/// A non-centered heading together with its following siblings.
pub struct RawHeading {
    /// The heading's text content.
    pub text: String,
    /// The sibling nodes after the heading, in document order.
    pub nodes: Vec<SibNode>,
}

/// Ghost image of a [`RawHeading`].
#[verifier::ext_equal]
pub ghost struct RawHeadingV {
    pub text: Seq<char>,
    pub nodes: Seq<SibNodeV>,
}

impl View for RawHeading {
    type V = RawHeadingV;

    open spec fn view(&self) -> RawHeadingV {
        RawHeadingV { text: self.text@, nodes: self.nodes.deep_view() }
    }
}

impl DeepView for RawHeading {
    type V = RawHeadingV;

    open spec fn deep_view(&self) -> RawHeadingV {
        self.view()
    }
}

/// The flattened form of one export document: the text of the first
/// centered heading, and the non-centered headings with their siblings.
pub struct SetupDoc {
    /// Text of the first centered level-2 heading, if one exists.
    pub header: Option<String>,
    /// The non-centered level-2 headings, in document order.
    pub groups: Vec<RawHeading>,
}

/// Ghost image of a [`SetupDoc`].
#[verifier::ext_equal]
pub ghost struct SetupDocV {
    pub header: Option<Seq<char>>,
    pub groups: Seq<RawHeadingV>,
}

impl View for SetupDoc {
    type V = SetupDocV;

    open spec fn view(&self) -> SetupDocV {
        SetupDocV {
            header: match &self.header {
                Some(h) => Some(h@),
                None => None,
            },
            groups: self.groups.deep_view(),
        }
    }
}

/// The flattened form of the document that `kuchiki` parses from a text:
/// the text content of the first `h2[align="center"]` element, and, for
/// each `h2:not([align="center"])` element in document order, its text
/// content and its following siblings, each sibling reduced to a line
/// break, another element with its text content, or a text node.
pub uninterp spec fn doc_of(html: Seq<char>) -> SetupDocV;

/// Relies on `kuchiki::parse_html`, `NodeRef::select` with the selector
/// `h2[align="center"]`, and `NodeRef::text_contents`: the text of the
/// document's first centered level-2 heading, the header field of the
/// flattened document.
#[verifier::external_body]
fn extract_header(html: &str) -> (r: Option<String>)
    ensures
        match r {
            Some(h) => doc_of(html@).header == Some(h@),
            None => doc_of(html@).header is None,
        },
{
    let doc = kuchiki::parse_html().one(html);
    match doc.select(r#"h2[align="center"]"#) {
        Ok(mut it) => it.next().map(|n| n.text_contents()),
        Err(()) => None,
    }
}

/// Relies on `kuchiki::parse_html`, `NodeRef::select` with the selector
/// `h2:not([align="center"])`, and `NodeRef::text_contents`: the texts of
/// the document's non-centered level-2 headings, in document order — the
/// heading texts of the flattened document's groups.
#[verifier::external_body]
fn extract_group_texts(html: &str) -> (r: Vec<String>)
    ensures
        r.deep_view() == doc_of(html@).groups.map(|i: int, g: RawHeadingV| g.text),
{
    let doc = kuchiki::parse_html().one(html);
    match doc.select(r#"h2:not([align="center"])"#) {
        Ok(it) => it.map(|n| n.text_contents()).collect(),
        Err(()) => Vec::new(),
    }
}

/// Relies on `kuchiki::parse_html`, `NodeRef::select` as above,
/// `NodeRef::following_siblings`, `Node::as_element` and
/// `NodeRef::text_contents`: the classified siblings after the document's
/// `i`-th non-centered level-2 heading — the node list of the flattened
/// document's `i`-th group.
#[verifier::external_body]
fn extract_group_nodes(html: &str, i: usize) -> (r: Vec<SibNode>)
    requires
        i < doc_of(html@).groups.len(),
    ensures
        r.deep_view() == doc_of(html@).groups[i as int].nodes,
{
    let doc = kuchiki::parse_html().one(html);
    let heading = doc.select(r#"h2:not([align="center"])"#).ok().and_then(|mut it| it.nth(i));
    match heading {
        None => Vec::new(),
        Some(h) => h.as_node().following_siblings().map(|n| match n.as_element() {
            Some(e) if &e.name.local == "br" => SibNode::Element { is_br: true, text: String::new() },
            Some(_) => SibNode::Element { is_br: false, text: n.text_contents() },
            None => SibNode::Text { text: n.text_contents() },
        }).collect(),
    }
}

/// Flatten a document's markup into the plain structure the parser reads.
/// The result is exactly the named flattened form of the text, so callers
/// can carry parsing contracts through to the raw document text.
pub fn extract_doc(html: &str) -> (doc: SetupDoc)
    ensures
        doc@ == doc_of(html@),
{
    let header = extract_header(html);
    let texts = extract_group_texts(html);
    let ghost gv = doc_of(html@).groups;
    let mut groups: Vec<RawHeading> = Vec::new();
    let mut i: usize = 0;
    while i < texts.len()
        invariant
            0 <= i <= texts@.len(),
            texts.deep_view() == gv.map(|x: int, g: RawHeadingV| g.text),
            gv == doc_of(html@).groups,
            groups.deep_view() =~= gv.take(i as int),
        decreases texts@.len() - i,
    {
        proof {
            assert(texts.deep_view().len() == texts@.len());
            assert(texts.deep_view().len() == gv.len());
        }
        let nodes = extract_group_nodes(html, i);
        let ghost old_groups = groups.deep_view();
        proof {
            assert(texts.deep_view()[i as int] == texts@[i as int]@);
            assert(texts.deep_view()[i as int] == gv[i as int].text);
        }
        groups.push(RawHeading { text: texts[i].clone(), nodes });
        proof {
            assert(groups.deep_view() =~~= old_groups.push(gv[i as int]));
            assert(groups.deep_view() =~= gv.take(i + 1));
        }
        i = i + 1;
    }
    proof {
        assert(texts.deep_view().len() == texts@.len());
        assert(texts.deep_view().len() == gv.len());
        assert(gv.take(texts@.len() as int) =~= gv);
    }
    let doc = SetupDoc { header, groups };
    proof {
        assert(doc@ =~~= doc_of(html@));
    }
    doc
}

} // verus!
