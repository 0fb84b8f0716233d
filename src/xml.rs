//! Trees of XML documents: one node per element, labelled with its tag and
//! attributes, over its text and child elements. Documents are parsed by
//! roxmltree.
use crate::text::{trim, trimmed};
use crate::tree::{lemma_values_of_push, values_of, Tree, TreeValue};
use roxmltree::Node as XmlNode;
use vstd::prelude::*;

verus! {

/// An attribute of an element.
pub struct XmlAttribute {
    pub name: String,
    pub value: String,
}

/// Something an element holds.
pub enum XmlChild {
    /// Character data, as written.
    Text(String),
    /// A child element.
    Element(XmlElement),
    /// A comment or processing instruction.
    Other,
}

/// An element: its tag name, attributes and contents, in document order.
pub struct XmlElement {
    pub name: String,
    pub attributes: Vec<XmlAttribute>,
    pub children: Vec<XmlChild>,
}

/// The first `k` attributes as `name=value`, separated by ", ".
pub open spec fn attributes_text(a: Seq<XmlAttribute>, k: int) -> Seq<char>
    decreases k,
{
    if k <= 0 || k > a.len() {
        Seq::empty()
    } else {
        (if k == 1 {
            Seq::empty()
        } else {
            attributes_text(a, k - 1) + ", "@
        }) + a[k - 1].name@ + "="@ + a[k - 1].value@
    }
}

/// The label of an element: its tag name, then its attributes in brackets
/// if it has any.
pub open spec fn element_label(e: XmlElement) -> Seq<char> {
    e.name@ + if e.attributes.len() == 0 {
        Seq::empty()
    } else {
        " ["@ + attributes_text(e.attributes@, e.attributes.len() as int) + "]"@
    }
}

/// The tree of an element: a node over the trees of its contents, or a leaf
/// of its label where it has none.
pub open spec fn element_tree(e: XmlElement) -> TreeValue
    decreases e, 0int,
{
    let kids = content_trees(e.children@, e.children.len() as int);
    if kids.len() == 0 {
        TreeValue::Leaf(seq![element_label(e)])
    } else {
        TreeValue::Node(element_label(e), kids)
    }
}

/// The trees of the first `k` contents: text that is not blank, trimmed, as
/// a leaf "text: ..."; each child element as its tree; nothing for the rest.
pub open spec fn content_trees(cs: Seq<XmlChild>, k: int) -> Seq<TreeValue>
    decreases cs, k,
{
    if k <= 0 || k > cs.len() {
        Seq::empty()
    } else {
        content_trees(cs, k - 1) + match cs[k - 1] {
            XmlChild::Text(t) => if trimmed(t@).len() > 0 {
                seq![TreeValue::Leaf(seq!["text: "@ + trimmed(t@)])]
            } else {
                Seq::empty()
            },
            XmlChild::Element(x) => seq![element_tree(x)],
            XmlChild::Other => Seq::empty(),
        }
    }
}

/// The label of `e`.
fn label_of(e: &XmlElement) -> (r: String)
    ensures
        r@ == element_label(*e),
{
    let mut s = e.name.clone();
    let n = e.attributes.len();
    if n == 0 {
        return s;
    }
    s.append(" [");
    let ghost start = s@;
    let mut i: usize = 0;
    while i < n
        invariant
            n == e.attributes@.len(),
            i <= n,
            s@ == start + attributes_text(e.attributes@, i as int),
        decreases n - i,
    {
        if i > 0 {
            s.append(", ");
        }
        s.append(e.attributes[i].name.as_str());
        s.append("=");
        s.append(e.attributes[i].value.as_str());
        i = i + 1;
    }
    s.append("]");
    s
}

impl Tree {
    /// The tree of an element, as `element_tree` describes it.
    pub fn from_xml_element(e: &XmlElement) -> (r: Tree)
        ensures
            r@ == element_tree(*e),
        decreases e,
    {
        let label = label_of(e);
        let mut out: Vec<Tree> = Vec::new();
        let mut i: usize = 0;
        while i < e.children.len()
            invariant
                i <= e.children@.len(),
                values_of(out@) == content_trees(e.children@, i as int),
            decreases e.children@.len() - i,
        {
            proof {
                assert(decreases_to!(*e => e.children));
                assert(decreases_to!(e.children => e.children@));
                assert(decreases_to!(e.children@ => e.children@[i as int]));
            }
            match &e.children[i] {
                XmlChild::Text(t) => {
                    let tt = trim(t.as_str());
                    if tt.unicode_len() > 0 {
                        let mut line = String::from_str("text: ");
                        line.append(tt);
                        let mut lines: Vec<String> = Vec::new();
                        lines.push(line);
                        let leaf = Tree::Leaf(lines);
                        assert(leaf@ == TreeValue::Leaf(seq!["text: "@ + trimmed(t@)])) by {
                            assert(crate::tree::texts(lines@) =~= seq!["text: "@ + trimmed(t@)]);
                        }
                        proof {
                            lemma_values_of_push(out@, leaf);
                        }
                        out.push(leaf);
                    }
                },
                XmlChild::Element(x) => {
                    proof {
                        assert(decreases_to!(e.children@[i as int] => x));
                    }
                    let c = Tree::from_xml_element(x);
                    proof {
                        lemma_values_of_push(out@, c);
                    }
                    out.push(c);
                },
                XmlChild::Other => {},
            }
            i = i + 1;
        }
        proof {
            crate::tree::lemma_values_of(out@);
        }
        if out.len() == 0 {
            let mut lines: Vec<String> = Vec::new();
            lines.push(label);
            assert(crate::tree::texts(lines@) =~= seq![element_label(*e)]);
            Tree::Leaf(lines)
        } else {
            Tree::Node(label, out)
        }
    }
}

#[verifier::external_type_specification]
#[verifier::external_body]
pub struct ExXmlError(roxmltree::Error);

#[verifier::external_type_specification]
#[verifier::external_body]
pub struct ExXmlNode<'a, 'input: 'a>(roxmltree::Node<'a, 'input>);

#[verifier::external_type_specification]
#[verifier::external_body]
pub struct ExXmlDocument<'input>(roxmltree::Document<'input>);

/// Relies on roxmltree's `Node` accessors to turn an element into an
/// `XmlElement`: its tag's local name, each attribute's local name and
/// value, and each child as an element, a text node with its text, or
/// anything else.
#[verifier::external_body]
fn xml_element(n: XmlNode) -> XmlElement {
    XmlElement {
        name: n.tag_name().name().to_string(),
        attributes: n.attributes().map(
            |a| XmlAttribute { name: a.name().to_string(), value: a.value().to_string() },
        ).collect(),
        children: n.children().map(|c| if c.is_element() {
            XmlChild::Element(xml_element(c))
        } else if c.is_text() {
            XmlChild::Text(c.text().unwrap_or("").to_string())
        } else {
            XmlChild::Other
        }).collect(),
    }
}

/// Whether `s` is a document that roxmltree parses.
pub uninterp spec fn is_xml_document(s: Seq<char>) -> bool;

/// Relies on roxmltree::Document::parse to parse a document; whether it
/// succeeds depends on the text alone.
#[verifier::external_body]
fn parse_xml(s: &str) -> (r: Result<roxmltree::Document<'_>, roxmltree::Error>)
    ensures
        r is Ok <==> is_xml_document(s@),
{
    roxmltree::Document::parse(s)
}

/// Relies on roxmltree::Document::root_element for the document's root element.
#[verifier::external_body]
fn root_element<'a, 'input>(d: &'a roxmltree::Document<'input>) -> roxmltree::Node<'a, 'input> {
    d.root_element()
}

impl Tree {
    /// The tree of an XML document's root element.
    pub fn from_xml(xml_str: &str) -> (r: Result<Tree, roxmltree::Error>)
        ensures
            r is Ok <==> is_xml_document(xml_str@),
            r is Ok ==> exists|e: XmlElement| r->Ok_0@ == #[trigger] element_tree(e),
    {
        match parse_xml(xml_str) {
            Ok(doc) => {
                let e = xml_element(root_element(&doc));
                Ok(Tree::from_xml_element(&e))
            },
            Err(err) => Err(err),
        }
    }
}

} // verus!
