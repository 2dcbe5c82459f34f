use vstd::prelude::*;
use crate::parse::{parse_score, read_score};
use crate::types::ScorePartwise;
use crate::xml::{XmlElement, XmlElementView, XmlNode};
use xmltree::Element as TreeElement;

verus! {

/// The element of an xmltree tree, opaque here.
#[verifier::external_type_specification]
#[verifier::external_body]
pub struct ExTreeElement(TreeElement);

/// A node of an xmltree tree, opaque here.
#[verifier::external_type_specification]
#[verifier::external_body]
pub struct ExTreeNode(xmltree::XMLNode);

/// The error xmltree gives for bytes it cannot read, opaque here.
#[verifier::external_type_specification]
#[verifier::external_body]
pub struct ExTreeParseError(xmltree::ParseError);

/// The tree that `xmltree::Element::parse` reads from the bytes of a
/// document (its first element, with everything under it), or `None` where
/// it fails on them.
pub uninterp spec fn parsed_document(bytes: Seq<u8>) -> Option<XmlElementView>;

/// A node of an xmltree tree as a node of this library's tree: the same
/// variant with its fields moved over, an element converted by
/// `element_from_tree`.
#[verifier::external_body]
fn node_from_tree(n: xmltree::XMLNode) -> XmlNode {
    match n {
        xmltree::XMLNode::Element(e) => XmlNode::Element(element_from_tree(e)),
        xmltree::XMLNode::Comment(s) => XmlNode::Comment(s),
        xmltree::XMLNode::CData(s) => XmlNode::CData(s),
        xmltree::XMLNode::Text(s) => XmlNode::Text(s),
        xmltree::XMLNode::ProcessingInstruction(a, b) => XmlNode::ProcessingInstruction(a, b),
    }
}

/// An xmltree element as this library's element: prefix, namespace and name
/// moved over, the namespace map and the attribute map as their (name, value)
/// pairs, the children node by node.
#[verifier::external_body]
fn element_from_tree(e: TreeElement) -> XmlElement {
    XmlElement {
        prefix: e.prefix,
        namespace: e.namespace,
        namespaces: e.namespaces.map(|ns| ns.0.into_iter().collect()),
        name: e.name,
        attributes: e.attributes.into_iter().collect(),
        children: e.children.into_iter().map(node_from_tree).collect(),
    }
}

/// `xmltree::Element::parse` on the bytes of a document, its tree converted
/// to this library's tree. Claimed: the tree is the one `parsed_document`
/// names for those bytes, and the error comes exactly where that name gives
/// none. xmltree keeps the attributes of an element in a hash map, which it
/// walks in no fixed order; the view of an element takes its attributes as a
/// map, so that the claim does not depend on that order. Nothing is said of
/// documents nested too deeply for the stack or too large for memory.
#[verifier::external_body]
fn parse_tree(bytes: &[u8]) -> (r: Result<XmlElement, xmltree::ParseError>)
    ensures
        match r {
            Ok(e) => parsed_document(bytes@) == Some(e@),
            Err(_) => parsed_document(bytes@) is None,
        },
{
    TreeElement::parse(bytes).map(element_from_tree)
}

/// Why the bytes of a document could not be read as a score.
#[derive(Debug, Clone, Copy, PartialEq, Eq)]
pub enum ReadError {
    /// The bytes are not a well-formed XML document.
    MalformedXml,
    /// The document is not a score this reader accepts: a child of its root
    /// is not an element, or one of its parts cannot be read.
    NotAScore,
}

/// Reads the score held by the bytes of a MusicXML document, and gives it
/// with the document's root element.
pub fn read_document(bytes: &[u8]) -> (r: Result<(XmlElement, ScorePartwise), ReadError>)
    ensures
        match parsed_document(bytes@) {
            None => r is Err && r->Err_0 == ReadError::MalformedXml,
            Some(root) => match read_score(root) {
                Some(sc) => r is Ok && r->Ok_0.0@ == root && r->Ok_0.1@ == sc,
                None => r is Err && r->Err_0 == ReadError::NotAScore,
            },
        },
{
    match parse_tree(bytes) {
        Err(_) => Err(ReadError::MalformedXml),
        Ok(root) => match parse_score(&root) {
            Some(sc) => Ok((root, sc)),
            None => Err(ReadError::NotAScore),
        },
    }
}

} // verus!
