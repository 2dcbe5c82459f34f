use vstd::prelude::*;

verus! {

/// A node of an XML tree.
#[derive(Debug)]
pub enum XmlNode {
    Element(XmlElement),
    Comment(String),
    CData(String),
    Text(String),
    ProcessingInstruction(String, Option<String>),
}

/// An XML element: its name with its namespace information, its attributes
/// as (name, value) pairs, and its children in order. As in a map, a later
/// pair for a name stands in place of an earlier one.
#[derive(Debug)]
pub struct XmlElement {
    pub prefix: Option<String>,
    pub namespace: Option<String>,
    pub namespaces: Option<Vec<(String, String)>>,
    pub name: String,
    pub attributes: Vec<(String, String)>,
    pub children: Vec<XmlNode>,
}

/// A pair of strings as a pair of character sequences.
pub open spec fn pair_view(p: (String, String)) -> (Seq<char>, Seq<char>) {
    (p.0@, p.1@)
}

/// A list of string pairs as a list of character-sequence pairs.
pub open spec fn pairs_view(ps: Seq<(String, String)>) -> Seq<(Seq<char>, Seq<char>)> {
    ps.map_values(|p: (String, String)| pair_view(p))
}

/// Attributes given as (name, value) pairs, as the map they make when
/// inserted in order: a later pair for a name replaces an earlier one.
pub open spec fn attributes_map(ps: Seq<(String, String)>) -> Map<Seq<char>, Seq<char>>
    decreases ps.len(),
{
    if ps.len() == 0 {
        Map::empty()
    } else {
        attributes_map(ps.drop_last()).insert(ps.last().0@, ps.last().1@)
    }
}

/// `attributes_map` of the pairs with one more pair at their end.
pub proof fn lemma_attributes_map_push(ps: Seq<(String, String)>, p: (String, String))
    ensures
        attributes_map(ps.push(p)) == attributes_map(ps).insert(p.0@, p.1@),
{
    assert(ps.push(p).drop_last() =~= ps);
}

/// An optional string by its characters.
pub open spec fn opt_view(s: Option<String>) -> Option<Seq<char>> {
    match s {
        Some(s) => Some(s@),
        None => None,
    }
}

/// A node of an XML tree as a value.
pub enum XmlNodeView {
    Element(XmlElementView),
    Comment(Seq<char>),
    CData(Seq<char>),
    Text(Seq<char>),
    ProcessingInstruction(Seq<char>, Option<Seq<char>>),
}

/// An XML element as a value.
pub struct XmlElementView {
    pub prefix: Option<Seq<char>>,
    pub namespace: Option<Seq<char>>,
    pub namespaces: Option<Seq<(Seq<char>, Seq<char>)>>,
    pub name: Seq<char>,
    pub attributes: Map<Seq<char>, Seq<char>>,
    pub children: Seq<XmlNodeView>,
}

/// The value of an element.
pub open spec fn element_view(e: XmlElement) -> XmlElementView
    decreases e,
{
    XmlElementView {
        prefix: opt_view(e.prefix),
        namespace: opt_view(e.namespace),
        namespaces: match e.namespaces {
            Some(ns) => Some(pairs_view(ns@)),
            None => None,
        },
        name: e.name@,
        attributes: attributes_map(e.attributes@),
        children: nodes_view(e.children@),
    }
}

/// The value of a node.
pub open spec fn node_view(n: XmlNode) -> XmlNodeView
    decreases n,
{
    match n {
        XmlNode::Element(e) => XmlNodeView::Element(element_view(e)),
        XmlNode::Comment(s) => XmlNodeView::Comment(s@),
        XmlNode::CData(s) => XmlNodeView::CData(s@),
        XmlNode::Text(s) => XmlNodeView::Text(s@),
        XmlNode::ProcessingInstruction(a, b) => XmlNodeView::ProcessingInstruction(a@, opt_view(b)),
    }
}

/// The values of a sequence of nodes.
pub open spec fn nodes_view(s: Seq<XmlNode>) -> Seq<XmlNodeView>
    decreases s,
{
    Seq::new(s.len(), |i: int| if 0 <= i < s.len() { node_view(s[i]) } else { arbitrary() })
}

impl View for XmlElement {
    type V = XmlElementView;

    open spec fn view(&self) -> XmlElementView {
        element_view(*self)
    }
}

impl View for XmlNode {
    type V = XmlNodeView;

    open spec fn view(&self) -> XmlNodeView {
        node_view(*self)
    }
}

/// `nodes_view` of a sequence with one more node at its end.
pub proof fn lemma_nodes_view_push(s: Seq<XmlNode>, n: XmlNode)
    ensures
        nodes_view(s.push(n)) == nodes_view(s).push(node_view(n)),
{
    assert(nodes_view(s.push(n)) =~= nodes_view(s).push(node_view(n)));
}

/// Whether two strings hold the same characters.
pub fn str_equals(a: &str, b: &str) -> (r: bool)
    ensures
        r == (a@ == b@),
{
    let n = a.unicode_len();
    if n != b.unicode_len() {
        return false;
    }
    for k in 0..n
        invariant
            n == a@.len(),
            n == b@.len(),
            forall|x: int| 0 <= x < k ==> a@[x] == b@[x],
    {
        if a.get_char(k) != b.get_char(k) {
            return false;
        }
    }
    assert(a@ =~= b@);
    true
}

/// An element with the given name and nothing else.
pub fn new_element(name: &str) -> (e: XmlElement)
    ensures
        e.name@ == name@,
        e.prefix is None,
        e.namespace is None,
        e.namespaces is None,
        e.attributes@.len() == 0,
        e.children@.len() == 0,
        e@.attributes == Map::<Seq<char>, Seq<char>>::empty(),
        e@.children == Seq::<XmlNodeView>::empty(),
{
    let e = XmlElement {
        prefix: None,
        namespace: None,
        namespaces: None,
        name: name.to_owned(),
        attributes: Vec::new(),
        children: Vec::new(),
    };
    proof {
        assert(e@.children =~= Seq::<XmlNodeView>::empty());
    }
    e
}

} // verus!
