use vstd::prelude::*;
use vstd::string::*;
use crate::types::{AttributesView, Clef, Element, ElementView, Mesure, MesureView, Note, NoteView};
use crate::diff::{diffs_view, Diff, DiffView};
use crate::xml::{
    element_view, lemma_attributes_map_push, lemma_nodes_view_push, new_element, node_view, nodes_view, str_equals, XmlElement, XmlElementView,
    XmlNode, XmlNodeView,
};

verus! {

/// The character of a decimal digit.
pub open spec fn digit_char(d: int) -> char {
    ('0' as int + d) as char
}

/// The decimal writing of a natural number, without leading zeros.
pub open spec fn decimal(n: nat) -> Seq<char>
    decreases n,
{
    if n < 10 {
        seq![digit_char(n as int)]
    } else {
        decimal(n / 10).push(digit_char((n % 10) as int))
    }
}

/// The one-character text of a decimal digit.
fn digit_str(d: usize) -> (r: &'static str)
    requires
        d < 10,
    ensures
        r@ == seq![digit_char(d as int)],
{
    proof {
        reveal_strlit("0");
        reveal_strlit("1");
        reveal_strlit("2");
        reveal_strlit("3");
        reveal_strlit("4");
        reveal_strlit("5");
        reveal_strlit("6");
        reveal_strlit("7");
        reveal_strlit("8");
        reveal_strlit("9");
    }
    if d == 0 {
        "0"
    } else if d == 1 {
        "1"
    } else if d == 2 {
        "2"
    } else if d == 3 {
        "3"
    } else if d == 4 {
        "4"
    } else if d == 5 {
        "5"
    } else if d == 6 {
        "6"
    } else if d == 7 {
        "7"
    } else if d == 8 {
        "8"
    } else {
        "9"
    }
}

/// The decimal writing of a number.
pub fn decimal_string(n: usize) -> (r: String)
    ensures
        r@ == decimal(n as nat),
    decreases n,
{
    if n < 10 {
        digit_str(n).to_owned()
    } else {
        let mut s = decimal_string(n / 10);
        s.append(digit_str(n % 10));
        s
    }
}

/// The string made of the one character `c`, by `char::to_string` (std),
/// whose result is that character alone.
#[verifier::external_body]
fn char_string(c: char) -> (r: String)
    ensures
        r@ == seq![c],
{
    c.to_string()
}


/// An element with no namespace information.
pub open spec fn plain(
    name: Seq<char>,
    attributes: Map<Seq<char>, Seq<char>>,
    children: Seq<XmlNodeView>,
) -> XmlElementView {
    XmlElementView { prefix: None, namespace: None, namespaces: None, name, attributes, children }
}

/// An element holding one text.
pub open spec fn text_tree(name: Seq<char>, text: Seq<char>) -> XmlElementView {
    plain(name, Map::empty(), seq![XmlNodeView::Text(text)])
}

/// The colour of added notes and measures.
pub open spec fn added_color() -> Seq<char> {
    "#69B32B"@
}

/// The colour of removed notes and measures.
pub open spec fn removed_color() -> Seq<char> {
    "#F94144"@
}

/// The colour of unmodified notes and measures.
pub open spec fn unmodified_color() -> Seq<char> {
    "#000000"@
}

/// The colour of modified notes.
pub open spec fn modified_color() -> Seq<char> {
    "#F9C74F"@
}

/// The element written for a clef.
pub open spec fn clef_tree(c: Clef) -> XmlElementView {
    plain("clef"@, Map::empty(), seq![XmlNodeView::Element(text_tree("sign"@, seq![c.sign]))])
}

/// The elements written for clefs, in order.
pub open spec fn clef_trees(cs: Seq<Clef>) -> Seq<XmlNodeView> {
    cs.map_values(|c: Clef| XmlNodeView::Element(clef_tree(c)))
}

/// The element written for the attributes of a measure: `empty` when there
/// are none, else `attributes` holding `divisions`, `time` (with `beats` and
/// `beat_type`) and one `clef` (with its `sign`) per clef.
pub open spec fn attributes_tree(a: Option<AttributesView>) -> XmlElementView {
    match a {
        None => plain("empty"@, Map::empty(), Seq::empty()),
        Some(a) => plain(
            "attributes"@,
            Map::empty(),
            seq![
                XmlNodeView::Element(text_tree("divisions"@, decimal(a.divisions as nat))),
                XmlNodeView::Element(
                    plain(
                        "time"@,
                        Map::empty(),
                        seq![
                            XmlNodeView::Element(text_tree("beats"@, decimal(a.time.beats as nat))),
                            XmlNodeView::Element(text_tree("beat_type"@, decimal(a.time.beat_type as nat))),
                        ],
                    ),
                ),
            ] + clef_trees(a.clef),
        ),
    }
}

/// The element written for a note in a colour: `rest`, or `pitch` with
/// `step` and `octave`; then `duration` and `type`.
pub open spec fn note_tree(n: NoteView, color: Seq<char>) -> XmlElementView {
    plain(
        "note"@,
        Map::empty().insert("color"@, color),
        seq![
            match n.pitch {
                None => XmlNodeView::Element(plain("rest"@, Map::empty(), Seq::empty())),
                Some(p) => XmlNodeView::Element(
                    plain(
                        "pitch"@,
                        Map::empty(),
                        seq![
                            XmlNodeView::Element(text_tree("step"@, seq![p.step])),
                            XmlNodeView::Element(text_tree("octave"@, decimal(p.octave as nat))),
                        ],
                    ),
                ),
            },
            XmlNodeView::Element(text_tree("duration"@, decimal(n.duration as nat))),
            XmlNodeView::Element(text_tree("type"@, n.typee)),
        ],
    )
}

/// The elements written for notes, all in one colour.
pub open spec fn note_trees(ns: Seq<NoteView>, color: Seq<char>) -> Seq<XmlNodeView> {
    ns.map_values(|n: NoteView| XmlNodeView::Element(note_tree(n, color)))
}

/// The element written for measure `number` (numbered from 0, written from
/// 1) with all its notes in one colour, after its attributes element `att`.
pub open spec fn measure_tree(m: MesureView, number: nat, color: Seq<char>, att: XmlElementView) -> XmlElementView {
    plain(
        "measure"@,
        Map::empty().insert("number"@, decimal(number + 1)),
        seq![XmlNodeView::Element(att)] + note_trees(m.notes, color),
    )
}

/// The element written for a note-level comparison step: the note in the
/// colour of its kind; nothing for a step that is not about a note.
pub open spec fn diff_note_trees(d: DiffView) -> Seq<XmlNodeView> {
    match d {
        DiffView::Added(ElementView::note(n)) => seq![XmlNodeView::Element(note_tree(n, added_color()))],
        DiffView::Removed(ElementView::note(n)) => seq![XmlNodeView::Element(note_tree(n, removed_color()))],
        DiffView::Unmodified(ElementView::note(n)) => seq![XmlNodeView::Element(note_tree(n, unmodified_color()))],
        DiffView::Modified(ElementView::note(n), _) => seq![XmlNodeView::Element(note_tree(n, modified_color()))],
        _ => Seq::empty(),
    }
}

/// The elements written for note-level comparison steps, in order.
pub open spec fn diffs_note_trees(ds: Seq<DiffView>) -> Seq<XmlNodeView>
    decreases ds.len(),
{
    if ds.len() == 0 {
        Seq::empty()
    } else {
        diffs_note_trees(ds.drop_last()) + diff_note_trees(ds.last())
    }
}

/// The element written for modified measure `number`: its attributes element
/// `att`, then its notes coloured by the steps of their comparison.
pub open spec fn modified_measure_tree(number: nat, att: XmlElementView, ds: Seq<DiffView>) -> XmlElementView {
    plain(
        "measure"@,
        Map::empty().insert("number"@, decimal(number + 1)),
        seq![XmlNodeView::Element(att)] + diffs_note_trees(ds),
    )
}

/// The element written for the part-level comparison step at position `i`:
/// the measure in the colour of its kind, a modified one with its notes
/// coloured one by one; nothing for a step that is not about a measure.
pub open spec fn diff_measure_trees(d: DiffView, i: nat) -> Seq<XmlNodeView> {
    match d {
        DiffView::Added(ElementView::mesure(m)) => seq![
            XmlNodeView::Element(measure_tree(m, i, added_color(), attributes_tree(m.attributes))),
        ],
        DiffView::Removed(ElementView::mesure(m)) => seq![
            XmlNodeView::Element(measure_tree(m, i, removed_color(), attributes_tree(m.attributes))),
        ],
        DiffView::Unmodified(ElementView::mesure(m)) => seq![
            XmlNodeView::Element(measure_tree(m, i, unmodified_color(), attributes_tree(m.attributes))),
        ],
        DiffView::Modified(ElementView::mesure(m), ds) => seq![
            XmlNodeView::Element(modified_measure_tree(i, attributes_tree(m.attributes), ds)),
        ],
        _ => Seq::empty(),
    }
}

/// The elements written for part-level comparison steps, in order.
pub open spec fn diffs_measure_trees(ds: Seq<DiffView>) -> Seq<XmlNodeView>
    decreases ds.len(),
{
    if ds.len() == 0 {
        Seq::empty()
    } else {
        diffs_measure_trees(ds.drop_last()) + diff_measure_trees(ds.last(), (ds.len() - 1) as nat)
    }
}

/// The element written for part `k` (numbered from 0, its id `P` and the
/// number from 1) of a comparison.
pub open spec fn part_tree(k: nat, ds: Seq<DiffView>) -> XmlElementView {
    plain("part"@, Map::empty().insert("id"@, seq!['P'] + decimal(k + 1)), diffs_measure_trees(ds))
}

/// The elements of a node sequence without the elements named `part`.
pub open spec fn without_parts(s: Seq<XmlNodeView>) -> Seq<XmlNodeView>
    decreases s.len(),
{
    if s.len() == 0 {
        Seq::empty()
    } else {
        let rest = without_parts(s.drop_last());
        match s.last() {
            XmlNodeView::Element(e) => if e.name == "part"@ {
                rest
            } else {
                rest.push(s.last())
            },
            _ => rest.push(s.last()),
        }
    }
}

/// The document written for a comparison: the root of the destination
/// document with its `part` elements replaced by one element per compared part.
pub open spec fn document_tree(root: XmlElementView, parts: Seq<Seq<DiffView>>) -> XmlElementView {
    XmlElementView {
        children: without_parts(root.children) + Seq::new(
            parts.len(),
            |k: int| XmlNodeView::Element(part_tree(k as nat, parts[k])),
        ),
        ..root
    }
}

/// An element with one text child.
fn text_element(name: &str, text: String) -> (e: XmlElement)
    ensures
        element_view(e) == text_tree(name@, text@),
{
    let mut e = new_element(name);
    let ghost before = e.children@;
    e.children.push(XmlNode::Text(text));
    proof {
        lemma_nodes_view_push(before, XmlNode::Text(text));
        assert(nodes_view(before) =~= Seq::<XmlNodeView>::empty());
        assert(element_view(e).children =~= seq![XmlNodeView::Text(text@)]);
    }
    e
}


/// Adds a child element at the end of `e`.
fn push_element(e: &mut XmlElement, c: XmlElement)
    ensures
        element_view(*final(e)) == (XmlElementView {
            children: element_view(*old(e)).children.push(XmlNodeView::Element(element_view(c))),
            ..element_view(*old(e))
        }),
{
    let ghost before = e.children@;
    let ghost c_view = element_view(c);
    e.children.push(XmlNode::Element(c));
    proof {
        lemma_nodes_view_push(before, XmlNode::Element(c));
    }
}

/// Sets an attribute of `e`, in place of any earlier value for that name.
fn push_attribute(e: &mut XmlElement, name: &str, value: String)
    ensures
        element_view(*final(e)) == (XmlElementView {
            attributes: element_view(*old(e)).attributes.insert(name@, value@),
            ..element_view(*old(e))
        }),
{
    let ghost before = e.attributes@;
    let pair = (name.to_owned(), value);
    e.attributes.push(pair);
    proof {
        lemma_attributes_map_push(before, pair);
    }
}

/// An element with no attribute and no child.
fn empty_element(name: &str) -> (e: XmlElement)
    ensures
        element_view(e) == plain(name@, Map::empty(), Seq::empty()),
{
    let e = new_element(name);
    proof {
        assert(element_view(e).children =~= Seq::<XmlNodeView>::empty());
    }
    e
}

/// The element for a note in a colour, as `note_tree` says.
pub fn build_note(note: &Note, color: &String) -> (r: XmlElement)
    ensures
        element_view(r) == note_tree(note@, color@),
{
    let mut n = empty_element("note");
    push_attribute(&mut n, "color", color.clone());
    match &note.pitch {
        None => push_element(&mut n, empty_element("rest")),
        Some(p) => {
            let mut pitch = empty_element("pitch");
            push_element(&mut pitch, text_element("step", char_string(p.step)));
            push_element(&mut pitch, text_element("octave", decimal_string(p.octave as usize)));
            proof {
                assert(element_view(pitch).children =~= seq![
                    XmlNodeView::Element(text_tree("step"@, seq![p.step])),
                    XmlNodeView::Element(text_tree("octave"@, decimal(p.octave as nat))),
                ]);
            }
            push_element(&mut n, pitch);
        },
    };
    push_element(&mut n, text_element("duration", decimal_string(note.duration as usize)));
    push_element(&mut n, text_element("type", note.typee.clone()));
    proof {
        reveal_strlit("color");
        assert(element_view(n).attributes =~= Map::empty().insert("color"@, color@));
        assert(element_view(n).children =~= note_tree(note@, color@).children);
    }
    n
}

/// The element for the attributes of a measure, as `attributes_tree` says:
/// `divisions`, `time` (with `beats` and `beat_type`), then one `clef`
/// element, holding its `sign`, for each clef of the attributes, in order.
pub fn build_mesure_attributes(mes: &Mesure) -> (r: XmlElement)
    ensures
        element_view(r) == attributes_tree(mes@.attributes),
{
    match &mes.attributes {
        None => empty_element("empty"),
        Some(a) => {
            let mut at = empty_element("attributes");
            let div = text_element("divisions", decimal_string(a.divisions as usize));
            let mut time = empty_element("time");
            push_element(&mut time, text_element("beats", decimal_string(a.time.beats as usize)));
            push_element(&mut time, text_element("beat_type", decimal_string(a.time.beat_type as usize)));
            push_element(&mut at, div);
            push_element(&mut at, time);
            proof {
                assert(element_view(time).children =~= seq![
                    XmlNodeView::Element(text_tree("beats"@, decimal(a.time.beats as nat))),
                    XmlNodeView::Element(text_tree("beat_type"@, decimal(a.time.beat_type as nat))),
                ]);
            }
            let ghost start = element_view(at).children;
            for k in 0..a.clef.len()
                invariant
                    element_view(at) == (XmlElementView {
                        children: start + clef_trees(a.clef@.take(k as int)),
                        ..element_view(at)
                    }),
                    element_view(at).name == "attributes"@,
                    element_view(at).attributes == Map::<Seq<char>, Seq<char>>::empty(),
                    element_view(at).prefix is None,
                    element_view(at).namespace is None,
                    element_view(at).namespaces is None,
            {
                let mut clef = empty_element("clef");
                push_element(&mut clef, text_element("sign", char_string(a.clef[k].sign)));
                proof {
                    assert(element_view(clef).children =~= seq![
                        XmlNodeView::Element(text_tree("sign"@, seq![a.clef@[k as int].sign])),
                    ]);
                    assert(element_view(clef) == clef_tree(a.clef@[k as int]));
                    assert(clef_trees(a.clef@.take(k + 1)) =~= clef_trees(a.clef@.take(k as int)).push(
                        XmlNodeView::Element(clef_tree(a.clef@[k as int])),
                    ));
                }
                push_element(&mut at, clef);
            }
            proof {
                assert(a.clef@.take(a.clef@.len() as int) =~= a.clef@);
                assert(mes@.attributes == Some(a@));
                assert(element_view(at).children =~= attributes_tree(mes@.attributes).children);
            }
            at
        },
    }
}


/// A new `measure` element numbered `number + 1`, holding `att`.
fn measure_element(number: usize, att: XmlElement) -> (r: XmlElement)
    requires
        number < usize::MAX,
    ensures
        element_view(r) == plain(
            "measure"@,
            Map::empty().insert("number"@, decimal((number + 1) as nat)),
            seq![XmlNodeView::Element(element_view(att))],
        ),
{
    let mut mesure = empty_element("measure");
    push_attribute(&mut mesure, "number", decimal_string(number + 1));
    push_element(&mut mesure, att);
    proof {
        reveal_strlit("number");
        assert(element_view(mesure).attributes =~= Map::empty().insert("number"@, decimal((number + 1) as nat)));
        assert(element_view(mesure).children =~= seq![XmlNodeView::Element(element_view(att))]);
    }
    mesure
}

/// The element for measure `number` with all its notes in one colour, after
/// its attributes element `att`, as `measure_tree` says.
pub fn build_mesure(mes: &Mesure, number: usize, color: String, att: XmlElement) -> (r: XmlElement)
    requires
        number < usize::MAX,
    ensures
        element_view(r) == measure_tree(mes@, number as nat, color@, element_view(att)),
{
    let ghost att_view = element_view(att);
    let mut mesure = measure_element(number, att);
    let ghost start = element_view(mesure);
    for k in 0..mes.notes.len()
        invariant
            element_view(mesure) == (XmlElementView {
                children: seq![XmlNodeView::Element(att_view)] + note_trees(mes@.notes.take(k as int), color@),
                ..start
            }),
    {
        let n = build_note(&mes.notes[k], &color);
        proof {
            assert(mes@.notes[k as int] == mes.notes@[k as int]@);
            assert(note_trees(mes@.notes.take(k + 1), color@) =~= note_trees(mes@.notes.take(k as int), color@).push(
                XmlNodeView::Element(note_tree(mes@.notes[k as int], color@)),
            ));
        }
        push_element(&mut mesure, n);
    }
    proof {
        assert(mes@.notes.take(mes.notes.len() as int) =~= mes@.notes);
        assert(element_view(mesure).children =~= measure_tree(mes@, number as nat, color@, att_view).children);
    }
    mesure
}

/// The elements for one note-level comparison step, as `diff_note_trees` says,
/// added at the end of `mesure`.
fn push_diff_note(mesure: &mut XmlElement, d: &Diff)
    ensures
        element_view(*final(mesure)) == (XmlElementView {
            children: element_view(*old(mesure)).children + diff_note_trees(d@),
            ..element_view(*old(mesure))
        }),
{
    let ghost before = element_view(*mesure);
    let color = match d {
        Diff::Added(Element::note(_)) => Some("#69B32B".to_owned()),
        Diff::Removed(Element::note(_)) => Some("#F94144".to_owned()),
        Diff::Unmodified(Element::note(_)) => Some("#000000".to_owned()),
        Diff::Modified(Element::note(_), _) => Some("#F9C74F".to_owned()),
        _ => None,
    };
    let note = match d {
        Diff::Added(Element::note(n)) => Some(n),
        Diff::Removed(Element::note(n)) => Some(n),
        Diff::Unmodified(Element::note(n)) => Some(n),
        Diff::Modified(Element::note(n), _) => Some(n),
        _ => None,
    };
    proof {
        reveal_strlit("#69B32B");
        reveal_strlit("#F94144");
        reveal_strlit("#000000");
        reveal_strlit("#F9C74F");
    }
    match (note, color) {
        (Some(n), Some(c)) => {
            let e = build_note(n, &c);
            push_element(mesure, e);
            proof {
                assert(diff_note_trees(d@) =~= seq![XmlNodeView::Element(note_tree(n@, c@))]);
                assert(before.children + diff_note_trees(d@) =~= before.children.push(
                    XmlNodeView::Element(note_tree(n@, c@)),
                ));
            }
        },
        _ => {
            proof {
                assert(diff_note_trees(d@) =~= Seq::<XmlNodeView>::empty());
                assert(before.children + diff_note_trees(d@) =~= before.children);
            }
        },
    }
}

/// The element for modified measure `number`: its attributes element `att`,
/// then its notes coloured by the steps of their comparison, as
/// `modified_measure_tree` says.
pub fn build_modified_mesure(number: usize, att: XmlElement, notes: &Vec<Diff>) -> (r: XmlElement)
    requires
        number < usize::MAX,
    ensures
        element_view(r) == modified_measure_tree(number as nat, element_view(att), diffs_view(notes@)),
{
    let ghost att_view = element_view(att);
    let ghost ds = diffs_view(notes@);
    let mut mesure = measure_element(number, att);
    let ghost start = element_view(mesure);
    for k in 0..notes.len()
        invariant
            ds == diffs_view(notes@),
            element_view(mesure) == (XmlElementView {
                children: seq![XmlNodeView::Element(att_view)] + diffs_note_trees(ds.take(k as int)),
                ..start
            }),
    {
        proof {
            assert(ds.take(k + 1).drop_last() =~= ds.take(k as int));
            assert(ds[k as int] == notes@[k as int]@);
        }
        push_diff_note(&mut mesure, &notes[k]);
        proof {
            assert(seq![XmlNodeView::Element(att_view)] + diffs_note_trees(ds.take(k + 1)) =~= seq![
                XmlNodeView::Element(att_view),
            ] + diffs_note_trees(ds.take(k as int)) + diff_note_trees(ds[k as int]));
        }
    }
    proof {
        assert(ds.take(notes.len() as int) =~= ds);
        assert(element_view(mesure).children =~= modified_measure_tree(number as nat, att_view, ds).children);
    }
    mesure
}

/// The elements for the part-level comparison step at position `i`, as
/// `diff_measure_trees` says, added at the end of `part`.
fn push_diff_measure(part: &mut XmlElement, d: &Diff, i: usize)
    requires
        i < usize::MAX,
    ensures
        element_view(*final(part)) == (XmlElementView {
            children: element_view(*old(part)).children + diff_measure_trees(d@, i as nat),
            ..element_view(*old(part))
        }),
{
    let ghost before = element_view(*part);
    proof {
        reveal_strlit("#69B32B");
        reveal_strlit("#F94144");
        reveal_strlit("#000000");
    }
    match d {
        Diff::Added(Element::mesure(m)) => {
            let att = build_mesure_attributes(m);
            let ghost att_v = element_view(att);
            let mes = build_mesure(m, i, "#69B32B".to_owned(), att);
            push_element(part, mes);
            proof {
                assert(att_v == attributes_tree(m@.attributes));
                assert(before.children + diff_measure_trees(d@, i as nat) =~= before.children.push(
                    XmlNodeView::Element(element_view(mes)),
                ));
            }
        },
        Diff::Removed(Element::mesure(m)) => {
            let att = build_mesure_attributes(m);
            let ghost att_v = element_view(att);
            let mes = build_mesure(m, i, "#F94144".to_owned(), att);
            push_element(part, mes);
            proof {
                assert(att_v == attributes_tree(m@.attributes));
                assert(before.children + diff_measure_trees(d@, i as nat) =~= before.children.push(
                    XmlNodeView::Element(element_view(mes)),
                ));
            }
        },
        Diff::Unmodified(Element::mesure(m)) => {
            let att = build_mesure_attributes(m);
            let ghost att_v = element_view(att);
            let mes = build_mesure(m, i, "#000000".to_owned(), att);
            push_element(part, mes);
            proof {
                assert(att_v == attributes_tree(m@.attributes));
                assert(before.children + diff_measure_trees(d@, i as nat) =~= before.children.push(
                    XmlNodeView::Element(element_view(mes)),
                ));
            }
        },
        Diff::Modified(Element::mesure(m), diffs) => {
            let att = build_mesure_attributes(m);
            let mes = build_modified_mesure(i, att, diffs);
            push_element(part, mes);
            proof {
                assert(before.children + diff_measure_trees(d@, i as nat) =~= before.children.push(
                    XmlNodeView::Element(element_view(mes)),
                ));
            }
        },
        _ => {
            proof {
                assert(diff_measure_trees(d@, i as nat) =~= Seq::<XmlNodeView>::empty());
                assert(before.children + diff_measure_trees(d@, i as nat) =~= before.children);
            }
        },
    }
}

/// The element for part `k` of a comparison, as `part_tree` says.
pub fn build_part(k: usize, diffs: &Vec<Diff>) -> (r: XmlElement)
    requires
        k < usize::MAX,
    ensures
        element_view(r) == part_tree(k as nat, diffs_view(diffs@)),
{
    let ghost ds = diffs_view(diffs@);
    let mut part = empty_element("part");
    let mut id = "P".to_owned();
    id.append(decimal_string(k + 1).as_str());
    push_attribute(&mut part, "id", id);
    proof {
        reveal_strlit("P");
        reveal_strlit("id");
        assert("P"@ =~= seq!['P']);
        assert(element_view(part).attributes =~= Map::empty().insert("id"@, seq!['P'] + decimal((k + 1) as nat)));
    }
    let ghost start = element_view(part);
    for i in 0..diffs.len()
        invariant
            ds == diffs_view(diffs@),
            element_view(part) == (XmlElementView { children: diffs_measure_trees(ds.take(i as int)), ..start }),
            start.children.len() == 0,
    {
        proof {
            assert(ds.take(i + 1).drop_last() =~= ds.take(i as int));
            assert(ds[i as int] == diffs@[i as int]@);
        }
        push_diff_measure(&mut part, &diffs[i], i);
    }
    proof {
        assert(ds.take(diffs.len() as int) =~= ds);
    }
    part
}


/// The comparisons of parts as values.
pub open spec fn parts_diffs_view(res: Seq<Vec<Diff>>) -> Seq<Seq<DiffView>> {
    res.map_values(|v: Vec<Diff>| diffs_view(v@))
}

/// The document for a comparison: `root`, the destination document's root
/// element, with its `part` elements removed and one `part` element per
/// compared part added at the end, as `document_tree` says.
pub fn build_diff_document(root: XmlElement, res: &Vec<Vec<Diff>>) -> (r: XmlElement)
    requires
        forall|k: int| 0 <= k < root.children@.len() ==> #[trigger] root.children@[k] is Element,
        res@.len() < usize::MAX,
    ensures
        element_view(r) == document_tree(element_view(root), parts_diffs_view(res@)),
{
    let ghost root_view = element_view(root);
    let ghost orig = root.children@;
    let ghost orig_view = nodes_view(orig);
    let mut doc = root;
    let mut old_children: Vec<XmlNode> = Vec::new();
    std::mem::swap(&mut old_children, &mut doc.children);
    proof {
        assert(nodes_view(doc.children@) =~= Seq::<XmlNodeView>::empty());
        assert(without_parts(orig_view.take(0)) =~= Seq::<XmlNodeView>::empty());
    }
    let n = old_children.len();
    let mut k: usize = 0;
    while old_children.len() > 0
        invariant
            n == orig.len(),
            orig_view == nodes_view(orig),
            k + old_children@.len() == n,
            old_children@ == orig.subrange(k as int, n as int),
            element_view(doc) == (XmlElementView { children: without_parts(orig_view.take(k as int)), ..root_view }),
        decreases old_children@.len(),
    {
        let node = old_children.remove(0);
        proof {
            assert(node == orig[k as int]);
            assert(orig_view[k as int] == node_view(node));
            assert(orig_view.take(k + 1).drop_last() =~= orig_view.take(k as int));
            assert(old_children@ =~= orig.subrange(k + 1, n as int));
        }
        let keep = match &node {
            XmlNode::Element(e) => !str_equals(e.name.as_str(), "part"),
            _ => true,
        };
        if keep {
            let ghost before = doc.children@;
            doc.children.push(node);
            proof {
                lemma_nodes_view_push(before, node);
            }
        }
        k = k + 1;
    }
    proof {
        assert(orig_view.take(n as int) =~= orig_view);
    }
    let ghost kept = element_view(doc).children;
    let ghost parts = parts_diffs_view(res@);
    for p in 0..res.len()
        invariant
            parts == parts_diffs_view(res@),
            res@.len() < usize::MAX,
            element_view(doc) == (XmlElementView {
                children: kept + Seq::new(p as nat, |x: int| XmlNodeView::Element(part_tree(x as nat, parts[x]))),
                ..root_view
            }),
    {
        let part = build_part(p, &res[p]);
        push_element(&mut doc, part);
        proof {
            assert(parts[p as int] == diffs_view(res@[p as int]@));
            assert(kept + Seq::new((p + 1) as nat, |x: int| XmlNodeView::Element(part_tree(x as nat, parts[x])))
                =~= (kept + Seq::new(p as nat, |x: int| XmlNodeView::Element(part_tree(x as nat, parts[x])))).push(
                XmlNodeView::Element(part_tree(p as nat, parts[p as int])),
            ));
        }
    }
    proof {
        assert(element_view(doc).children =~= document_tree(root_view, parts).children);
    }
    doc
}

/// The measure a part-level step is about, if it is about a measure.
pub open spec fn step_measure(d: DiffView) -> Option<MesureView> {
    match d {
        DiffView::Unmodified(ElementView::mesure(m)) => Some(m),
        DiffView::Added(ElementView::mesure(m)) => Some(m),
        DiffView::Removed(ElementView::mesure(m)) => Some(m),
        DiffView::Modified(ElementView::mesure(m), _) => Some(m),
        _ => None,
    }
}

/// Whatever a part-level step says of a measure (kept, added, removed or
/// modified), exactly one `measure` element is written for it, numbered from
/// its position, and its first child is the attributes element of that
/// measure's own attributes: a modified measure keeps its divisions, time
/// signature and clefs as a kept, added or removed one does. Nothing is
/// written for a step about anything else.
pub proof fn lemma_measure_element_opens_with_attributes(d: DiffView, i: nat)
    ensures
        match step_measure(d) {
            Some(m) => {
                let w = diff_measure_trees(d, i);
                &&& w.len() == 1
                &&& w[0] is Element
                &&& w[0]->Element_0.name == "measure"@
                &&& w[0]->Element_0.attributes == Map::<Seq<char>, Seq<char>>::empty().insert(
                    "number"@,
                    decimal(i + 1),
                )
                &&& w[0]->Element_0.children.len() >= 1
                &&& w[0]->Element_0.children[0] == XmlNodeView::Element(attributes_tree(m.attributes))
            },
            None => diff_measure_trees(d, i).len() == 0,
        },
{
}

/// The attributes element written for a measure: `empty` with nothing in it
/// when the measure has no attributes; otherwise `attributes`, whose children
/// are `divisions` with the divisions written in decimal, `time` with `beats`
/// and `beat_type`, then one `clef` element per clef, in order, holding the
/// clef's sign.
pub proof fn lemma_attributes_tree_shape(a: Option<AttributesView>)
    ensures
        match a {
            None => attributes_tree(a).name == "empty"@ && attributes_tree(a).children.len() == 0,
            Some(at) => {
                let e = attributes_tree(a);
                &&& e.name == "attributes"@
                &&& e.children.len() == 2 + at.clef.len()
                &&& e.children[0] == XmlNodeView::Element(text_tree("divisions"@, decimal(at.divisions as nat)))
                &&& e.children[1] is Element
                &&& e.children[1]->Element_0.name == "time"@
                &&& e.children[1]->Element_0.children == seq![
                    XmlNodeView::Element(text_tree("beats"@, decimal(at.time.beats as nat))),
                    XmlNodeView::Element(text_tree("beat_type"@, decimal(at.time.beat_type as nat))),
                ]
                &&& forall|c: int|
                    0 <= c < at.clef.len() ==> #[trigger] e.children[2 + c] == XmlNodeView::Element(
                        plain(
                            "clef"@,
                            Map::empty(),
                            seq![XmlNodeView::Element(text_tree("sign"@, seq![at.clef[c].sign]))],
                        ),
                    )
            },
        },
{
    if let Some(at) = a {
        let e = attributes_tree(a);
        assert forall|c: int| 0 <= c < at.clef.len() implies #[trigger] e.children[2 + c] == XmlNodeView::Element(
            plain("clef"@, Map::empty(), seq![XmlNodeView::Element(text_tree("sign"@, seq![at.clef[c].sign]))]),
        ) by {
            assert(e.children[2 + c] == clef_trees(at.clef)[c]);
        }
    }
}

/// A note-level step writes the note it carries, in the colour of its kind:
/// green (`#69B32B`) for an addition, red (`#F94144`) for a removal, black
/// (`#000000`) for a kept note, yellow (`#F9C74F`) for a modification; a step
/// about anything else writes nothing. The note element carries its colour as
/// its one attribute.
pub proof fn lemma_note_step_colour(d: DiffView)
    ensures
        match d {
            DiffView::Added(ElementView::note(n)) => diff_note_trees(d) == seq![
                XmlNodeView::Element(note_tree(n, "#69B32B"@)),
            ],
            DiffView::Removed(ElementView::note(n)) => diff_note_trees(d) == seq![
                XmlNodeView::Element(note_tree(n, "#F94144"@)),
            ],
            DiffView::Unmodified(ElementView::note(n)) => diff_note_trees(d) == seq![
                XmlNodeView::Element(note_tree(n, "#000000"@)),
            ],
            DiffView::Modified(ElementView::note(n), _) => diff_note_trees(d) == seq![
                XmlNodeView::Element(note_tree(n, "#F9C74F"@)),
            ],
            _ => diff_note_trees(d).len() == 0,
        },
        forall|n: NoteView, c: Seq<char>|
            #![trigger note_tree(n, c)]
            note_tree(n, c).name == "note"@ && note_tree(n, c).attributes == Map::<Seq<char>, Seq<char>>::empty().insert(
                "color"@,
                c,
            ),
{
}

/// Note-level steps all about notes write one note element each, in order.
proof fn lemma_diffs_note_trees_one_each(ds: Seq<DiffView>)
    requires
        forall|x: int| 0 <= x < ds.len() ==> #[trigger] ds[x] matches DiffView::Added(ElementView::note(_))
            || ds[x] matches DiffView::Removed(ElementView::note(_)) || ds[x] matches DiffView::Unmodified(
            ElementView::note(_),
        ) || ds[x] matches DiffView::Modified(ElementView::note(_), _),
    ensures
        diffs_note_trees(ds).len() == ds.len(),
        forall|x: int| 0 <= x < ds.len() ==> #[trigger] diffs_note_trees(ds)[x] == diff_note_trees(ds[x])[0],
    decreases ds.len(),
{
    if ds.len() > 0 {
        let p = ds.drop_last();
        assert forall|x: int| 0 <= x < p.len() implies #[trigger] p[x] matches DiffView::Added(ElementView::note(_))
            || p[x] matches DiffView::Removed(ElementView::note(_)) || p[x] matches DiffView::Unmodified(
            ElementView::note(_),
        ) || p[x] matches DiffView::Modified(ElementView::note(_), _) by {
            assert(p[x] == ds[x]);
        }
        lemma_diffs_note_trees_one_each(p);
        assert(ds[ds.len() - 1] == ds.last());
        assert(diff_note_trees(ds.last()).len() == 1);
        assert forall|x: int| 0 <= x < ds.len() implies #[trigger] diffs_note_trees(ds)[x] == diff_note_trees(
            ds[x],
        )[0] by {
            if x < p.len() {
                assert(diffs_note_trees(p)[x] == diff_note_trees(p[x])[0]);
                assert(p[x] == ds[x]);
            }
        }
    }
}

/// The notes of a measure as a part-level step writes them: a kept, added or
/// removed measure writes every note, in order, in the colour of the step
/// (black, green, red) after its attributes element; a modified measure whose
/// inner steps are all about notes writes, after its attributes element, one
/// note per inner step, in order, each in the colour of that step.
pub proof fn lemma_measure_step_notes(d: DiffView, i: nat)
    ensures
        match d {
            DiffView::Unmodified(ElementView::mesure(m)) => diff_measure_trees(d, i)[0]->Element_0.children
                == seq![XmlNodeView::Element(attributes_tree(m.attributes))] + Seq::new(
                m.notes.len(),
                |x: int| XmlNodeView::Element(note_tree(m.notes[x], "#000000"@)),
            ),
            DiffView::Added(ElementView::mesure(m)) => diff_measure_trees(d, i)[0]->Element_0.children
                == seq![XmlNodeView::Element(attributes_tree(m.attributes))] + Seq::new(
                m.notes.len(),
                |x: int| XmlNodeView::Element(note_tree(m.notes[x], "#69B32B"@)),
            ),
            DiffView::Removed(ElementView::mesure(m)) => diff_measure_trees(d, i)[0]->Element_0.children
                == seq![XmlNodeView::Element(attributes_tree(m.attributes))] + Seq::new(
                m.notes.len(),
                |x: int| XmlNodeView::Element(note_tree(m.notes[x], "#F94144"@)),
            ),
            DiffView::Modified(ElementView::mesure(m), ds) => (forall|x: int|
                0 <= x < ds.len() ==> #[trigger] ds[x] matches DiffView::Added(ElementView::note(_))
                    || ds[x] matches DiffView::Removed(ElementView::note(_)) || ds[x] matches DiffView::Unmodified(
                    ElementView::note(_),
                ) || ds[x] matches DiffView::Modified(ElementView::note(_), _)) ==> {
                let ch = diff_measure_trees(d, i)[0]->Element_0.children;
                &&& ch.len() == 1 + ds.len()
                &&& ch[0] == XmlNodeView::Element(attributes_tree(m.attributes))
                &&& forall|x: int| 0 <= x < ds.len() ==> #[trigger] ch[1 + x] == diff_note_trees(ds[x])[0]
            },
            _ => true,
        },
{
    match d {
        DiffView::Unmodified(ElementView::mesure(m)) => {
            assert(note_trees(m.notes, "#000000"@) =~= Seq::new(
                m.notes.len(),
                |x: int| XmlNodeView::Element(note_tree(m.notes[x], "#000000"@)),
            ));
        },
        DiffView::Added(ElementView::mesure(m)) => {
            assert(note_trees(m.notes, "#69B32B"@) =~= Seq::new(
                m.notes.len(),
                |x: int| XmlNodeView::Element(note_tree(m.notes[x], "#69B32B"@)),
            ));
        },
        DiffView::Removed(ElementView::mesure(m)) => {
            assert(note_trees(m.notes, "#F94144"@) =~= Seq::new(
                m.notes.len(),
                |x: int| XmlNodeView::Element(note_tree(m.notes[x], "#F94144"@)),
            ));
        },
        DiffView::Modified(ElementView::mesure(m), ds) => {
            if forall|x: int|
                0 <= x < ds.len() ==> #[trigger] ds[x] matches DiffView::Added(ElementView::note(_))
                    || ds[x] matches DiffView::Removed(ElementView::note(_)) || ds[x] matches DiffView::Unmodified(
                    ElementView::note(_),
                ) || ds[x] matches DiffView::Modified(ElementView::note(_), _) {
                lemma_diffs_note_trees_one_each(ds);
                let ch = diff_measure_trees(d, i)[0]->Element_0.children;
                assert(ch == seq![XmlNodeView::Element(attributes_tree(m.attributes))] + diffs_note_trees(ds));
                assert forall|x: int| 0 <= x < ds.len() implies #[trigger] ch[1 + x] == diff_note_trees(ds[x])[0] by {
                    assert(ch[1 + x] == diffs_note_trees(ds)[x]);
                }
            }
        },
        _ => {},
    }
}

} // verus!
