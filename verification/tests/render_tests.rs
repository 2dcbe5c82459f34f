use music_diff::diff::{diff, Diff};
use music_diff::render::{
    build_diff_document, build_mesure, build_mesure_attributes, build_modified_mesure, build_note, build_part,
    decimal_string,
};
use music_diff::types::{Attributes, Clef, Element, Mesure, Note, Part, Pitch, ScorePartwise, Time};
use music_diff::xml::{XmlElement, XmlNode};

fn note(t: &str, pitch: Option<Pitch>) -> Note {
    Note { pitch, duration: 2, typee: t.to_string(), voice: 1, staff: None, dot: false, is_chord: false }
}

/// A compact writing of a tree: `name[attr=value]{children}`.
fn show(e: &XmlElement) -> String {
    let attrs: Vec<String> = e.attributes.iter().map(|(k, v)| format!("{}={}", k, v)).collect();
    let children: Vec<String> = e
        .children
        .iter()
        .map(|c| match c {
            XmlNode::Element(x) => show(x),
            XmlNode::Text(t) => format!("'{}'", t),
            _ => "?".to_string(),
        })
        .collect();
    format!("{}[{}]{{{}}}", e.name, attrs.join(","), children.join(" "))
}

#[test]
fn decimal_writing() {
    assert_eq!(decimal_string(0), "0");
    assert_eq!(decimal_string(7), "7");
    assert_eq!(decimal_string(10), "10");
    assert_eq!(decimal_string(255), "255");
    assert_eq!(decimal_string(1234567), "1234567");
}

#[test]
fn note_elements() {
    let p = Some(Pitch { step: 'C', octave: 4, alter: Some(1) });
    assert_eq!(
        show(&build_note(&note("quarter", p), &"#000000".to_string())),
        "note[color=#000000]{pitch[]{step[]{'C'} octave[]{'4'}} duration[]{'2'} type[]{'quarter'}}"
    );
    assert_eq!(
        show(&build_note(&note("half", None), &"#69B32B".to_string())),
        "note[color=#69B32B]{rest[]{} duration[]{'2'} type[]{'half'}}"
    );
}

#[test]
fn attribute_elements() {
    let none = Mesure { attributes: None, notes: vec![] };
    assert_eq!(show(&build_mesure_attributes(&none)), "empty[]{}");
    let some = Mesure {
        attributes: Some(Attributes {
            divisions: 4,
            clef: vec![Clef { sign: 'G' }, Clef { sign: 'F' }],
            time: Time { beats: 3, beat_type: 4 },
            staves: Some(2),
            key: 1,
        }),
        notes: vec![],
    };
    assert_eq!(
        show(&build_mesure_attributes(&some)),
        "attributes[]{divisions[]{'4'} time[]{beats[]{'3'} beat_type[]{'4'}} clef[]{sign[]{'G'}} clef[]{sign[]{'F'}}}"
    );
}

#[test]
fn measure_elements() {
    let m = Mesure { attributes: None, notes: vec![note("quarter", None), note("half", None)] };
    let att = build_mesure_attributes(&m);
    assert_eq!(
        show(&build_mesure(&m, 0, "#F94144".to_string(), att)),
        "measure[number=1]{empty[]{} note[color=#F94144]{rest[]{} duration[]{'2'} type[]{'quarter'}} note[color=#F94144]{rest[]{} duration[]{'2'} type[]{'half'}}}"
    );
}

#[test]
fn modified_measure_elements() {
    let steps = vec![
        Diff::Unmodified(Element::note(note("a", None))),
        Diff::Added(Element::note(note("b", None))),
        Diff::Removed(Element::note(note("c", None))),
        Diff::Modified(Element::note(note("d", None)), Box::new(vec![])),
        Diff::Added(Element::clef(Clef { sign: 'G' })),
    ];
    let att = build_mesure_attributes(&Mesure { attributes: None, notes: vec![] });
    let colours: Vec<String> = build_modified_mesure(4, att, &steps)
        .children
        .iter()
        .skip(1)
        .map(|c| match c {
            XmlNode::Element(e) => e.attributes[0].1.clone(),
            _ => String::new(),
        })
        .collect();
    assert_eq!(colours, vec!["#000000", "#69B32B", "#F94144", "#F9C74F"]);
}

#[test]
fn part_elements_follow_the_comparison() {
    let src = ScorePartwise { parts: vec![Part { measures: vec![Mesure { attributes: None, notes: vec![note("a", None)] }] }] };
    let dst = ScorePartwise {
        parts: vec![Part {
            measures: vec![
                Mesure { attributes: None, notes: vec![note("a", None)] },
                Mesure { attributes: None, notes: vec![note("b", None)] },
            ],
        }],
    };
    let d = diff(&src, &dst);
    let p = build_part(0, &d[0]);
    assert_eq!(p.name, "part");
    assert_eq!(p.attributes, vec![("id".to_string(), "P1".to_string())]);
    let numbers: Vec<String> = p
        .children
        .iter()
        .map(|c| match c {
            XmlNode::Element(e) => format!("{}:{}", e.attributes[0].1, show(match &e.children[1] {
                XmlNode::Element(n) => n,
                _ => panic!(),
            })),
            _ => String::new(),
        })
        .collect();
    assert_eq!(
        numbers,
        vec![
            "1:note[color=#000000]{rest[]{} duration[]{'2'} type[]{'a'}}",
            "2:note[color=#69B32B]{rest[]{} duration[]{'2'} type[]{'b'}}",
        ]
    );
}

#[test]
fn document_replaces_parts() {
    let root = XmlElement {
        prefix: None,
        namespace: None,
        namespaces: None,
        name: "score-partwise".to_string(),
        attributes: vec![("version".to_string(), "3.1".to_string())],
        children: vec![
            XmlNode::Element(XmlElement { prefix: None, namespace: None, namespaces: None, name: "part-list".to_string(), attributes: vec![], children: vec![] }),
            XmlNode::Element(XmlElement { prefix: None, namespace: None, namespaces: None, name: "part".to_string(), attributes: vec![], children: vec![] }),
            XmlNode::Element(XmlElement { prefix: None, namespace: None, namespaces: None, name: "credit".to_string(), attributes: vec![], children: vec![] }),
        ],
    };
    let diffs: Vec<Vec<Diff>> = vec![vec![], vec![]];
    let doc = build_diff_document(root, &diffs);
    assert_eq!(doc.name, "score-partwise");
    assert_eq!(doc.attributes, vec![("version".to_string(), "3.1".to_string())]);
    assert_eq!(show(&doc), "score-partwise[version=3.1]{part-list[]{} credit[]{} part[id=P1]{} part[id=P2]{}}");
}
