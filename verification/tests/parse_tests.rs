use music_diff::parse::{
    parse_i8_exec, parse_score, parse_u8_exec, parsed_to_attributes, parsed_to_backup, parsed_to_clef,
    parsed_to_measure, parsed_to_note, parsed_to_part, parsed_to_pitch, parsed_to_time, string_to_i8,
    string_to_u8,
};
use music_diff::types::{Clef, Pitch, Time};
use music_diff::xml::{XmlElement, XmlNode};

fn el(name: &str, children: Vec<XmlNode>) -> XmlNode {
    XmlNode::Element(elem(name, children))
}

fn elem(name: &str, children: Vec<XmlNode>) -> XmlElement {
    XmlElement {
        prefix: None,
        namespace: None,
        namespaces: None,
        name: name.to_string(),
        attributes: vec![],
        children,
    }
}

fn txt(s: &str) -> XmlNode {
    XmlNode::Text(s.to_string())
}

fn leaf(name: &str, text: &str) -> XmlNode {
    el(name, vec![txt(text)])
}

fn pitch(step: &str, octave: &str) -> XmlNode {
    el("pitch", vec![leaf("step", step), leaf("octave", octave)])
}

fn note_el(step: &str, duration: &str, typ: &str) -> XmlNode {
    el("note", vec![pitch(step, "4"), leaf("duration", duration), leaf("type", typ)])
}

#[test]
fn numbers_read_as_rust_reads_them() {
    assert_eq!(parse_u8_exec("0"), Some(0));
    assert_eq!(parse_u8_exec("255"), Some(255));
    assert_eq!(parse_u8_exec("+12"), Some(12));
    assert_eq!(parse_u8_exec("007"), Some(7));
    assert_eq!(parse_u8_exec("256"), None);
    assert_eq!(parse_u8_exec("-1"), None);
    assert_eq!(parse_u8_exec(""), None);
    assert_eq!(parse_u8_exec("+"), None);
    assert_eq!(parse_u8_exec(" 1"), None);
    assert_eq!(parse_u8_exec("1a"), None);
    assert_eq!(parse_u8_exec("99999999999"), None);
    for s in ["0", "9", "10", "128", "254", "255", "256", "+3", "-0", "x", "١"] {
        assert_eq!(parse_u8_exec(s), s.parse::<u8>().ok(), "{}", s);
    }
    assert_eq!(parse_i8_exec("-128"), Some(-128));
    assert_eq!(parse_i8_exec("127"), Some(127));
    assert_eq!(parse_i8_exec("128"), None);
    assert_eq!(parse_i8_exec("-129"), None);
    assert_eq!(parse_i8_exec("-"), None);
    assert_eq!(parse_i8_exec("+-1"), None);
    for s in ["-3", "+3", "0", "-0", "-128", "127", "128", "-129", "--1", ""] {
        assert_eq!(parse_i8_exec(s), s.parse::<i8>().ok(), "{}", s);
    }
    assert_eq!(string_to_u8("42"), 42);
    assert_eq!(string_to_i8("-7"), -7);
}

#[test]
fn reads_time_clef_and_pitch() {
    let time = elem("time", vec![leaf("beats", "3"), leaf("beat-type", "8")]);
    assert_eq!(parsed_to_time(&time), Time { beats: 3, beat_type: 8 });
    assert_eq!(parsed_to_time(&elem("time", vec![])), Time { beats: 0, beat_type: 0 });
    let clef = elem("clef", vec![leaf("sign", "F"), leaf("line", "4")]);
    assert_eq!(parsed_to_clef(&clef), Clef { sign: 'F' });
    assert_eq!(parsed_to_clef(&elem("clef", vec![])), Clef { sign: 'a' });
    let p = elem("pitch", vec![leaf("step", "Bb"), leaf("alter", "-1"), leaf("octave", "3")]);
    assert_eq!(parsed_to_pitch(&p), Pitch { step: 'B', octave: 3, alter: Some(-1) });
}

#[test]
fn reads_a_full_note() {
    let n = elem(
        "note",
        vec![
            el("chord", vec![]),
            pitch("C", "5"),
            leaf("duration", "6"),
            leaf("voice", "2"),
            leaf("type", "quarter"),
            el("dot", vec![]),
            leaf("staff", "1"),
            el("stem", vec![txt("up")]),
        ],
    );
    let note = parsed_to_note(&n);
    assert_eq!(note.pitch, Some(Pitch { step: 'C', octave: 5, alter: None }));
    assert_eq!(note.duration, 6);
    assert_eq!(note.voice, 2);
    assert_eq!(note.typee, "quarter");
    assert!(note.dot);
    assert_eq!(note.staff, Some(1));
    assert!(note.is_chord);
}

#[test]
fn reads_defaults_and_rests() {
    let note = parsed_to_note(&elem("note", vec![]));
    assert_eq!(note.pitch, None);
    assert_eq!(note.duration, 0);
    assert_eq!(note.voice, 1);
    assert_eq!(note.typee, "");
    assert_eq!(note.staff, None);
    assert!(!note.dot && !note.is_chord);
    // A pitch after a rest is not read at all.
    let rest = elem("note", vec![el("rest", vec![]), el("pitch", vec![leaf("octave", "x")]), leaf("duration", "4")]);
    let note = parsed_to_note(&rest);
    assert_eq!(note.pitch, None);
    assert_eq!(note.duration, 4);
    // A pitch before a rest stays.
    let late_rest = elem("note", vec![pitch("D", "4"), el("rest", vec![])]);
    assert_eq!(parsed_to_note(&late_rest).pitch, Some(Pitch { step: 'D', octave: 4, alter: None }));
}

#[test]
fn reads_backup() {
    let b = parsed_to_backup(&elem("backup", vec![leaf("duration", "8")]));
    assert_eq!(b.typee, "backup");
    assert_eq!(b.duration, 8);
    assert_eq!(b.pitch, None);
    assert_eq!(b.voice, 1);
}

#[test]
fn reads_attributes() {
    let a = elem(
        "attributes",
        vec![
            leaf("divisions", "2"),
            el("key", vec![leaf("fifths", "-3"), leaf("mode", "minor")]),
            el("time", vec![leaf("beats", "4"), leaf("beat-type", "4")]),
            leaf("staves", "2"),
            el("clef", vec![leaf("sign", "G")]),
            el("clef", vec![leaf("sign", "F")]),
        ],
    );
    let a = parsed_to_attributes(&a);
    assert_eq!(a.divisions, 2);
    assert_eq!(a.key, -3);
    assert_eq!(a.time, Time { beats: 4, beat_type: 4 });
    assert_eq!(a.staves, Some(2));
    assert_eq!(a.clef, vec![Clef { sign: 'G' }, Clef { sign: 'F' }]);
}

#[test]
fn reads_measures_and_parts() {
    let m = elem(
        "measure",
        vec![
            el("attributes", vec![leaf("divisions", "1")]),
            note_el("C", "1", "quarter"),
            el("backup", vec![leaf("duration", "1")]),
            el("barline", vec![]),
            note_el("E", "2", "half"),
        ],
    );
    let mes = parsed_to_measure(&m);
    assert_eq!(mes.attributes.as_ref().map(|a| a.divisions), Some(1));
    let types: Vec<&str> = mes.notes.iter().map(|n| n.typee.as_str()).collect();
    assert_eq!(types, vec!["quarter", "backup", "half"]);
    let p = elem("part", vec![XmlNode::Element(m), el("measure", vec![])]);
    let part = parsed_to_part(&p);
    assert_eq!(part.measures.len(), 2);
    assert!(part.measures[1].notes.is_empty() && part.measures[1].attributes.is_none());
}

#[test]
fn reads_a_score_from_its_root() {
    let root = elem(
        "score-partwise",
        vec![
            el("part-list", vec![txt("ignored")]),
            el("part", vec![el("measure", vec![note_el("C", "1", "quarter")])]),
            el("part", vec![el("measure", vec![]), el("measure", vec![])]),
        ],
    );
    let score = parse_score(&root).expect("readable");
    assert_eq!(score.parts.len(), 2);
    assert_eq!(score.parts[0].measures[0].notes[0].typee, "quarter");
    assert_eq!(score.parts[1].measures.len(), 2);
}

#[test]
fn unreadable_scores() {
    // A text among the root's children.
    assert!(parse_score(&elem("score", vec![txt("x")])).is_none());
    // A comment inside a measure.
    let comment = elem("score", vec![el("part", vec![el("measure", vec![XmlNode::Comment("c".to_string())])])]);
    assert!(parse_score(&comment).is_none());
    // A duration that is not a u8.
    let bad = elem("score", vec![el("part", vec![el("measure", vec![el("note", vec![leaf("duration", "300")])])])]);
    assert!(parse_score(&bad).is_none());
    // A duration element without text.
    let empty = elem("score", vec![el("part", vec![el("measure", vec![el("note", vec![el("duration", vec![])])])])]);
    assert!(parse_score(&empty).is_none());
    // An empty clef sign.
    let sign = elem(
        "score",
        vec![el("part", vec![el("measure", vec![el("attributes", vec![el("clef", vec![leaf("sign", "")])])])])],
    );
    assert!(parse_score(&sign).is_none());
    // A key whose first child is not an element.
    let key = elem(
        "score",
        vec![el("part", vec![el("measure", vec![el("attributes", vec![el("key", vec![txt("2")])])])])],
    );
    assert!(parse_score(&key).is_none());
    // A non-part element with odd content is skipped.
    let skipped = elem("score", vec![el("identification", vec![txt("anything")])]);
    assert_eq!(parse_score(&skipped).map(|s| s.parts.len()), Some(0));
}

#[test]
fn a_measure_keeps_its_last_attributes_and_its_notes_in_order() {
    let m = elem(
        "measure",
        vec![
            el("attributes", vec![leaf("divisions", "1")]),
            el("backup", vec![leaf("duration", "3")]),
            el("print", vec![txt("skipped")]),
            note_el("D", "2", "half"),
            el("attributes", vec![leaf("divisions", "4")]),
            note_el("F", "1", "eighth"),
        ],
    );
    let mes = parsed_to_measure(&m);
    assert_eq!(mes.attributes.as_ref().map(|a| a.divisions), Some(4));
    let read: Vec<(String, u8)> = mes.notes.iter().map(|n| (n.typee.clone(), n.duration)).collect();
    assert_eq!(read, vec![("backup".to_string(), 3), ("half".to_string(), 2), ("eighth".to_string(), 1)]);
    let p = elem("part", vec![el("measure", vec![]), XmlNode::Element(m), el("measure", vec![note_el("G", "1", "quarter")])]);
    let part = parsed_to_part(&p);
    assert_eq!(part.measures.len(), 3);
    assert_eq!(part.measures[1], mes);
    assert_eq!(part.measures[2].notes[0].typee, "quarter");
}
