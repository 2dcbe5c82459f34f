use music_diff::document::{read_document, ReadError};
use music_diff::types::{Clef, Pitch, Time};
use music_diff::xml::XmlNode;

const SMALL_SCORE: &str = r#"<?xml version="1.0" encoding="UTF-8"?>
<score-partwise version="3.1">
  <part-list>
    <score-part id="P1"><part-name>Piano</part-name></score-part>
  </part-list>
  <part id="P1">
    <measure number="1">
      <attributes>
        <divisions>2</divisions>
        <key><fifths>-1</fifths></key>
        <time><beats>3</beats><beat-type>4</beat-type></time>
        <staves>2</staves>
        <clef number="1"><sign>G</sign><line>2</line></clef>
        <clef number="2"><sign>F</sign><line>4</line></clef>
      </attributes>
      <note><pitch><step>C</step><alter>1</alter><octave>5</octave></pitch><duration>2</duration><voice>1</voice><type>quarter</type><staff>1</staff></note>
      <note><rest/><duration>4</duration><voice>1</voice><type>half</type><dot/></note>
      <backup><duration>6</duration></backup>
    </measure>
    <measure number="2">
      <note><pitch><step>D</step><octave>3</octave></pitch><duration>6</duration><voice>2</voice><type>half</type><chord/></note>
    </measure>
  </part>
</score-partwise>
"#;

#[test]
fn a_document_reads_as_its_score() {
    let (root, score) = read_document(SMALL_SCORE.as_bytes()).expect("a readable score");
    assert_eq!(root.name, "score-partwise");
    assert_eq!(root.attributes, vec![("version".to_string(), "3.1".to_string())]);
    assert_eq!(root.children.len(), 2);
    assert!(matches!(&root.children[0], XmlNode::Element(e) if e.name == "part-list"));

    assert_eq!(score.parts.len(), 1);
    let measures = &score.parts[0].measures;
    assert_eq!(measures.len(), 2);

    let first = &measures[0];
    let a = first.attributes.as_ref().expect("attributes");
    assert_eq!(a.divisions, 2);
    assert_eq!(a.key, -1);
    assert_eq!(a.time, Time { beats: 3, beat_type: 4 });
    assert_eq!(a.staves, Some(2));
    assert_eq!(a.clef, vec![Clef { sign: 'G' }, Clef { sign: 'F' }]);
    assert_eq!(first.notes.len(), 3);
    assert_eq!(first.notes[0].pitch, Some(Pitch { step: 'C', octave: 5, alter: Some(1) }));
    assert_eq!(first.notes[0].duration, 2);
    assert_eq!(first.notes[0].typee, "quarter");
    assert_eq!(first.notes[0].staff, Some(1));
    assert_eq!(first.notes[1].pitch, None);
    assert_eq!(first.notes[1].duration, 4);
    assert!(first.notes[1].dot);
    assert_eq!(first.notes[2].typee, "backup");
    assert_eq!(first.notes[2].duration, 6);

    let second = &measures[1];
    assert!(second.attributes.is_none());
    assert_eq!(second.notes.len(), 1);
    assert_eq!(second.notes[0].pitch, Some(Pitch { step: 'D', octave: 3, alter: None }));
    assert_eq!(second.notes[0].voice, 2);
    assert!(second.notes[0].is_chord);
}

#[test]
fn a_document_with_no_part_is_an_empty_score() {
    let (root, score) = read_document(b"<score-partwise><part-list/></score-partwise>").expect("readable");
    assert_eq!(root.name, "score-partwise");
    assert_eq!(score.parts.len(), 0);
}

#[test]
fn bytes_that_are_not_xml_are_refused() {
    assert_eq!(read_document(b"<score-partwise><part>").err(), Some(ReadError::MalformedXml));
    assert_eq!(read_document(b"").err(), Some(ReadError::MalformedXml));
    assert_eq!(read_document(b"not xml at all").err(), Some(ReadError::MalformedXml));
    assert_eq!(read_document(b"<a></b>").err(), Some(ReadError::MalformedXml));
}

#[test]
fn a_document_that_is_not_a_score_is_refused() {
    // Text directly under the root.
    assert_eq!(read_document(b"<score-partwise>loose text<part/></score-partwise>").err(), Some(ReadError::NotAScore));
    // A duration that is not a number.
    let bad = b"<score-partwise><part><measure><note><duration>two</duration></note></measure></part></score-partwise>";
    assert_eq!(read_document(bad).err(), Some(ReadError::NotAScore));
    // Text directly under a part.
    assert_eq!(read_document(b"<score-partwise><part>x</part></score-partwise>").err(), Some(ReadError::NotAScore));
}
