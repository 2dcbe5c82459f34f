use music_diff::diff::{
    compute_diff_notes, compute_diff_part, diff, print_diff_lines, Diff, DiffLine, LCSMeasuresLength,
    LCSNotesLength,
};
use music_diff::types::{Attributes, Clef, Element, Mesure, Note, Part, Pitch, ScorePartwise, Time};

fn note(t: &str) -> Note {
    Note {
        pitch: None,
        duration: 1,
        typee: t.to_string(),
        voice: 1,
        staff: None,
        dot: false,
        is_chord: false,
    }
}

fn timed(t: &str, duration: u8) -> Note {
    Note { duration, ..note(t) }
}

fn mesure(types: &[&str]) -> Mesure {
    Mesure { attributes: None, notes: types.iter().map(|t| note(t)).collect() }
}

fn with_divisions(m: Mesure, divisions: u8) -> Mesure {
    Mesure {
        attributes: Some(Attributes {
            divisions,
            clef: vec![Clef { sign: 'G' }],
            time: Time { beats: 4, beat_type: 4 },
            staves: None,
            key: 0,
        }),
        ..m
    }
}

fn part(ms: Vec<Mesure>) -> Part {
    Part { measures: ms }
}

/// A short description of a step: its kind and the types of the notes of
/// the element it is about.
fn describe(d: &Diff) -> String {
    fn elem(e: &Element) -> String {
        match e {
            Element::note(n) => n.typee.clone(),
            Element::mesure(m) => format!("[{}]", m.notes.iter().map(|n| n.typee.clone()).collect::<Vec<_>>().join(",")),
            _ => "?".to_string(),
        }
    }
    match d {
        Diff::Unmodified(e) => format!("U {}", elem(e)),
        Diff::Added(e) => format!("A {}", elem(e)),
        Diff::Removed(e) => format!("R {}", elem(e)),
        Diff::Modified(e, inner) => {
            format!("M {} {{{}}}", elem(e), inner.iter().map(describe).collect::<Vec<_>>().join("; "))
        },
    }
}

fn describe_all(ds: &Vec<Diff>) -> Vec<String> {
    ds.iter().map(describe).collect()
}

fn notes_diff(src: &Mesure, dst: &Mesure) -> Vec<Diff> {
    let lcs = LCSNotesLength(src, dst);
    let i = lcs.len() as isize - 1;
    let j = lcs[0].len() as isize - 1;
    compute_diff_notes(src, dst, lcs, i, j, false)
}

fn part_diff(src: &Part, dst: &Part) -> Vec<Diff> {
    let lcs = LCSMeasuresLength(src, dst);
    let i = lcs.len() as isize - 1;
    let j = lcs[0].len() as isize - 1;
    compute_diff_part(src, dst, lcs, i, j, false)
}

#[test]
fn lcs_notes_classic_example() {
    let src = mesure(&["A", "B", "C", "B", "D", "A", "B"]);
    let dst = mesure(&["B", "D", "C", "A", "B", "A"]);
    let c = LCSNotesLength(&src, &dst);
    assert_eq!(c.len(), 8);
    assert!(c.iter().all(|r| r.len() == 7));
    assert_eq!(c[7][6], 4);
    assert_eq!(c[0], vec![0; 7]);
    assert!(c.iter().all(|r| r[0] == 0));
    assert_eq!(c[1], vec![0, 0, 0, 0, 1, 1, 1]);
    assert_eq!(c[2], vec![0, 1, 1, 1, 1, 2, 2]);
}

#[test]
fn lcs_notes_of_identical_measures_is_their_length() {
    let m = mesure(&["A", "B", "C"]);
    let c = LCSNotesLength(&m, &m);
    for k in 0..4 {
        for l in 0..4 {
            assert_eq!(c[k][l] as usize, k.min(l));
        }
    }
}

#[test]
fn lcs_notes_empty_source() {
    let c = LCSNotesLength(&mesure(&[]), &mesure(&["A", "B"]));
    assert_eq!(c, vec![vec![0, 0, 0]]);
}

#[test]
fn lcs_notes_pairs_by_type_pitch_voice_staff_dot_only() {
    let a = note("quarter");
    let mut chord = note("quarter");
    chord.is_chord = true;
    chord.duration = 9;
    let mut other_voice = note("quarter");
    other_voice.voice = 2;
    let mut dotted = note("quarter");
    dotted.dot = true;
    let mut pitched = note("quarter");
    pitched.pitch = Some(Pitch { step: 'C', octave: 4, alter: None });
    let src = Mesure { attributes: None, notes: vec![a] };
    for (n, expected) in [(chord, 1), (other_voice, 0), (dotted, 0), (pitched, 0)] {
        let dst = Mesure { attributes: None, notes: vec![n] };
        assert_eq!(LCSNotesLength(&src, &dst)[1][1], expected);
    }
}

#[test]
fn lcs_measures_compares_relative_durations() {
    let src = part(vec![with_divisions(Mesure { attributes: None, notes: vec![timed("q", 1)] }, 1)]);
    let same = part(vec![with_divisions(Mesure { attributes: None, notes: vec![timed("q", 2)] }, 2)]);
    let longer = part(vec![with_divisions(Mesure { attributes: None, notes: vec![timed("q", 1)] }, 2)]);
    assert_eq!(LCSMeasuresLength(&src, &same)[1][1], 1);
    assert_eq!(LCSMeasuresLength(&src, &longer)[1][1], 0);
}

#[test]
fn lcs_measures_without_divisions() {
    // With no divisions on either side a positive duration compares as
    // infinite on both sides, and a zero one never compares equal.
    let one = part(vec![Mesure { attributes: None, notes: vec![timed("q", 1)] }]);
    let two = part(vec![Mesure { attributes: None, notes: vec![timed("q", 2)] }]);
    let zero = part(vec![Mesure { attributes: None, notes: vec![timed("q", 0)] }]);
    assert_eq!(LCSMeasuresLength(&one, &two)[1][1], 1);
    assert_eq!(LCSMeasuresLength(&zero, &zero)[1][1], 0);
    let divided = part(vec![with_divisions(Mesure { attributes: None, notes: vec![timed("q", 1)] }, 1)]);
    assert_eq!(LCSMeasuresLength(&one, &divided)[1][1], 0);
}

#[test]
fn lcs_measures_divisions_carry_over_rows() {
    // From the second row on, a destination measure before any attributes
    // uses the divisions left over from the end of the previous row.
    let src = part(vec![mesure(&["x"]), Mesure { attributes: None, notes: vec![timed("q", 1)] }]);
    let dst = part(vec![
        Mesure { attributes: None, notes: vec![timed("q", 1)] },
        with_divisions(mesure(&["y"]), 2),
    ]);
    let c = LCSMeasuresLength(&src, &dst);
    assert_eq!(c, vec![vec![0, 0, 0], vec![0, 0, 0], vec![0, 0, 0]]);
}

#[test]
fn lcs_measures_durations_agree_with_f32_quotients() {
    let refs: [(u8, u8); 12] = [(1, 1), (2, 4), (3, 12), (0, 5), (7, 3), (255, 255), (1, 0), (0, 0), (200, 7), (5, 255), (6, 9), (16, 24)];
    for &(b, y) in refs.iter() {
        let dst = part(vec![Mesure { attributes: Some(Attributes { divisions: y, clef: vec![], time: Time { beats: 0, beat_type: 0 }, staves: None, key: 0 }), notes: vec![timed("q", b)] }]);
        let dst = if y == 0 { part(vec![Mesure { attributes: None, notes: vec![timed("q", b)] }]) } else { dst };
        for x in 0..=255u8 {
            for a in (0..=255u8).step_by(5).chain([2u8, 4, 6, 8, 12, 14, 21, 56, 200].into_iter()) {
                let src = if x == 0 {
                    part(vec![Mesure { attributes: None, notes: vec![timed("q", a)] }])
                } else {
                    part(vec![with_divisions(Mesure { attributes: None, notes: vec![timed("q", a)] }, x)])
                };
                let expected = (a as f32) / (x as f32) == (b as f32) / (y as f32);
                let got = LCSMeasuresLength(&src, &dst)[1][1] == 1;
                assert_eq!(got, expected, "{}/{} vs {}/{}", a, x, b, y);
            }
        }
    }
}

#[test]
fn diff_notes_addition() {
    let d = notes_diff(&mesure(&["A", "B"]), &mesure(&["A", "C", "B"]));
    assert_eq!(describe_all(&d), vec!["U A", "A C", "U B"]);
}

#[test]
fn diff_notes_removal() {
    let d = notes_diff(&mesure(&["A", "C", "B"]), &mesure(&["A", "B"]));
    assert_eq!(describe_all(&d), vec!["U A", "R C", "U B"]);
}

#[test]
fn diff_notes_replacement_is_a_modification() {
    let d = notes_diff(&mesure(&["A"]), &mesure(&["C"]));
    assert_eq!(describe_all(&d), vec!["M C {}"]);
    let d = notes_diff(&mesure(&["A", "X", "B"]), &mesure(&["A", "Y", "B"]));
    assert_eq!(describe_all(&d), vec!["U A", "M Y {}", "U B"]);
}

#[test]
fn diff_notes_self_keeps_everything() {
    let m = mesure(&["A", "B", "A", "C"]);
    let d = notes_diff(&m, &m);
    assert_eq!(describe_all(&d), vec!["U A", "U B", "U A", "U C"]);
}

#[test]
fn diff_notes_against_empty() {
    let d = notes_diff(&mesure(&[]), &mesure(&["A", "B"]));
    assert_eq!(describe_all(&d), vec!["A A", "A B"]);
    let d = notes_diff(&mesure(&["A", "B"]), &mesure(&[]));
    assert_eq!(describe_all(&d), vec!["R A", "R B"]);
    let d = notes_diff(&mesure(&[]), &mesure(&[]));
    assert!(d.is_empty());
}

#[test]
fn diff_notes_negative_position_is_empty() {
    let m = mesure(&["A"]);
    assert!(compute_diff_notes(&m, &m, vec![], -1, 0, false).is_empty());
    assert!(compute_diff_notes(&m, &m, vec![], 0, -3, true).is_empty());
}

#[test]
fn diff_notes_accounts_for_every_note() {
    let src = mesure(&["A", "B", "C", "D", "E"]);
    let dst = mesure(&["B", "X", "D", "Y", "Z", "E"]);
    let d = notes_diff(&src, &dst);
    let from_src = d.iter().filter(|x| !matches!(x, Diff::Added(_))).count();
    let from_dst = d.iter().filter(|x| !matches!(x, Diff::Removed(_))).count();
    assert_eq!(from_src, 5);
    assert_eq!(from_dst, 6);
}

#[test]
fn diff_part_modified_measure_carries_note_diff() {
    let d = part_diff(&part(vec![mesure(&["A"])]), &part(vec![mesure(&["C"])]));
    assert_eq!(describe_all(&d), vec!["M [A] {M C {}}"]);
}

#[test]
fn diff_part_added_and_removed_measures() {
    let src = part(vec![mesure(&["A"]), mesure(&["B"])]);
    let dst = part(vec![mesure(&["A"]), mesure(&["B"]), mesure(&["C", "D"])]);
    assert_eq!(describe_all(&part_diff(&src, &dst)), vec!["U [A]", "U [B]", "A [C,D]"]);
    assert_eq!(describe_all(&part_diff(&dst, &src)), vec!["U [A]", "U [B]", "R [C,D]"]);
}

#[test]
fn diff_part_self_keeps_everything() {
    let p = part(vec![mesure(&["A"]), mesure(&["B", "C"]), mesure(&[])]);
    assert_eq!(describe_all(&part_diff(&p, &p)), vec!["U [A]", "U [B,C]", "U []"]);
}

#[test]
fn diff_part_against_empty() {
    let p = part(vec![mesure(&["A"]), mesure(&["B"])]);
    let e = part(vec![]);
    assert_eq!(describe_all(&part_diff(&e, &p)), vec!["A [A]", "A [B]"]);
    assert_eq!(describe_all(&part_diff(&p, &e)), vec!["R [A]", "R [B]"]);
}

#[test]
fn diff_part_accounts_for_every_measure() {
    let src = part(vec![mesure(&["A"]), mesure(&["B"]), mesure(&["C"])]);
    let dst = part(vec![mesure(&["X"]), mesure(&["B"]), mesure(&["Y"]), mesure(&["Z"])]);
    let d = part_diff(&src, &dst);
    assert_eq!(d.iter().filter(|x| !matches!(x, Diff::Added(_))).count(), 3);
    assert_eq!(d.iter().filter(|x| !matches!(x, Diff::Removed(_))).count(), 4);
}

#[test]
fn diff_part_keeps_source_measures_in_order() {
    let src = part(vec![mesure(&["A"]), mesure(&["B"]), mesure(&["C"]), mesure(&["D", "E"])]);
    let dst = part(vec![mesure(&["X"]), mesure(&["B"]), mesure(&["D", "F"]), mesure(&["G"])]);
    let d = part_diff(&src, &dst);
    let source_side: Vec<Vec<String>> = d
        .iter()
        .filter_map(|x| match x {
            Diff::Unmodified(Element::mesure(m)) | Diff::Removed(Element::mesure(m)) | Diff::Modified(Element::mesure(m), _) => {
                Some(m.notes.iter().map(|n| n.typee.clone()).collect())
            },
            _ => None,
        })
        .collect();
    let expected: Vec<Vec<String>> =
        src.measures.iter().map(|m| m.notes.iter().map(|n| n.typee.clone()).collect()).collect();
    assert_eq!(source_side, expected);
}

#[test]
fn diff_scores_part_by_part() {
    let src = ScorePartwise { parts: vec![part(vec![mesure(&["A"])])] };
    let dst = ScorePartwise { parts: vec![part(vec![mesure(&["A"]), mesure(&["B"])]), part(vec![mesure(&["C"])])] };
    let d = diff(&src, &dst);
    assert_eq!(d.len(), 2);
    assert_eq!(describe_all(&d[0]), vec!["U [A]", "A [B]"]);
    assert_eq!(describe_all(&d[1]), vec!["A [C]"]);
}

#[test]
fn diff_scores_accounts_for_every_measure() {
    let src = ScorePartwise {
        parts: vec![part(vec![mesure(&["A"]), mesure(&["B"]), mesure(&["C"])]), part(vec![mesure(&["D"])])],
    };
    let dst = ScorePartwise {
        parts: vec![
            part(vec![mesure(&["X"]), mesure(&["B"])]),
            part(vec![mesure(&["D"]), mesure(&["E"])]),
            part(vec![mesure(&["F"]), mesure(&["G"]), mesure(&["H"])]),
        ],
    };
    let d = diff(&src, &dst);
    assert_eq!(d.len(), 3);
    let counts: Vec<(usize, usize)> = d
        .iter()
        .map(|p| {
            (
                p.iter().filter(|x| !matches!(x, Diff::Added(_))).count(),
                p.iter().filter(|x| !matches!(x, Diff::Removed(_))).count(),
            )
        })
        .collect();
    assert_eq!(counts, vec![(3, 2), (1, 2), (0, 3)]);
}

#[test]
fn diff_score_with_itself() {
    let s = ScorePartwise { parts: vec![part(vec![mesure(&["A"]), mesure(&["B"])]), part(vec![mesure(&["C"])])] };
    let d = diff(&s, &s);
    assert_eq!(describe_all(&d[0]), vec!["U [A]", "U [B]"]);
    assert_eq!(describe_all(&d[1]), vec!["U [C]"]);
}

#[test]
fn print_lines_of_first_parts() {
    let src = ScorePartwise { parts: vec![part(vec![mesure(&["A"]), mesure(&["B"])])] };
    let dst = ScorePartwise { parts: vec![part(vec![mesure(&["A"]), mesure(&["C"]), mesure(&["B"])])] };
    let lcs = LCSMeasuresLength(&src.parts[0], &dst.parts[0]);
    let lines = print_diff_lines(&src, &dst, lcs, 2, 3, false);
    assert_eq!(lines, vec![DiffLine::Blank, DiffLine::Same(0), DiffLine::Added(1), DiffLine::Same(1)]);
    let empty = ScorePartwise { parts: vec![] };
    assert_eq!(print_diff_lines(&empty, &empty, vec![], 0, 0, false), vec![DiffLine::Blank]);
}

#[test]
fn lcs_notes_tables_are_transposed() {
    let a = mesure(&["A", "B", "C", "B", "D"]);
    let b = mesure(&["B", "D", "C", "A"]);
    let t1 = LCSNotesLength(&a, &b);
    let t2 = LCSNotesLength(&b, &a);
    for k in 0..=a.notes.len() {
        for l in 0..=b.notes.len() {
            assert_eq!(t1[k][l], t2[l][k]);
        }
    }
}

#[test]
fn lcs_notes_table_of_a_measure_with_itself_is_full_on_its_diagonal() {
    let a = mesure(&["A", "B", "A", "C"]);
    let t = LCSNotesLength(&a, &a);
    for k in 0..=a.notes.len() {
        assert_eq!(t[k][k], k as u32);
    }
}

#[test]
fn lcs_notes_table_ignores_durations_and_chords() {
    let a = mesure(&["A", "B", "C"]);
    let b = mesure(&["B", "C", "D"]);
    let mut a2 = mesure(&["A", "B", "C"]);
    a2.notes[1].duration = 7;
    a2.notes[2].is_chord = true;
    let mut b2 = mesure(&["B", "C", "D"]);
    b2.notes[0].duration = 3;
    b2.notes[0].is_chord = true;
    assert_eq!(LCSNotesLength(&a, &b), LCSNotesLength(&a2, &b2));
}

#[test]
fn lcs_measures_tables_are_transposed_and_full_on_the_diagonal() {
    let a = part(vec![
        with_divisions(Mesure { attributes: None, notes: vec![timed("A", 2)] }, 2),
        Mesure { attributes: None, notes: vec![timed("B", 1)] },
        with_divisions(Mesure { attributes: None, notes: vec![timed("C", 4)] }, 4),
    ]);
    let b = part(vec![
        with_divisions(Mesure { attributes: None, notes: vec![timed("B", 2)] }, 4),
        Mesure { attributes: None, notes: vec![timed("C", 4)] },
    ]);
    let t1 = LCSMeasuresLength(&a, &b);
    let t2 = LCSMeasuresLength(&b, &a);
    for k in 0..=a.measures.len() {
        for l in 0..=b.measures.len() {
            assert_eq!(t1[k][l], t2[l][k]);
        }
    }
    let d = LCSMeasuresLength(&a, &a);
    for k in 0..=a.measures.len() {
        assert_eq!(d[k][k], k as u32);
    }
}

#[test]
fn diff_on_a_part_is_the_walk_through_its_measure_table() {
    let src = ScorePartwise { parts: vec![part(vec![mesure(&["A"]), mesure(&["B"]), mesure(&["C"])])] };
    let dst = ScorePartwise { parts: vec![part(vec![mesure(&["A"]), mesure(&["X"]), mesure(&["C"])]), part(vec![])] };
    let d = diff(&src, &dst);
    assert_eq!(describe_all(&d[0]), describe_all(&part_diff(&src.parts[0], &dst.parts[0])));
}

#[test]
fn a_modified_measure_carries_the_comparison_of_the_measures_it_pairs() {
    let src = part(vec![mesure(&["A"]), mesure(&["B", "C"]), mesure(&["D"])]);
    let dst = part(vec![mesure(&["A"]), mesure(&["B", "X"]), mesure(&["D"])]);
    let d = part_diff(&src, &dst);
    let (mut s, mut t) = (0usize, 0usize);
    let mut seen = 0;
    for step in &d {
        match step {
            Diff::Unmodified(_) => {
                s += 1;
                t += 1;
            },
            Diff::Removed(_) => s += 1,
            Diff::Added(_) => t += 1,
            Diff::Modified(Element::mesure(x), inner) => {
                s += 1;
                t += 1;
                assert_eq!(x, &src.measures[s - 1]);
                assert_eq!(describe_all(inner), describe_all(&notes_diff(&src.measures[s - 1], &dst.measures[t - 1])));
                seen += 1;
            },
            Diff::Modified(_, _) => panic!("a part-level step about something else than a measure"),
        }
    }
    assert_eq!(seen, 1);
}

#[test]
fn printing_a_part_against_itself_keeps_every_measure() {
    let s = ScorePartwise { parts: vec![part(vec![mesure(&["A"]), mesure(&["B"]), mesure(&["A"])])] };
    let lcs = LCSMeasuresLength(&s.parts[0], &s.parts[0]);
    for last_add in [false, true] {
        let lines = print_diff_lines(&s, &s, lcs.clone(), 3, 3, last_add);
        assert_eq!(lines, vec![DiffLine::Blank, DiffLine::Same(0), DiffLine::Same(1), DiffLine::Same(2)]);
    }
}
