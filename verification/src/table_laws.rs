use vstd::prelude::*;
use crate::types::{MesureView, NoteView};
use crate::lcs::{is_lcs_table, lemma_lcs_len_zero, lemma_lcs_len_congruent, lemma_lcs_len_diagonal, lemma_lcs_len_transpose};
use crate::diff::{
    diff_notes_spec, diff_part_spec, divisions_in_force, lemma_measures_table, lemma_notes_table, measure_notes_diff,
    measures_match, measures_relation, measures_table, notes_agree_at, notes_relation, notes_table, part_diff,
};

verus! {

/// Swapping the two measures transposes the note table: entry `[k][l]` of
/// the table for `a` against `b` is entry `[l][k]` of the table for `b`
/// against `a`.
pub proof fn lemma_notes_tables_transposed(a: Seq<NoteView>, b: Seq<NoteView>, t1: Seq<Seq<u32>>, t2: Seq<Seq<u32>>)
    requires
        is_lcs_table(t1, notes_relation(a, b), a.len() as int, b.len() as int),
        is_lcs_table(t2, notes_relation(b, a), b.len() as int, a.len() as int),
    ensures
        forall|k: int, l: int| 0 <= k <= a.len() && 0 <= l <= b.len() ==> #[trigger] t1[k][l] == t2[l][k],
{
    assert forall|k: int, l: int| 0 <= k <= a.len() && 0 <= l <= b.len() implies #[trigger] t1[k][l] == t2[l][k] by {
        lemma_lcs_len_transpose(notes_relation(a, b), notes_relation(b, a), k, l);
    }
}

/// The note table of a measure against itself is full on its diagonal: the
/// first `k` notes have `k` notes in common with themselves.
pub proof fn lemma_notes_table_diagonal(a: Seq<NoteView>, t: Seq<Seq<u32>>)
    requires
        is_lcs_table(t, notes_relation(a, a), a.len() as int, a.len() as int),
    ensures
        forall|k: int| 0 <= k <= a.len() ==> #[trigger] t[k][k] == k,
{
    assert forall|k: int| 0 <= k <= a.len() implies #[trigger] t[k][k] == k by {
        lemma_lcs_len_diagonal(notes_relation(a, a), k);
    }
}

/// Two notes alike in all but their duration and chord flag.
pub open spec fn notes_alike(a: NoteView, b: NoteView) -> bool {
    &&& a.pitch == b.pitch
    &&& a.typee == b.typee
    &&& a.voice == b.voice
    &&& a.staff == b.staff
    &&& a.dot == b.dot
}

/// The note table does not depend on durations or chord flags: measures
/// whose notes are alike place by place but for those give the same table.
pub proof fn lemma_notes_table_ignores_duration_and_chord(
    s: Seq<NoteView>,
    d: Seq<NoteView>,
    s2: Seq<NoteView>,
    d2: Seq<NoteView>,
    t1: Seq<Seq<u32>>,
    t2: Seq<Seq<u32>>,
)
    requires
        s2.len() == s.len(),
        d2.len() == d.len(),
        forall|x: int| 0 <= x < s.len() ==> notes_alike(#[trigger] s[x], s2[x]),
        forall|y: int| 0 <= y < d.len() ==> notes_alike(#[trigger] d[y], d2[y]),
        is_lcs_table(t1, notes_relation(s, d), s.len() as int, d.len() as int),
        is_lcs_table(t2, notes_relation(s2, d2), s.len() as int, d.len() as int),
    ensures
        t1 == t2,
{
    assert forall|x: int, y: int| 0 <= x < s.len() && 0 <= y < d.len() implies #[trigger] notes_relation(s, d)(x, y)
        == notes_relation(s2, d2)(x, y) by {
        assert(notes_alike(s[x], s2[x]));
        assert(notes_alike(d[y], d2[y]));
    }
    assert forall|k: int| 0 <= k < t1.len() implies #[trigger] t1[k] == t2[k] by {
        assert forall|l: int| 0 <= l < t1[k].len() implies t1[k][l] == t2[k][l] by {
            lemma_lcs_len_congruent(notes_relation(s, d), notes_relation(s2, d2), k, l);
        }
        assert(t1[k] =~= t2[k]);
    }
    assert(t1 =~= t2);
}

/// Every measure of the part that has attributes gives positive divisions,
/// and the first measure, if there is one, has attributes.
pub open spec fn divisions_given(ms: Seq<MesureView>) -> bool {
    &&& ms.len() > 0 ==> ms[0].attributes is Some
    &&& forall|k: int|
        0 <= k < ms.len() ==> match #[trigger] ms[k].attributes {
            Some(a) => a.divisions > 0,
            None => true,
        }
}

/// In such a part the divisions in force at every measure are given and
/// positive.
proof fn lemma_divisions_in_force_positive(ms: Seq<MesureView>, n: int)
    requires
        divisions_given(ms),
        1 <= n <= ms.len(),
    ensures
        divisions_in_force(ms, n) is Some,
        divisions_in_force(ms, n).unwrap() > 0,
    decreases n,
{
    let a = ms[n - 1].attributes;
    if a is None {
        lemma_divisions_in_force_positive(ms, n - 1);
    }
}

/// Measure `x` of `s` and measure `y` of `d` pair in the table of `s` against
/// `d` exactly when measure `y` of `d` and measure `x` of `s` pair in the table
/// of `d` against `s`, when both parts give their divisions.
proof fn lemma_measures_relation_symmetric(s: Seq<MesureView>, d: Seq<MesureView>, x: int, y: int)
    requires
        divisions_given(s),
        divisions_given(d),
        0 <= x < s.len(),
        0 <= y < d.len(),
    ensures
        measures_relation(d, s)(y, x) == measures_relation(s, d)(x, y),
{
    lemma_divisions_in_force_positive(s, x + 1);
    lemma_divisions_in_force_positive(d, y + 1);
    let ds = divisions_in_force(s, x + 1).unwrap();
    let dd = divisions_in_force(d, y + 1).unwrap();
    let a = s[x];
    let b = d[y];
    assert(measures_relation(s, d)(x, y) == measures_match(a, b, ds, dd));
    assert(measures_relation(d, s)(y, x) == measures_match(b, a, dd, ds));
    if a.notes.len() == b.notes.len() {
        assert forall|ni: int| 0 <= ni < a.notes.len() implies #[trigger] notes_agree_at(a, b, ni, ds, dd)
            == notes_agree_at(b, a, ni, dd, ds) by {}
        if measures_match(a, b, ds, dd) {
            assert forall|ni: int| 0 <= ni < b.notes.len() implies #[trigger] notes_agree_at(b, a, ni, dd, ds) by {
                assert(notes_agree_at(a, b, ni, ds, dd));
            }
        }
        if measures_match(b, a, dd, ds) {
            assert forall|ni: int| 0 <= ni < a.notes.len() implies #[trigger] notes_agree_at(a, b, ni, ds, dd) by {
                assert(notes_agree_at(b, a, ni, dd, ds));
            }
        }
    }
}

/// Swapping the two parts transposes the measure table, when both parts give
/// their divisions: entry `[k][l]` of the table for `a` against `b` is entry
/// `[l][k]` of the table for `b` against `a`.
pub proof fn lemma_measures_tables_transposed(
    a: Seq<MesureView>,
    b: Seq<MesureView>,
    t1: Seq<Seq<u32>>,
    t2: Seq<Seq<u32>>,
)
    requires
        divisions_given(a),
        divisions_given(b),
        is_lcs_table(t1, measures_relation(a, b), a.len() as int, b.len() as int),
        is_lcs_table(t2, measures_relation(b, a), b.len() as int, a.len() as int),
    ensures
        forall|k: int, l: int| 0 <= k <= a.len() && 0 <= l <= b.len() ==> #[trigger] t1[k][l] == t2[l][k],
{
    assert forall|k: int, l: int| 0 <= k <= a.len() && 0 <= l <= b.len() implies #[trigger] t1[k][l] == t2[l][k] by {
        assert forall|x: int, y: int| 0 <= x < k && 0 <= y < l implies #[trigger] measures_relation(b, a)(y, x)
            == measures_relation(a, b)(x, y) by {
            lemma_measures_relation_symmetric(a, b, x, y);
        }
        lemma_lcs_len_transpose(measures_relation(a, b), measures_relation(b, a), k, l);
    }
}

/// The measure table of a part against itself is full on its diagonal, when
/// the part gives its divisions: the first `k` measures have `k` measures in
/// common with themselves.
pub proof fn lemma_measures_table_diagonal(p: Seq<MesureView>, t: Seq<Seq<u32>>)
    requires
        divisions_given(p),
        is_lcs_table(t, measures_relation(p, p), p.len() as int, p.len() as int),
    ensures
        forall|k: int| 0 <= k <= p.len() ==> #[trigger] t[k][k] == k,
{
    assert forall|x: int| 0 <= x < p.len() implies #[trigger] measures_relation(p, p)(x, x) by {
        lemma_divisions_in_force_positive(p, x + 1);
        let dv = divisions_in_force(p, x + 1).unwrap();
        assert(measures_relation(p, p)(x, x) == measures_match(p[x], p[x], dv, dv));
        assert forall|ni: int| 0 <= ni < p[x].notes.len() implies #[trigger] notes_agree_at(p[x], p[x], ni, dv, dv) by {}
    }
    assert forall|k: int| 0 <= k <= p.len() implies #[trigger] t[k][k] == k by {
        lemma_lcs_len_diagonal(measures_relation(p, p), k);
    }
}

/// The table `LCSMeasuresLength` computes for two parts is `measures_table`,
/// so walking it back from its last entry gives the comparison that `diff`
/// reports for those parts.
pub proof fn lemma_part_diff_from_table(s: Seq<MesureView>, d: Seq<MesureView>, t: Seq<Seq<u32>>)
    requires
        is_lcs_table(t, measures_relation(s, d), s.len() as int, d.len() as int),
    ensures
        t == measures_table(s, d),
        diff_part_spec(s, d, t, s.len() as int, d.len() as int, false) == part_diff(s, d),
{
    lemma_measures_table(t, s, d);
}

/// The table `LCSNotesLength` computes for two measures is `notes_table`, so
/// walking it back from its last entry gives the note comparison that a
/// modified measure carries.
pub proof fn lemma_measure_notes_diff_from_table(a: MesureView, b: MesureView, t: Seq<Seq<u32>>)
    requires
        is_lcs_table(t, notes_relation(a.notes, b.notes), a.notes.len() as int, b.notes.len() as int),
    ensures
        t == notes_table(a.notes, b.notes),
        diff_notes_spec(a.notes, b.notes, t, a.notes.len() as int, b.notes.len() as int, false)
            == measure_notes_diff(a, b),
{
    lemma_notes_table(t, a.notes, b.notes);
}

/// Two measures pair in the measure table only if they have as many notes and
/// their notes agree place by place in pitch, type, voice, staff, chord flag
/// and dot, with durations in the same proportion to the divisions in force
/// for each measure (`da` for the source one, `db` for the destination one):
/// `a * db == b * da` when both are positive; when one is 0, both are 0 and
/// both durations positive.
pub proof fn lemma_measures_pair_only_alike(s: Seq<MesureView>, d: Seq<MesureView>, x: int, y: int)
    requires
        0 <= x < s.len(),
        0 <= y < d.len(),
        measures_relation(s, d)(x, y),
    ensures
        s[x].notes.len() == d[y].notes.len(),
        ({
            let da = crate::diff::src_divisions(s, x + 1);
            let db = crate::diff::dst_divisions(d, x + 1, y + 1);
            forall|ni: int|
                #![trigger s[x].notes[ni]]
                0 <= ni < s[x].notes.len() ==> {
                    &&& s[x].notes[ni].pitch == d[y].notes[ni].pitch
                    &&& s[x].notes[ni].typee == d[y].notes[ni].typee
                    &&& s[x].notes[ni].voice == d[y].notes[ni].voice
                    &&& s[x].notes[ni].staff == d[y].notes[ni].staff
                    &&& s[x].notes[ni].is_chord == d[y].notes[ni].is_chord
                    &&& s[x].notes[ni].dot == d[y].notes[ni].dot
                    &&& (da > 0 && db > 0 ==> s[x].notes[ni].duration * db == d[y].notes[ni].duration * da)
                    &&& (da == 0 || db == 0 ==> da == 0 && db == 0 && s[x].notes[ni].duration > 0
                        && d[y].notes[ni].duration > 0)
                }
        }),
{
    let da = crate::diff::src_divisions(s, x + 1);
    let db = crate::diff::dst_divisions(d, x + 1, y + 1);
    assert(measures_match(s[x], d[y], da, db));
    assert forall|ni: int| #![trigger s[x].notes[ni]] 0 <= ni < s[x].notes.len() implies {
        &&& s[x].notes[ni].pitch == d[y].notes[ni].pitch
        &&& s[x].notes[ni].typee == d[y].notes[ni].typee
        &&& s[x].notes[ni].voice == d[y].notes[ni].voice
        &&& s[x].notes[ni].staff == d[y].notes[ni].staff
        &&& s[x].notes[ni].is_chord == d[y].notes[ni].is_chord
        &&& s[x].notes[ni].dot == d[y].notes[ni].dot
        &&& (da > 0 && db > 0 ==> s[x].notes[ni].duration * db == d[y].notes[ni].duration * da)
        &&& (da == 0 || db == 0 ==> da == 0 && db == 0 && s[x].notes[ni].duration > 0 && d[y].notes[ni].duration > 0)
    } by {
        assert(notes_agree_at(s[x], d[y], ni, da, db));
    }
}

/// Two notes pair in the note table only if they agree in type, pitch, voice,
/// staff and dot.
pub proof fn lemma_notes_pair_only_alike(s: Seq<NoteView>, d: Seq<NoteView>, x: int, y: int)
    requires
        notes_relation(s, d)(x, y),
    ensures
        s[x].typee == d[y].typee,
        s[x].pitch == d[y].pitch,
        s[x].voice == d[y].voice,
        s[x].staff == d[y].staff,
        s[x].dot == d[y].dot,
{
}

/// An entry of a table of common-subsequence lengths is 0 exactly when no
/// item of the first prefix is paired with an item of the second: two parts
/// none of whose measures pair (say, every measure of one differs from every
/// measure of the other in the pitch of a note) have a table of zeros.
pub proof fn lemma_table_entry_zero(t: Seq<Seq<u32>>, m: spec_fn(int, int) -> bool, n1: int, n2: int, k: int, l: int)
    requires
        is_lcs_table(t, m, n1, n2),
        0 <= k <= n1,
        0 <= l <= n2,
    ensures
        t[k][l] == 0 <==> forall|x: int, y: int| 0 <= x < k && 0 <= y < l ==> !#[trigger] m(x, y),
{
    lemma_lcs_len_zero(m, k, l);
}

/// The divisions in force after the first `n` measures are those of the last
/// of them that has attributes, and there are none when none of them has any.
pub proof fn lemma_divisions_in_force_is_last(ms: Seq<MesureView>, n: int)
    requires
        0 <= n <= ms.len(),
    ensures
        divisions_in_force(ms, n) is None <==> forall|k: int| 0 <= k < n ==> (#[trigger] ms[k]).attributes is None,
        forall|k: int|
            0 <= k < n && (#[trigger] ms[k]).attributes is Some && (forall|k2: int|
                k < k2 < n ==> (#[trigger] ms[k2]).attributes is None) ==> divisions_in_force(ms, n) == Some(
                ms[k].attributes.unwrap().divisions,
            ),
    decreases n,
{
    if n > 0 {
        lemma_divisions_in_force_is_last(ms, n - 1);
        if ms[n - 1].attributes is None {
            assert forall|k: int|
                0 <= k < n && (#[trigger] ms[k]).attributes is Some && (forall|k2: int|
                    k < k2 < n ==> (#[trigger] ms[k2]).attributes is None) implies divisions_in_force(ms, n) == Some(
                ms[k].attributes.unwrap().divisions,
            ) by {
                assert(k < n - 1);
                assert forall|k2: int| k < k2 < n - 1 implies (#[trigger] ms[k2]).attributes is None by {
                    assert(ms[k2].attributes is None);
                }
            }
        } else {
            assert forall|k: int|
                0 <= k < n && (#[trigger] ms[k]).attributes is Some && (forall|k2: int|
                    k < k2 < n ==> (#[trigger] ms[k2]).attributes is None) implies divisions_in_force(ms, n) == Some(
                ms[k].attributes.unwrap().divisions,
            ) by {
                if k < n - 1 {
                    assert(ms[n - 1].attributes is None);
                }
            }
        }
    }
}

} // verus!
