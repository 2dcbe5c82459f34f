use vstd::prelude::*;
use crate::types::{measures_view, Element, ElementView, Mesure, MesureView, Note, NoteView, Part, Pitch, ScorePartwise};
use crate::lcs::{is_lcs_table, lcs_len, lemma_lcs_len_bounded, max_nat};

verus! {

/// One step of a comparison: an element kept, added, removed, or modified
/// (with the comparison of its content).
#[derive(Debug)]
pub enum Diff {
    Unmodified(Element),
    Added(Element),
    Removed(Element),
    Modified(Element, Box<Vec<Diff>>),
}

/// A comparison step as a value.
pub enum DiffView {
    Unmodified(ElementView),
    Added(ElementView),
    Removed(ElementView),
    Modified(ElementView, Seq<DiffView>),
}

/// The view of one comparison step.
pub open spec fn diff_view(d: Diff) -> DiffView
    decreases d, 1int,
{
    match d {
        Diff::Unmodified(e) => DiffView::Unmodified(e@),
        Diff::Added(e) => DiffView::Added(e@),
        Diff::Removed(e) => DiffView::Removed(e@),
        Diff::Modified(e, inner) => DiffView::Modified(e@, diffs_view(inner@)),
    }
}

/// The views of a sequence of comparison steps.
pub open spec fn diffs_view(s: Seq<Diff>) -> Seq<DiffView>
    decreases s, 0int,
{
    Seq::new(s.len(), |i: int| if 0 <= i < s.len() { diff_view(s[i]) } else { arbitrary() })
}

impl View for Diff {
    type V = DiffView;

    open spec fn view(&self) -> DiffView {
        diff_view(*self)
    }
}


/// A table of counts as a sequence of rows.
pub open spec fn table_view(t: Seq<Vec<u32>>) -> Seq<Seq<u32>> {
    t.map_values(|r: Vec<u32>| r@)
}

/// Notes that the note-level common subsequence pairs: same type, pitch,
/// voice, staff and dot.
pub open spec fn notes_match(a: NoteView, b: NoteView) -> bool {
    &&& a.typee == b.typee
    &&& a.pitch == b.pitch
    &&& a.voice == b.voice
    &&& a.staff == b.staff
    &&& a.dot == b.dot
}

/// The pairing of source note `a` with destination note `b` by `notes_match`.
pub open spec fn notes_relation(s: Seq<NoteView>, d: Seq<NoteView>) -> spec_fn(int, int) -> bool {
    |a: int, b: int| notes_match(s[a], d[b])
}

/// Whether two optional pitches are equal.
fn same_pitch(a: &Option<Pitch>, b: &Option<Pitch>) -> (r: bool)
    ensures
        r == (*a == *b),
{
    match (a, b) {
        (Some(p), Some(q)) => {
            let same_alter = match (p.alter, q.alter) {
                (Some(x), Some(y)) => x == y,
                (None, None) => true,
                _ => false,
            };
            p.step == q.step && p.octave == q.octave && same_alter
        },
        (None, None) => true,
        _ => false,
    }
}

/// Whether two optional staff numbers are equal.
fn same_staff(a: Option<u8>, b: Option<u8>) -> (r: bool)
    ensures
        r == (a == b),
{
    match (a, b) {
        (Some(x), Some(y)) => x == y,
        (None, None) => true,
        _ => false,
    }
}

/// The executable form of `notes_match`.
fn notes_match_exec(a: &Note, b: &Note) -> (r: bool)
    ensures
        r == notes_match(a@, b@),
{
    a.typee == b.typee && same_pitch(&a.pitch, &b.pitch) && a.voice == b.voice && same_staff(a.staff, b.staff)
        && a.dot == b.dot
}

/// The larger of two counts.
fn max_u32(a: u32, b: u32) -> (r: u32)
    ensures
        r == max_nat(a as nat, b as nat),
{
    if a >= b { a } else { b }
}

/// A row of `n` zeros.
fn zero_row(n: usize) -> (r: Vec<u32>)
    ensures
        r@.len() == n,
        forall|x: int| 0 <= x < n ==> r@[x] == 0,
{
    let mut r: Vec<u32> = Vec::new();
    for l in 0..n
        invariant
            r@.len() == l,
            forall|x: int| 0 <= x < l ==> r@[x] == 0,
    {
        r.push(0);
    }
    r
}

/// The table of longest-common-subsequence lengths between the notes of two
/// measures: entry `[k][l]` is the length for the first `k` source notes and
/// the first `l` destination notes, notes paired by `notes_match`.
pub fn LCSNotesLength(src: &Mesure, dst: &Mesure) -> (c: Vec<Vec<u32>>)
    requires
        src.notes.len() < usize::MAX,
        dst.notes.len() < usize::MAX,
        src.notes.len() <= u32::MAX || dst.notes.len() <= u32::MAX,
    ensures
        is_lcs_table(
            table_view(c@),
            notes_relation(src@.notes, dst@.notes),
            src.notes.len() as int,
            dst.notes.len() as int,
        ),
{
    let i = src.notes.len() + 1;
    let j = dst.notes.len() + 1;
    let ghost m = notes_relation(src@.notes, dst@.notes);
    let mut c: Vec<Vec<u32>> = Vec::new();
    c.push(zero_row(j));
    for k in 1..i
        invariant
            i == src.notes.len() + 1,
            j == dst.notes.len() + 1,
            m == notes_relation(src@.notes, dst@.notes),
            src.notes.len() <= u32::MAX || dst.notes.len() <= u32::MAX,
            c@.len() == k,
            forall|r: int| 0 <= r < k ==> (#[trigger] c@[r])@.len() == j,
            forall|r: int, l: int| 0 <= r < k && 0 <= l < j ==> c@[r]@[l] == lcs_len(m, r, l),
    {
        let mut row: Vec<u32> = Vec::new();
        row.push(0);
        for l in 1..j
            invariant
                i == src.notes.len() + 1,
                j == dst.notes.len() + 1,
                1 <= k < i,
                m == notes_relation(src@.notes, dst@.notes),
                src.notes.len() <= u32::MAX || dst.notes.len() <= u32::MAX,
                c@.len() == k,
                forall|r: int| 0 <= r < k ==> (#[trigger] c@[r])@.len() == j,
                forall|r: int, x: int| 0 <= r < k && 0 <= x < j ==> c@[r]@[x] == lcs_len(m, r, x),
                row@.len() == l,
                forall|x: int| 0 <= x < l ==> row@[x] == lcs_len(m, k as int, x),
        {
            proof {
                lemma_lcs_len_bounded(m, k - 1, l - 1);
                assert(src@.notes[k - 1] == src.notes@[k - 1]@);
                assert(dst@.notes[l - 1] == dst.notes@[l - 1]@);
            }
            let v = if notes_match_exec(&src.notes[k - 1], &dst.notes[l - 1]) {
                c[k - 1][l - 1] + 1
            } else {
                max_u32(row[l - 1], c[k - 1][l])
            };
            proof {
                assert(m(k - 1, l - 1) == notes_match(src.notes@[k - 1]@, dst.notes@[l - 1]@));
                assert(c@[k - 1]@[l - 1] == lcs_len(m, k - 1, l - 1));
                assert(c@[k - 1]@[l as int] == lcs_len(m, k - 1, l as int));
                assert(row@[l - 1] == lcs_len(m, k as int, l - 1));
                assert(lcs_len(m, k as int, l as int) == if m(k - 1, l - 1) { lcs_len(m, k - 1, l - 1) + 1 } else {
                    max_nat(lcs_len(m, k as int, l - 1), lcs_len(m, k - 1, l as int)) });
                assert(v == lcs_len(m, k as int, l as int));
            }
            row.push(v);
        }
        c.push(row);
    }
    proof {
        let t = table_view(c@);
        assert forall|k: int| 0 <= k <= src.notes.len() implies (#[trigger] t[k]).len() == dst.notes.len() + 1 by {
            assert(t[k] == c@[k]@);
        }
        assert forall|k: int, l: int| 0 <= k <= src.notes.len() && 0 <= l <= dst.notes.len() implies t[k][l]
            == lcs_len(m, k, l) by {
            assert(t[k] == c@[k]@);
        }
    }
    c
}


/// Divisions of the last of the first `n` measures that has attributes, if any.
pub open spec fn divisions_in_force(ms: Seq<MesureView>, n: int) -> Option<u8>
    decreases n,
{
    if n <= 0 {
        None
    } else {
        match ms[n - 1].attributes {
            Some(a) => Some(a.divisions),
            None => divisions_in_force(ms, n - 1),
        }
    }
}

/// The divisions, or 0 when there are none.
pub open spec fn or_zero(d: Option<u8>) -> u8 {
    match d {
        Some(d) => d,
        None => 0,
    }
}

/// Divisions used for source measure `k - 1` while row `k` of the measure
/// table is filled: those of the last source measure up to it with attributes,
/// else 0.
pub open spec fn src_divisions(src: Seq<MesureView>, k: int) -> u8 {
    or_zero(divisions_in_force(src, k))
}

/// Divisions used for destination measure `l - 1` while row `k` of the measure
/// table is filled: those of the last destination measure up to it with
/// attributes; when there is none, 0 on the first row and, from the second
/// row on, the divisions left over from the end of the previous row (those of
/// the last destination measure with attributes, else 0).
pub open spec fn dst_divisions(dst: Seq<MesureView>, k: int, l: int) -> u8 {
    match divisions_in_force(dst, l) {
        Some(d) => d,
        None => if k >= 2 {
            or_zero(divisions_in_force(dst, dst.len() as int))
        } else {
            0
        },
    }
}

/// The quotients `a / x` and `b / y` of two durations by their divisions are
/// equal as `f32` values. With positive divisors the quotients of such small
/// integers are equal exactly when `a * y == b * x`; a zero divisor gives
/// infinity for a positive duration and not-a-number for a zero duration, and
/// only infinity equals infinity.
pub open spec fn same_duration(a: u8, x: u8, b: u8, y: u8) -> bool {
    if x == 0 || y == 0 {
        x == 0 && y == 0 && a > 0 && b > 0
    } else {
        a * y == b * x
    }
}

/// Notes at the same place of two measures that the measure comparison
/// treats as the same, durations aside: same pitch, type, voice, staff,
/// chord flag and dot.
pub open spec fn notes_same_in_measure(a: NoteView, b: NoteView) -> bool {
    &&& a.pitch == b.pitch
    &&& a.typee == b.typee
    &&& a.voice == b.voice
    &&& a.staff == b.staff
    &&& a.is_chord == b.is_chord
    &&& a.dot == b.dot
}

/// Note `ni` of measure `a` and note `ni` of measure `b` are the same and of
/// the same relative duration, given the divisions in use for each measure.
pub open spec fn notes_agree_at(a: MesureView, b: MesureView, ni: int, da: u8, db: u8) -> bool {
    notes_same_in_measure(a.notes[ni], b.notes[ni]) && same_duration(a.notes[ni].duration, da, b.notes[ni].duration, db)
}

/// Two measures that the measure-level common subsequence pairs, given the
/// divisions in use for each: as many notes, each pair the same and of the
/// same relative duration.
pub open spec fn measures_match(a: MesureView, b: MesureView, da: u8, db: u8) -> bool {
    &&& a.notes.len() == b.notes.len()
    &&& forall|ni: int| 0 <= ni < a.notes.len() ==> #[trigger] notes_agree_at(a, b, ni, da, db)
}

/// The pairing of source measure `a` with destination measure `b` used by
/// `LCSMeasuresLength`.
pub open spec fn measures_relation(src: Seq<MesureView>, dst: Seq<MesureView>) -> spec_fn(int, int) -> bool {
    |a: int, b: int| measures_match(src[a], dst[b], src_divisions(src, a + 1), dst_divisions(dst, a + 1, b + 1))
}

/// The executable form of `same_duration`.
fn same_duration_exec(a: u8, x: u8, b: u8, y: u8) -> (r: bool)
    ensures
        r == same_duration(a, x, b, y),
{
    if x == 0 || y == 0 {
        x == 0 && y == 0 && a > 0 && b > 0
    } else {
        proof {
            assert(0 <= a * y <= 255 * 255) by (nonlinear_arith)
                requires
                    a <= 255,
                    y <= 255,
            ;
            assert(0 <= b * x <= 255 * 255) by (nonlinear_arith)
                requires
                    b <= 255,
                    x <= 255,
            ;
        }
        (a as u32) * (y as u32) == (b as u32) * (x as u32)
    }
}

/// The executable form of `notes_same_in_measure`.
fn notes_same_in_measure_exec(a: &Note, b: &Note) -> (r: bool)
    ensures
        r == notes_same_in_measure(a@, b@),
{
    same_pitch(&a.pitch, &b.pitch) && a.typee == b.typee && a.voice == b.voice && same_staff(a.staff, b.staff)
        && a.is_chord == b.is_chord && a.dot == b.dot
}

/// The executable form of `measures_match`.
fn measures_match_exec(a: &Mesure, b: &Mesure, da: u8, db: u8) -> (r: bool)
    ensures
        r == measures_match(a@, b@, da, db),
{
    let mut same = true;
    if a.notes.len() == b.notes.len() {
        for ni in 0..a.notes.len()
            invariant
                a.notes.len() == b.notes.len(),
                same == forall|x: int| 0 <= x < ni ==> #[trigger] notes_agree_at(a@, b@, x, da, db),
        {
            proof {
                assert(a@.notes[ni as int] == a.notes@[ni as int]@);
                assert(b@.notes[ni as int] == b.notes@[ni as int]@);
            }
            let ghost before = same;
            same = same && notes_same_in_measure_exec(&a.notes[ni], &b.notes[ni]) && same_duration_exec(
                a.notes[ni].duration,
                da,
                b.notes[ni].duration,
                db,
            );
            proof {
                assert(same == (before && notes_agree_at(a@, b@, ni as int, da, db)));
                if !notes_agree_at(a@, b@, ni as int, da, db) {
                    assert(!(forall|x: int| 0 <= x < ni + 1 ==> #[trigger] notes_agree_at(a@, b@, x, da, db)));
                }
            }
        }
        same
    } else {
        false
    }
}

/// Divisions that the attributes of a measure bring, if it has any.
fn measure_divisions(m: &Mesure) -> (r: Option<u8>)
    ensures
        r == match m@.attributes {
            Some(a) => Some(a.divisions),
            None => None::<u8>,
        },
{
    match &m.attributes {
        Some(a) => Some(a.divisions),
        None => None,
    }
}

/// The table of longest-common-subsequence lengths between the measures of
/// two parts: entry `[k][l]` is the length for the first `k` source measures
/// and the first `l` destination measures, measures paired by
/// `measures_relation` (same notes with the same durations relative to the
/// divisions in use).
pub fn LCSMeasuresLength(src: &Part, dst: &Part) -> (c: Vec<Vec<u32>>)
    requires
        src.measures.len() < usize::MAX,
        dst.measures.len() < usize::MAX,
        src.measures.len() <= u32::MAX || dst.measures.len() <= u32::MAX,
    ensures
        is_lcs_table(
            table_view(c@),
            measures_relation(src@, dst@),
            src.measures.len() as int,
            dst.measures.len() as int,
        ),
{
    let i = src.measures.len() + 1;
    let j = dst.measures.len() + 1;
    let ghost sv = src@;
    let ghost dv = dst@;
    let ghost m = measures_relation(sv, dv);
    let ghost n2 = dst.measures.len() as int;
    let mut c: Vec<Vec<u32>> = Vec::new();
    let mut longest_division_src: u8 = 0;
    let mut longest_division_dst: u8 = 0;
    c.push(zero_row(j));
    for k in 1..i
        invariant
            i == src.measures.len() + 1,
            j == dst.measures.len() + 1,
            sv == src@,
            dv == dst@,
            n2 == dst.measures.len(),
            m == measures_relation(sv, dv),
            src.measures.len() <= u32::MAX || dst.measures.len() <= u32::MAX,
            c@.len() == k,
            forall|r: int| 0 <= r < k ==> (#[trigger] c@[r])@.len() == j,
            forall|r: int, l: int| 0 <= r < k && 0 <= l < j ==> c@[r]@[l] == lcs_len(m, r, l),
            n2 > 0 ==> longest_division_src == src_divisions(sv, k - 1),
            longest_division_dst == if k >= 2 { or_zero(divisions_in_force(dv, n2)) } else { 0 },
    {
        let mut row: Vec<u32> = Vec::new();
        row.push(0);
        for l in 1..j
            invariant
                i == src.measures.len() + 1,
                j == dst.measures.len() + 1,
                1 <= k < i,
                sv == src@,
                dv == dst@,
                n2 == dst.measures.len(),
                m == measures_relation(sv, dv),
                src.measures.len() <= u32::MAX || dst.measures.len() <= u32::MAX,
                c@.len() == k,
                forall|r: int| 0 <= r < k ==> (#[trigger] c@[r])@.len() == j,
                forall|r: int, x: int| 0 <= r < k && 0 <= x < j ==> c@[r]@[x] == lcs_len(m, r, x),
                row@.len() == l,
                forall|x: int| 0 <= x < l ==> row@[x] == lcs_len(m, k as int, x),
                l > 1 ==> longest_division_src == src_divisions(sv, k as int),
                l == 1 && n2 > 0 ==> longest_division_src == src_divisions(sv, k - 1),
                longest_division_dst == match divisions_in_force(dv, l - 1) {
                    Some(d) => d,
                    None => if k >= 2 { or_zero(divisions_in_force(dv, n2)) } else { 0 },
                },
        {
            proof {
                lemma_lcs_len_bounded(m, k - 1, l - 1);
                assert(sv[k - 1] == src.measures@[k - 1]@);
                assert(dv[l - 1] == dst.measures@[l - 1]@);
            }
            longest_division_src = match measure_divisions(&src.measures[k - 1]) {
                None => longest_division_src,
                Some(d) => d,
            };
            longest_division_dst = match measure_divisions(&dst.measures[l - 1]) {
                None => longest_division_dst,
                Some(d) => d,
            };
            let v = if measures_match_exec(
                &src.measures[k - 1],
                &dst.measures[l - 1],
                longest_division_src,
                longest_division_dst,
            ) {
                c[k - 1][l - 1] + 1
            } else {
                max_u32(row[l - 1], c[k - 1][l])
            };
            proof {
                assert(longest_division_src == src_divisions(sv, k as int));
                assert(longest_division_dst == dst_divisions(dv, k as int, l as int));
                assert(m(k - 1, l - 1) == measures_match(
                    src.measures@[k - 1]@,
                    dst.measures@[l - 1]@,
                    longest_division_src,
                    longest_division_dst,
                ));
                assert(c@[k - 1]@[l - 1] == lcs_len(m, k - 1, l - 1));
                assert(c@[k - 1]@[l as int] == lcs_len(m, k - 1, l as int));
                assert(row@[l - 1] == lcs_len(m, k as int, l - 1));
                assert(lcs_len(m, k as int, l as int) == if m(k - 1, l - 1) { lcs_len(m, k - 1, l - 1) + 1 } else {
                    max_nat(lcs_len(m, k as int, l - 1), lcs_len(m, k - 1, l as int)) });
            }
            row.push(v);
        }
        c.push(row);
    }
    proof {
        let t = table_view(c@);
        assert forall|k: int| 0 <= k <= src.measures.len() implies (#[trigger] t[k]).len() == dst.measures.len() + 1 by {
            assert(t[k] == c@[k]@);
        }
        assert forall|k: int, l: int| 0 <= k <= src.measures.len() && 0 <= l <= dst.measures.len() implies t[k][l]
            == lcs_len(m, k, l) by {
            assert(t[k] == c@[k]@);
        }
    }
    c
}


/// `diffs_view` of a sequence with one more step at its end.
proof fn lemma_diffs_view_push(s: Seq<Diff>, d: Diff)
    ensures
        diffs_view(s.push(d)) == diffs_view(s).push(diff_view(d)),
{
    assert(diffs_view(s.push(d)) =~= diffs_view(s).push(diff_view(d)));
}

/// `diffs_view` of a sequence without its last step.
proof fn lemma_diffs_view_drop_last(s: Seq<Diff>)
    requires
        s.len() > 0,
    ensures
        diffs_view(s.drop_last()) == diffs_view(s).drop_last(),
        diffs_view(s).last() == diff_view(s.last()),
{
    assert(diffs_view(s.drop_last()) =~= diffs_view(s).drop_last());
}

/// The table has the rows `0..=i`, each with the columns `0..=j`.
pub open spec fn table_covers(t: Seq<Seq<u32>>, i: int, j: int) -> bool {
    &&& t.len() > i
    &&& forall|r: int| 0 <= r <= i ==> (#[trigger] t[r]).len() > j
}

/// Notes that the note-level walk keeps as unmodified: same pitch and type.
pub open spec fn same_note_head(a: NoteView, b: NoteView) -> bool {
    a.pitch == b.pitch && a.typee == b.typee
}

/// At `(i, j)` the walk steps back over a destination item (an addition):
/// there is one, and either no source item is left or the table favours the
/// destination side, strictly right after an addition and on ties otherwise.
pub open spec fn walk_adds(t: Seq<Seq<u32>>, i: int, j: int, last_add: bool) -> bool {
    j > 0 && (i == 0 || (if last_add {
        t[i][j - 1] > t[i - 1][j]
    } else {
        t[i][j - 1] >= t[i - 1][j]
    }))
}

/// The steps `res` followed by the addition of note `n`; a removal just before
/// it becomes the modification into `n`.
pub open spec fn with_note_added(res: Seq<DiffView>, n: NoteView) -> Seq<DiffView> {
    if res.len() > 0 && res.last() is Removed {
        res.drop_last().push(DiffView::Modified(ElementView::note(n), Seq::empty()))
    } else {
        res.push(DiffView::Added(ElementView::note(n)))
    }
}

/// The steps `res` followed by the removal of note `removed`; an addition just
/// before it becomes the modification into `partner`, the destination note at
/// the walk's position.
pub open spec fn with_note_removed(res: Seq<DiffView>, removed: NoteView, partner: NoteView) -> Seq<DiffView> {
    if res.len() > 0 && res.last() is Added {
        res.drop_last().push(DiffView::Modified(ElementView::note(partner), Seq::empty()))
    } else {
        res.push(DiffView::Removed(ElementView::note(removed)))
    }
}

/// The note-level comparison of the first `i` source notes with the first `j`
/// destination notes, walking back through the table `t`: notes with the same
/// pitch and type are kept; otherwise the walk adds or removes as
/// `walk_adds` says, merging an adjacent removal and addition into a
/// modification.
pub open spec fn diff_notes_spec(
    s: Seq<NoteView>,
    d: Seq<NoteView>,
    t: Seq<Seq<u32>>,
    i: int,
    j: int,
    last_add: bool,
) -> Seq<DiffView>
    decreases (if i > 0 { i } else { 0 }) + (if j > 0 { j } else { 0 }),
{
    if i > 0 && j > 0 && same_note_head(s[i - 1], d[j - 1]) {
        diff_notes_spec(s, d, t, i - 1, j - 1, false).push(DiffView::Unmodified(ElementView::note(s[i - 1])))
    } else if walk_adds(t, i, j, last_add) {
        with_note_added(diff_notes_spec(s, d, t, i, j - 1, true), d[j - 1])
    } else if i > 0 {
        let res = diff_notes_spec(s, d, t, i - 1, j, false);
        if j == 0 {
            res.push(DiffView::Removed(ElementView::note(s[i - 1])))
        } else {
            with_note_removed(res, s[i - 1], d[j - 1])
        }
    } else {
        Seq::empty()
    }
}


/// The table holds every entry that the note-level walk from `(i, j)` compares:
/// at each position it reaches with items left on both sides that it does
/// not keep, the entries `[i][j - 1]` and `[i - 1][j]`.
pub open spec fn notes_walk_in_table(
    s: Seq<NoteView>,
    d: Seq<NoteView>,
    t: Seq<Seq<u32>>,
    i: int,
    j: int,
    last_add: bool,
) -> bool
    decreases (if i > 0 { i } else { 0 }) + (if j > 0 { j } else { 0 }),
{
    if i > 0 && j > 0 && same_note_head(s[i - 1], d[j - 1]) {
        notes_walk_in_table(s, d, t, i - 1, j - 1, false)
    } else if i > 0 && j > 0 && !(t.len() > i && t[i].len() > j - 1 && t[i - 1].len() > j) {
        false
    } else if walk_adds(t, i, j, last_add) {
        notes_walk_in_table(s, d, t, i, j - 1, true)
    } else if i > 0 {
        notes_walk_in_table(s, d, t, i - 1, j, false)
    } else {
        true
    }
}

/// A table with all the rows up to `i` and columns up to `j` holds every
/// entry that the walk from `(i, j)` compares.
pub proof fn lemma_notes_walk_in_table_covered(
    s: Seq<NoteView>,
    d: Seq<NoteView>,
    t: Seq<Seq<u32>>,
    i: int,
    j: int,
    last_add: bool,
)
    requires
        0 <= i,
        0 <= j,
        table_covers(t, i, j),
    ensures
        notes_walk_in_table(s, d, t, i, j, last_add),
    decreases i + j,
{
    if i > 0 && j > 0 && same_note_head(s[i - 1], d[j - 1]) {
        lemma_notes_walk_in_table_covered(s, d, t, i - 1, j - 1, false);
    } else if walk_adds(t, i, j, last_add) {
        lemma_notes_walk_in_table_covered(s, d, t, i, j - 1, true);
    } else if i > 0 {
        lemma_notes_walk_in_table_covered(s, d, t, i - 1, j, false);
    }
}

/// Whether two notes have the same pitch and type.
fn same_note_head_exec(a: &Note, b: &Note) -> (r: bool)
    ensures
        r == same_note_head(a@, b@),
{
    same_pitch(&a.pitch, &b.pitch) && a.typee == b.typee
}

/// Compares the first `i` notes of `src` with the first `j` notes of `dst`,
/// walking back from `(i, j)` through the table `lcs` (`last_add`: the step
/// just taken was an addition).
pub fn compute_diff_notes(
    src: &Mesure,
    dst: &Mesure,
    lcs: Vec<Vec<u32>>,
    i: isize,
    j: isize,
    last_add: bool,
) -> (res: Vec<Diff>)
    requires
        (i <= 0 && j <= 0) || (0 <= i <= src.notes.len() && 0 <= j <= dst.notes.len() && notes_walk_in_table(
            src@.notes,
            dst@.notes,
            table_view(lcs@),
            i as int,
            j as int,
            last_add,
        )),
    ensures
        diffs_view(res@) == diff_notes_spec(src@.notes, dst@.notes, table_view(lcs@), i as int, j as int, last_add),
    decreases (if i > 0 { i as int } else { 0 }) + (if j > 0 { j as int } else { 0 }),
{
    let ghost s = src@.notes;
    let ghost d = dst@.notes;
    let ghost t = table_view(lcs@);
    proof {
        if i > 0 {
            assert(s[i - 1] == src.notes@[i - 1]@);
        }
        if j > 0 {
            assert(d[j - 1] == dst.notes@[j - 1]@);
        }
        if i > 0 && j > 0 && t.len() > i {
            assert(t[i as int] == lcs@[i as int]@);
            assert(t[i - 1] == lcs@[i - 1]@);
        }
    }
    if i > 0 && j > 0 && same_note_head_exec(&src.notes[(i - 1) as usize], &dst.notes[(j - 1) as usize]) {
        let mut res = compute_diff_notes(src, dst, lcs, i - 1, j - 1, false);
        let step = Diff::Unmodified(Element::note(src.notes[(i - 1) as usize].clone()));
        proof {
            lemma_diffs_view_push(res@, step);
        }
        res.push(step);
        return res;
    }
    let adds = if !last_add {
        j > 0 && (i == 0 || lcs[i as usize][(j - 1) as usize] >= lcs[(i - 1) as usize][j as usize])
    } else {
        j > 0 && (i == 0 || lcs[i as usize][(j - 1) as usize] > lcs[(i - 1) as usize][j as usize])
    };
    if adds {
        let mut res = compute_diff_notes(src, dst, lcs, i, j - 1, true);
        let ghost before = res@;
        let added = Element::note(dst.notes[(j - 1) as usize].clone());
        let elem = res.pop();
        match elem {
            None => {
                let step = Diff::Added(added);
                proof {
                    lemma_diffs_view_push(res@, step);
                }
                res.push(step);
            },
            Some(e) => {
                proof {
                    lemma_diffs_view_drop_last(before);
                }
                match e {
                    Diff::Removed(_) => {
                        let step = Diff::Modified(added, Box::new(Vec::new()));
                        proof {
                            lemma_diffs_view_push(res@, step);
                            assert(diffs_view(Seq::<Diff>::empty()) =~= Seq::<DiffView>::empty());
                        }
                        res.push(step);
                    },
                    _ => {
                        let step = Diff::Added(added);
                        proof {
                            lemma_diffs_view_push(res@, e);
                            lemma_diffs_view_push(res@.push(e), step);
                            assert(before =~= res@.push(e));
                        }
                        res.push(e);
                        res.push(step);
                    },
                }
            },
        }
        return res;
    } else if i > 0 {
        let mut res = compute_diff_notes(src, dst, lcs, i - 1, j, false);
        let ghost before = res@;
        let removed = Element::note(src.notes[(i - 1) as usize].clone());
        if j == 0 {
            let step = Diff::Removed(removed);
            proof {
                lemma_diffs_view_push(res@, step);
            }
            res.push(step);
        } else {
            let elem = res.pop();
            match elem {
                None => {
                    let step = Diff::Removed(removed);
                    proof {
                        lemma_diffs_view_push(res@, step);
                    }
                    res.push(step);
                },
                Some(e) => {
                    proof {
                        lemma_diffs_view_drop_last(before);
                    }
                    match e {
                        Diff::Added(_) => {
                            let step = Diff::Modified(
                                Element::note(dst.notes[(j - 1) as usize].clone()),
                                Box::new(Vec::new()),
                            );
                            proof {
                                lemma_diffs_view_push(res@, step);
                                assert(diffs_view(Seq::<Diff>::empty()) =~= Seq::<DiffView>::empty());
                            }
                            res.push(step);
                        },
                        _ => {
                            let step = Diff::Removed(removed);
                            proof {
                                lemma_diffs_view_push(res@, e);
                                lemma_diffs_view_push(res@.push(e), step);
                                assert(before =~= res@.push(e));
                            }
                            res.push(e);
                            res.push(step);
                        },
                    }
                },
            }
        }
        return res;
    } else {
        return Vec::new();
    }
}


/// The table that `LCSNotesLength` computes for two note sequences.
pub open spec fn notes_table(a: Seq<NoteView>, b: Seq<NoteView>) -> Seq<Seq<u32>> {
    Seq::new(
        a.len() + 1,
        |k: int| Seq::new(b.len() + 1, |l: int| lcs_len(notes_relation(a, b), k, l) as u32),
    )
}

/// A table with the values of `lcs_len` for the notes of two measures is the
/// table `notes_table`.
pub proof fn lemma_notes_table(t: Seq<Seq<u32>>, a: Seq<NoteView>, b: Seq<NoteView>)
    requires
        is_lcs_table(t, notes_relation(a, b), a.len() as int, b.len() as int),
    ensures
        t == notes_table(a, b),
{
    let n = notes_table(a, b);
    assert forall|k: int| 0 <= k < t.len() implies #[trigger] t[k] == n[k] by {
        assert forall|l: int| 0 <= l < t[k].len() implies t[k][l] == n[k][l] by {
            assert(t[k][l] == lcs_len(notes_relation(a, b), k, l));
        }
        assert(t[k] =~= n[k]);
    }
    assert(t =~= n);
}

/// Note `ni` of measure `a` and note `ni` of measure `b` agree for the
/// part-level walk: same pitch, type, voice, dot, chord flag and staff.
pub open spec fn note_heads_agree_at(a: MesureView, b: MesureView, ni: int) -> bool {
    &&& a.notes[ni].pitch == b.notes[ni].pitch
    &&& a.notes[ni].typee == b.notes[ni].typee
    &&& a.notes[ni].voice == b.notes[ni].voice
    &&& a.notes[ni].dot == b.notes[ni].dot
    &&& a.notes[ni].is_chord == b.notes[ni].is_chord
    &&& a.notes[ni].staff == b.notes[ni].staff
}

/// Measures that the part-level walk keeps as unmodified: as many notes, each
/// pair agreeing by `note_heads_agree_at`.
pub open spec fn same_measure(a: MesureView, b: MesureView) -> bool {
    &&& a.notes.len() == b.notes.len()
    &&& forall|ni: int| 0 <= ni < a.notes.len() ==> #[trigger] note_heads_agree_at(a, b, ni)
}

/// The note-level comparison of two whole measures.
pub open spec fn measure_notes_diff(a: MesureView, b: MesureView) -> Seq<DiffView> {
    diff_notes_spec(a.notes, b.notes, notes_table(a.notes, b.notes), a.notes.len() as int, b.notes.len() as int, false)
}

/// The steps `res` followed by the addition of measure `added` at source
/// position `i`; unless `i` is 0, a removal of a measure `m` just before it
/// becomes the modification of `current` (source measure `i - 1`), carrying
/// the note-level comparison of `m` with `added`.
pub open spec fn with_measure_added(res: Seq<DiffView>, i: int, current: MesureView, added: MesureView) -> Seq<DiffView> {
    if i == 0 || res.len() == 0 {
        res.push(DiffView::Added(ElementView::mesure(added)))
    } else {
        match res.last() {
            DiffView::Removed(ElementView::mesure(m)) => res.drop_last().push(
                DiffView::Modified(ElementView::mesure(current), measure_notes_diff(m, added)),
            ),
            _ => res.push(DiffView::Added(ElementView::mesure(added))),
        }
    }
}

/// The steps `res` followed by the removal of measure `removed` at destination
/// position `j`; unless `j` is 0, an addition of a measure `m` just before it
/// becomes the modification of `removed`, carrying the note-level comparison
/// of `removed` with `m`.
pub open spec fn with_measure_removed(res: Seq<DiffView>, j: int, removed: MesureView) -> Seq<DiffView> {
    if j == 0 || res.len() == 0 {
        res.push(DiffView::Removed(ElementView::mesure(removed)))
    } else {
        match res.last() {
            DiffView::Added(ElementView::mesure(m)) => res.drop_last().push(
                DiffView::Modified(ElementView::mesure(removed), measure_notes_diff(removed, m)),
            ),
            _ => res.push(DiffView::Removed(ElementView::mesure(removed))),
        }
    }
}

/// The part-level comparison of the first `i` source measures with the first
/// `j` destination measures, walking back through the table `t`: measures
/// that are the same by `same_measure` are kept; otherwise the walk adds or
/// removes as `walk_adds` says, merging an adjacent removal and addition into
/// a modification that carries the note-level comparison.
pub open spec fn diff_part_spec(
    s: Seq<MesureView>,
    d: Seq<MesureView>,
    t: Seq<Seq<u32>>,
    i: int,
    j: int,
    last_add: bool,
) -> Seq<DiffView>
    decreases (if i > 0 { i } else { 0 }) + (if j > 0 { j } else { 0 }),
{
    if i > 0 && j > 0 && same_measure(s[i - 1], d[j - 1]) {
        diff_part_spec(s, d, t, i - 1, j - 1, false).push(DiffView::Unmodified(ElementView::mesure(s[i - 1])))
    } else if walk_adds(t, i, j, last_add) {
        with_measure_added(diff_part_spec(s, d, t, i, j - 1, true), i, s[i - 1], d[j - 1])
    } else if i > 0 {
        with_measure_removed(diff_part_spec(s, d, t, i - 1, j, false), j, s[i - 1])
    } else {
        Seq::empty()
    }
}


/// Two sequence lengths whose table of common-subsequence lengths can be
/// built and walked: each below `isize::MAX` (positions are signed), and one of
/// them at most `u32::MAX` (the counts are `u32`).
pub open spec fn sizes_comparable(n1: nat, n2: nat) -> bool {
    n1 < isize::MAX && n2 < isize::MAX && (n1 <= u32::MAX || n2 <= u32::MAX)
}

/// The notes of two measures can be compared: `sizes_comparable` holds of
/// their numbers of notes.
pub open spec fn notes_comparable(a: MesureView, b: MesureView) -> bool {
    sizes_comparable(a.notes.len(), b.notes.len())
}

/// Where the part-level walk merges the steps `r` with the addition of
/// measure `added` at source position `i`, the measures whose notes it then
/// compares can be compared.
pub open spec fn merge_added_ok(r: Seq<DiffView>, i: int, added: MesureView) -> bool {
    i == 0 || r.len() == 0 || match r.last() {
        DiffView::Removed(ElementView::mesure(m)) => notes_comparable(m, added),
        _ => true,
    }
}

/// Where the part-level walk merges the steps `r` with the removal of
/// measure `removed` at destination position `j`, the measures whose notes it
/// then compares can be compared.
pub open spec fn merge_removed_ok(r: Seq<DiffView>, j: int, removed: MesureView) -> bool {
    j == 0 || r.len() == 0 || match r.last() {
        DiffView::Added(ElementView::mesure(m)) => notes_comparable(removed, m),
        _ => true,
    }
}

/// The part-level walk from `(i, j)` is defined: at each position it reaches
/// with items left on both sides that it does not keep, the table holds the
/// entries `[i][j - 1]` and `[i - 1][j]`, and wherever it merges a removal and
/// an addition, the notes of the two measures can be compared.
pub open spec fn part_walk_ok(
    s: Seq<MesureView>,
    d: Seq<MesureView>,
    t: Seq<Seq<u32>>,
    i: int,
    j: int,
    last_add: bool,
) -> bool
    decreases (if i > 0 { i } else { 0 }) + (if j > 0 { j } else { 0 }),
{
    if i > 0 && j > 0 && same_measure(s[i - 1], d[j - 1]) {
        part_walk_ok(s, d, t, i - 1, j - 1, false)
    } else if i > 0 && j > 0 && !(t.len() > i && t[i].len() > j - 1 && t[i - 1].len() > j) {
        false
    } else if walk_adds(t, i, j, last_add) {
        part_walk_ok(s, d, t, i, j - 1, true) && merge_added_ok(diff_part_spec(s, d, t, i, j - 1, true), i, d[j - 1])
    } else if i > 0 {
        part_walk_ok(s, d, t, i - 1, j, false) && merge_removed_ok(diff_part_spec(s, d, t, i - 1, j, false), j, s[i - 1])
    } else {
        true
    }
}

/// Every measure of `s` and every measure of `d` can have their notes compared.
pub open spec fn all_notes_comparable(s: Seq<MesureView>, d: Seq<MesureView>) -> bool {
    forall|x: int, y: int| 0 <= x < s.len() && 0 <= y < d.len() ==> notes_comparable(#[trigger] s[x], #[trigger] d[y])
}

/// A table with all the rows up to `i` and columns up to `j`, over parts whose
/// measures can all have their notes compared, makes the walk from `(i, j)`
/// defined.
pub proof fn lemma_part_walk_ok_covered(
    s: Seq<MesureView>,
    d: Seq<MesureView>,
    t: Seq<Seq<u32>>,
    i: int,
    j: int,
    last_add: bool,
)
    requires
        0 <= i <= s.len(),
        0 <= j <= d.len(),
        table_covers(t, i, j),
        all_notes_comparable(s, d),
    ensures
        part_walk_ok(s, d, t, i, j, last_add),
    decreases i + j,
{
    if i > 0 && j > 0 && same_measure(s[i - 1], d[j - 1]) {
        lemma_part_walk_ok_covered(s, d, t, i - 1, j - 1, false);
    } else if walk_adds(t, i, j, last_add) {
        lemma_part_walk_ok_covered(s, d, t, i, j - 1, true);
        lemma_diff_part_drawn_from(s, d, t, i, j - 1, true);
        let r = diff_part_spec(s, d, t, i, j - 1, true);
        if i != 0 && r.len() > 0 {
            if let DiffView::Removed(ElementView::mesure(m)) = r.last() {
                assert(r[r.len() - 1] == r.last());
                let x = choose|x: int| 0 <= x < s.len() && s[x] == m;
                assert(notes_comparable(s[x], d[j - 1]));
            }
        }
    } else if i > 0 {
        lemma_part_walk_ok_covered(s, d, t, i - 1, j, false);
        lemma_diff_part_drawn_from(s, d, t, i - 1, j, false);
        let r = diff_part_spec(s, d, t, i - 1, j, false);
        if j != 0 && r.len() > 0 {
            if let DiffView::Added(ElementView::mesure(m)) = r.last() {
                assert(r[r.len() - 1] == r.last());
                let y = choose|y: int| 0 <= y < d.len() && d[y] == m;
                assert(notes_comparable(s[i - 1], d[y]));
            }
        }
    }
}

/// Every step of `res` is about a measure: a kept, removed or modified one
/// taken from `s`, an added one taken from `d`.
pub open spec fn steps_drawn_from(res: Seq<DiffView>, s: Seq<MesureView>, d: Seq<MesureView>) -> bool {
    forall|k: int|
        0 <= k < res.len() ==> match #[trigger] res[k] {
            DiffView::Unmodified(ElementView::mesure(m)) => s.contains(m),
            DiffView::Removed(ElementView::mesure(m)) => s.contains(m),
            DiffView::Modified(ElementView::mesure(m), _) => s.contains(m),
            DiffView::Added(ElementView::mesure(m)) => d.contains(m),
            _ => false,
        }
}

/// Every step of the part-level comparison is about a measure: kept, removed
/// and modified measures come from the source, added ones from the destination.
pub proof fn lemma_diff_part_drawn_from(
    s: Seq<MesureView>,
    d: Seq<MesureView>,
    t: Seq<Seq<u32>>,
    i: int,
    j: int,
    last_add: bool,
)
    requires
        i <= s.len(),
        j <= d.len(),
    ensures
        steps_drawn_from(diff_part_spec(s, d, t, i, j, last_add), s, d),
    decreases (if i > 0 { i } else { 0 }) + (if j > 0 { j } else { 0 }),
{
    let res = diff_part_spec(s, d, t, i, j, last_add);
    if i > 0 && j > 0 && same_measure(s[i - 1], d[j - 1]) {
        let r = diff_part_spec(s, d, t, i - 1, j - 1, false);
        lemma_diff_part_drawn_from(s, d, t, i - 1, j - 1, false);
        assert(s.contains(s[i - 1]));
        assert forall|k: int| 0 <= k < res.len() implies #[trigger] res[k] == (if k < r.len() { r[k] } else { res[k] }) by {}
    } else if walk_adds(t, i, j, last_add) {
        let r = diff_part_spec(s, d, t, i, j - 1, true);
        lemma_diff_part_drawn_from(s, d, t, i, j - 1, true);
        assert(d.contains(d[j - 1]));
        if i > 0 {
            assert(s.contains(s[i - 1]));
        }
        assert forall|k: int| 0 <= k < res.len() - 1 implies #[trigger] res[k] == r[k] by {}
    } else if i > 0 {
        let r = diff_part_spec(s, d, t, i - 1, j, false);
        lemma_diff_part_drawn_from(s, d, t, i - 1, j, false);
        assert(s.contains(s[i - 1]));
        assert forall|k: int| 0 <= k < res.len() - 1 implies #[trigger] res[k] == r[k] by {}
    }
}


/// The note-level comparison of two whole measures, as the part-level walk
/// computes it for a modified measure.
fn diff_measure_notes(a: &Mesure, b: &Mesure) -> (res: Vec<Diff>)
    requires
        notes_comparable(a@, b@),
    ensures
        diffs_view(res@) == measure_notes_diff(a@, b@),
{
    let lcs_notes = LCSNotesLength(a, b);
    proof {
        lemma_notes_table(table_view(lcs_notes@), a@.notes, b@.notes);
        assert(table_view(lcs_notes@)[0] == lcs_notes@[0]@);
    }
    let i_notes = (lcs_notes.len() as isize) - 1;
    let j_notes = (lcs_notes[0].len() as isize) - 1;
    proof {
        let t = table_view(lcs_notes@);
        assert forall|r: int| 0 <= r <= i_notes implies (#[trigger] t[r]).len() > j_notes by {}
        lemma_notes_walk_in_table_covered(a@.notes, b@.notes, t, i_notes as int, j_notes as int, false);
    }
    compute_diff_notes(a, b, lcs_notes, i_notes, j_notes, false)
}

/// Whether the part-level walk keeps two measures as unmodified.
fn same_measure_exec(a: &Mesure, b: &Mesure) -> (r: bool)
    ensures
        r == same_measure(a@, b@),
{
    let mut same = a.notes.len() == b.notes.len();
    if same {
        for ni in 0..a.notes.len()
            invariant
                a.notes.len() == b.notes.len(),
                same == forall|x: int| 0 <= x < ni ==> #[trigger] note_heads_agree_at(a@, b@, x),
        {
            proof {
                assert(a@.notes[ni as int] == a.notes@[ni as int]@);
                assert(b@.notes[ni as int] == b.notes@[ni as int]@);
            }
            let ghost before = same;
            same = same && same_pitch(&a.notes[ni].pitch, &b.notes[ni].pitch) && a.notes[ni].typee
                == b.notes[ni].typee && a.notes[ni].voice == b.notes[ni].voice && a.notes[ni].dot
                == b.notes[ni].dot && a.notes[ni].is_chord == b.notes[ni].is_chord && same_staff(
                a.notes[ni].staff,
                b.notes[ni].staff,
            );
            proof {
                assert(same == (before && note_heads_agree_at(a@, b@, ni as int)));
                if !note_heads_agree_at(a@, b@, ni as int) {
                    assert(!(forall|x: int| 0 <= x < ni + 1 ==> #[trigger] note_heads_agree_at(a@, b@, x)));
                }
            }
        }
    }
    same
}

/// Compares the first `i` measures of `src` with the first `j` measures of
/// `dst`, walking back from `(i, j)` through the table `lcs` (`last_add`: the
/// step just taken was an addition); an adjacent removal and addition merge
/// into a modification that carries the comparison of the two measures' notes.
pub fn compute_diff_part(
    src: &Part,
    dst: &Part,
    lcs: Vec<Vec<u32>>,
    i: isize,
    j: isize,
    last_add: bool,
) -> (res: Vec<Diff>)
    requires
        (i <= 0 && j <= 0) || (0 <= i <= src.measures.len() && 0 <= j <= dst.measures.len() && part_walk_ok(
            src@,
            dst@,
            table_view(lcs@),
            i as int,
            j as int,
            last_add,
        )),
    ensures
        diffs_view(res@) == diff_part_spec(src@, dst@, table_view(lcs@), i as int, j as int, last_add),
    decreases (if i > 0 { i as int } else { 0 }) + (if j > 0 { j as int } else { 0 }),
{
    let ghost s = src@;
    let ghost d = dst@;
    let ghost t = table_view(lcs@);
    proof {
        if i > 0 {
            assert(s[i - 1] == src.measures@[i - 1]@);
        }
        if j > 0 {
            assert(d[j - 1] == dst.measures@[j - 1]@);
        }
        if i > 0 && j > 0 && t.len() > i {
            assert(t[i as int] == lcs@[i as int]@);
            assert(t[i - 1] == lcs@[i - 1]@);
        }
    }
    let b = i > 0 && j > 0 && same_measure_exec(&src.measures[(i - 1) as usize], &dst.measures[(j - 1) as usize]);
    if b {
        let mut res = compute_diff_part(src, dst, lcs, i - 1, j - 1, false);
        let step = Diff::Unmodified(Element::mesure(src.measures[(i - 1) as usize].clone()));
        proof {
            lemma_diffs_view_push(res@, step);
        }
        res.push(step);
        return res;
    }
    let adds = if !last_add {
        j > 0 && (i == 0 || lcs[i as usize][(j - 1) as usize] >= lcs[(i - 1) as usize][j as usize])
    } else {
        j > 0 && (i == 0 || lcs[i as usize][(j - 1) as usize] > lcs[(i - 1) as usize][j as usize])
    };
    if adds {
        let mut res = compute_diff_part(src, dst, lcs, i, j - 1, true);
        if i == 0 {
            let step = Diff::Added(Element::mesure(dst.measures[(j - 1) as usize].clone()));
            proof {
                lemma_diffs_view_push(res@, step);
            }
            res.push(step);
        } else {
            let ghost before = res@;
            let elem = res.pop();
            match elem {
                None => {
                    let step = Diff::Added(Element::mesure(dst.measures[(j - 1) as usize].clone()));
                    proof {
                        lemma_diffs_view_push(res@, step);
                    }
                    res.push(step);
                },
                Some(e) => {
                    proof {
                        lemma_diffs_view_drop_last(before);
                    }
                    match e {
                        Diff::Removed(Element::mesure(m)) => {
                            proof {
                                let k = before.len() - 1;
                                assert(diffs_view(before)[k] == diff_view(before[k]));
                                assert(notes_comparable(m@, d[j - 1]));
                            }
                            let modified_notes = diff_measure_notes(&m, &dst.measures[(j - 1) as usize]);
                            let step = Diff::Modified(
                                Element::mesure(src.measures[(i - 1) as usize].clone()),
                                Box::new(modified_notes),
                            );
                            proof {
                                lemma_diffs_view_push(res@, step);
                            }
                            res.push(step);
                        },
                        _ => {
                            let step = Diff::Added(Element::mesure(dst.measures[(j - 1) as usize].clone()));
                            proof {
                                lemma_diffs_view_push(res@, e);
                                lemma_diffs_view_push(res@.push(e), step);
                                assert(before =~= res@.push(e));
                            }
                            res.push(e);
                            res.push(step);
                        },
                    }
                },
            }
        }
        return res;
    } else if i > 0 {
        let mut res = compute_diff_part(src, dst, lcs, i - 1, j, false);
        if j == 0 {
            let step = Diff::Removed(Element::mesure(src.measures[(i - 1) as usize].clone()));
            proof {
                lemma_diffs_view_push(res@, step);
            }
            res.push(step);
        } else {
            let ghost before = res@;
            let elem = res.pop();
            match elem {
                None => {
                    let step = Diff::Removed(Element::mesure(src.measures[(i - 1) as usize].clone()));
                    proof {
                        lemma_diffs_view_push(res@, step);
                    }
                    res.push(step);
                },
                Some(e) => {
                    proof {
                        lemma_diffs_view_drop_last(before);
                    }
                    match e {
                        Diff::Added(Element::mesure(m)) => {
                            proof {
                                let k = before.len() - 1;
                                assert(diffs_view(before)[k] == diff_view(before[k]));
                                assert(notes_comparable(s[i - 1], m@));
                            }
                            let modified_notes = diff_measure_notes(&src.measures[(i - 1) as usize], &m);
                            let step = Diff::Modified(
                                Element::mesure(src.measures[(i - 1) as usize].clone()),
                                Box::new(modified_notes),
                            );
                            proof {
                                lemma_diffs_view_push(res@, step);
                            }
                            res.push(step);
                        },
                        _ => {
                            let step = Diff::Removed(Element::mesure(src.measures[(i - 1) as usize].clone()));
                            proof {
                                lemma_diffs_view_push(res@, e);
                                lemma_diffs_view_push(res@.push(e), step);
                                assert(before =~= res@.push(e));
                            }
                            res.push(e);
                            res.push(step);
                        },
                    }
                },
            }
        }
        return res;
    } else {
        return Vec::new();
    }
}


/// The table that `LCSMeasuresLength` computes for two measure sequences.
pub open spec fn measures_table(a: Seq<MesureView>, b: Seq<MesureView>) -> Seq<Seq<u32>> {
    Seq::new(
        a.len() + 1,
        |k: int| Seq::new(b.len() + 1, |l: int| lcs_len(measures_relation(a, b), k, l) as u32),
    )
}

/// A table with the values of `lcs_len` for the measures of two parts is the
/// table `measures_table`.
pub proof fn lemma_measures_table(t: Seq<Seq<u32>>, a: Seq<MesureView>, b: Seq<MesureView>)
    requires
        is_lcs_table(t, measures_relation(a, b), a.len() as int, b.len() as int),
    ensures
        t == measures_table(a, b),
{
    let n = measures_table(a, b);
    assert forall|k: int| 0 <= k < t.len() implies #[trigger] t[k] == n[k] by {
        assert forall|l: int| 0 <= l < t[k].len() implies t[k][l] == n[k][l] by {
            assert(t[k][l] == lcs_len(measures_relation(a, b), k, l));
        }
        assert(t[k] =~= n[k]);
    }
    assert(t =~= n);
}

/// Every measure of `d` added, in order.
pub open spec fn all_added(d: Seq<MesureView>) -> Seq<DiffView> {
    Seq::new(d.len(), |k: int| DiffView::Added(ElementView::mesure(d[k])))
}

/// The comparison of two whole parts.
pub open spec fn part_diff(a: Seq<MesureView>, b: Seq<MesureView>) -> Seq<DiffView> {
    diff_part_spec(a, b, measures_table(a, b), a.len() as int, b.len() as int, false)
}

/// The comparison of two scores, part by part: a part that only the
/// destination has is all added.
pub open spec fn diff_spec(src: Seq<Seq<MesureView>>, dst: Seq<Seq<MesureView>>) -> Seq<Seq<DiffView>> {
    Seq::new(
        max_nat(src.len(), dst.len()),
        |k: int|
            if k >= src.len() {
                all_added(dst[k])
            } else {
                part_diff(src[k], dst[k])
            },
    )
}

/// Two parts can be compared: their measure table can be built and walked,
/// and the walk through it is defined (`part_walk_ok`).
pub open spec fn parts_comparable(a: Seq<MesureView>, b: Seq<MesureView>) -> bool {
    sizes_comparable(a.len(), b.len()) && part_walk_ok(a, b, measures_table(a, b), a.len() as int, b.len() as int, false)
}

/// The larger of two sizes.
fn max_usize(a: usize, b: usize) -> (r: usize)
    ensures
        r == max_nat(a as nat, b as nat),
{
    if a >= b { a } else { b }
}

/// Compares two scores part by part; a part that only the destination has is
/// reported as all added.
pub fn diff(src: &ScorePartwise, dst: &ScorePartwise) -> (res: Vec<Vec<Diff>>)
    requires
        src.parts.len() <= dst.parts.len(),
        forall|k: int| 0 <= k < src.parts.len() ==> parts_comparable(#[trigger] src@[k], dst@[k]),
    ensures
        res@.len() == diff_spec(src@, dst@).len(),
        forall|k: int| 0 <= k < res@.len() ==> diffs_view(#[trigger] res@[k]@) == diff_spec(src@, dst@)[k],
{
    let ghost spec = diff_spec(src@, dst@);
    let mut res: Vec<Vec<Diff>> = Vec::new();
    let n = max_usize(src.parts.len(), dst.parts.len());
    for k in 0..n
        invariant
            n == max_nat(src.parts.len() as nat, dst.parts.len() as nat),
            src.parts.len() <= dst.parts.len(),
            forall|x: int| 0 <= x < src.parts.len() ==> parts_comparable(#[trigger] src@[x], dst@[x]),
            spec == diff_spec(src@, dst@),
            res@.len() == k,
            forall|x: int| 0 <= x < k ==> diffs_view(#[trigger] res@[x]@) == spec[x],
    {
        proof {
            assert(dst@[k as int] == dst.parts@[k as int]@);
        }
        if k >= src.parts.len() {
            let mut p: Vec<Diff> = Vec::new();
            let ms = &dst.parts[k].measures;
            for x in 0..ms.len()
                invariant
                    ms == dst.parts@[k as int].measures,
                    p@.len() == x,
                    forall|y: int| 0 <= y < x ==> diff_view(#[trigger] p@[y]) == DiffView::Added(
                        ElementView::mesure(ms@[y]@),
                    ),
            {
                p.push(Diff::Added(Element::mesure(ms[x].clone())));
            }
            proof {
                let dk = dst@[k as int];
                assert(dk == measures_view(ms@));
                assert(diffs_view(p@) =~= all_added(dk));
            }
            res.push(p);
        } else {
            proof {
                assert(src@[k as int] == src.parts@[k as int]@);
                assert(parts_comparable(src@[k as int], dst@[k as int]));
            }
            let lcs = LCSMeasuresLength(&src.parts[k], &dst.parts[k]);
            proof {
                lemma_measures_table(table_view(lcs@), src@[k as int], dst@[k as int]);
                assert(table_view(lcs@)[0] == lcs@[0]@);
            }
            let i: isize = (lcs.len() as isize) - 1;
            let j: isize = (lcs[0].len() as isize) - 1;
            proof {
                let t = table_view(lcs@);
                assert(t == measures_table(src@[k as int], dst@[k as int]));
            }
            res.push(compute_diff_part(&src.parts[k], &dst.parts[k], lcs, i, j, false));
        }
    }
    res
}


/// One line of the printed comparison of the first parts of two scores: a
/// source measure kept, a destination measure added, a source measure
/// removed (by index), or an empty line.
#[derive(Debug, Clone, Copy, PartialEq, Eq)]
pub enum DiffLine {
    Same(usize),
    Added(usize),
    Removed(usize),
    Blank,
}

/// Measures that the printed comparison keeps: as many notes, each pair with
/// the same pitch and type.
pub open spec fn same_measure_heads(a: MesureView, b: MesureView) -> bool {
    &&& a.notes.len() == b.notes.len()
    &&& forall|ni: int| 0 <= ni < a.notes.len() ==> #[trigger] same_note_head(a.notes[ni], b.notes[ni])
}

/// The lines printed for the first `i` source measures and the first `j`
/// destination measures, walking back through the table `t`: kept measures,
/// additions and removals as `walk_adds` says, and an empty line where the
/// walk ends with measures left on neither side.
pub open spec fn print_lines_spec(
    s: Seq<MesureView>,
    d: Seq<MesureView>,
    t: Seq<Seq<u32>>,
    i: int,
    j: int,
    last_add: bool,
) -> Seq<DiffLine>
    decreases (if i > 0 { i } else { 0 }) + (if j > 0 { j } else { 0 }),
{
    if i > 0 && j > 0 && same_measure_heads(s[i - 1], d[j - 1]) {
        print_lines_spec(s, d, t, i - 1, j - 1, false).push(DiffLine::Same((i - 1) as usize))
    } else if walk_adds(t, i, j, last_add) {
        print_lines_spec(s, d, t, i, j - 1, true).push(DiffLine::Added((j - 1) as usize))
    } else if i > 0 {
        print_lines_spec(s, d, t, i - 1, j, false).push(DiffLine::Removed((i - 1) as usize))
    } else {
        seq![DiffLine::Blank]
    }
}


/// The table holds every entry that the printed walk from `(i, j)` compares:
/// at each position it reaches with items left on both sides that it does
/// not keep, the entries `[i][j - 1]` and `[i - 1][j]`.
pub open spec fn print_walk_in_table(
    s: Seq<MesureView>,
    d: Seq<MesureView>,
    t: Seq<Seq<u32>>,
    i: int,
    j: int,
    last_add: bool,
) -> bool
    decreases (if i > 0 { i } else { 0 }) + (if j > 0 { j } else { 0 }),
{
    if i > 0 && j > 0 && same_measure_heads(s[i - 1], d[j - 1]) {
        print_walk_in_table(s, d, t, i - 1, j - 1, false)
    } else if i > 0 && j > 0 && !(t.len() > i && t[i].len() > j - 1 && t[i - 1].len() > j) {
        false
    } else if walk_adds(t, i, j, last_add) {
        print_walk_in_table(s, d, t, i, j - 1, true)
    } else if i > 0 {
        print_walk_in_table(s, d, t, i - 1, j, false)
    } else {
        true
    }
}

/// A table with all the rows up to `i` and columns up to `j` holds every
/// entry that the walk from `(i, j)` compares.
pub proof fn lemma_print_walk_in_table_covered(
    s: Seq<MesureView>,
    d: Seq<MesureView>,
    t: Seq<Seq<u32>>,
    i: int,
    j: int,
    last_add: bool,
)
    requires
        0 <= i,
        0 <= j,
        table_covers(t, i, j),
    ensures
        print_walk_in_table(s, d, t, i, j, last_add),
    decreases i + j,
{
    if i > 0 && j > 0 && same_measure_heads(s[i - 1], d[j - 1]) {
        lemma_print_walk_in_table_covered(s, d, t, i - 1, j - 1, false);
    } else if walk_adds(t, i, j, last_add) {
        lemma_print_walk_in_table_covered(s, d, t, i, j - 1, true);
    } else if i > 0 {
        lemma_print_walk_in_table_covered(s, d, t, i - 1, j, false);
    }
}

/// Whether the printed comparison keeps two measures.
fn same_measure_heads_exec(a: &Mesure, b: &Mesure) -> (r: bool)
    ensures
        r == same_measure_heads(a@, b@),
{
    let mut same = a.notes.len() == b.notes.len();
    if same {
        for ni in 0..a.notes.len()
            invariant
                a.notes.len() == b.notes.len(),
                same == forall|x: int| 0 <= x < ni ==> #[trigger] same_note_head(a@.notes[x], b@.notes[x]),
        {
            proof {
                assert(a@.notes[ni as int] == a.notes@[ni as int]@);
                assert(b@.notes[ni as int] == b.notes@[ni as int]@);
            }
            let ghost before = same;
            same = same && same_note_head_exec(&a.notes[ni], &b.notes[ni]);
            proof {
                if !same_note_head(a@.notes[ni as int], b@.notes[ni as int]) {
                    assert(!(forall|x: int| 0 <= x < ni + 1 ==> #[trigger] same_note_head(a@.notes[x], b@.notes[x])));
                }
            }
        }
    }
    same
}

/// The lines that compare the first parts of two scores, walking back from
/// `(i, j)` through the table `lcs` (`last_add`: the step just taken was an
/// addition), for printing.
pub fn print_diff_lines(
    src: &ScorePartwise,
    dst: &ScorePartwise,
    lcs: Vec<Vec<u32>>,
    i: isize,
    j: isize,
    last_add: bool,
) -> (res: Vec<DiffLine>)
    requires
        (i <= 0 && j <= 0) || (0 <= i && 0 <= j && (i > 0 ==> src.parts.len() > 0 && i
            <= src.parts@[0].measures.len()) && (j > 0 ==> dst.parts.len() > 0 && j
            <= dst.parts@[0].measures.len()) && print_walk_in_table(
            src@[0],
            dst@[0],
            table_view(lcs@),
            i as int,
            j as int,
            last_add,
        )),
    ensures
        res@ == print_lines_spec(src@[0], dst@[0], table_view(lcs@), i as int, j as int, last_add),
    decreases (if i > 0 { i as int } else { 0 }) + (if j > 0 { j as int } else { 0 }),
{
    if i <= 0 && j <= 0 {
        let mut res = Vec::new();
        res.push(DiffLine::Blank);
        return res;
    }
    let ghost s = src@[0];
    let ghost d = dst@[0];
    let ghost t = table_view(lcs@);
    proof {
        if i > 0 && j > 0 {
            assert(s == measures_view(src.parts@[0].measures@));
            assert(d == measures_view(dst.parts@[0].measures@));
            assert(s[i - 1] == src.parts@[0].measures@[i - 1]@);
            assert(d[j - 1] == dst.parts@[0].measures@[j - 1]@);
        }
        if i > 0 && j > 0 && t.len() > i {
            assert(t[i as int] == lcs@[i as int]@);
            assert(t[i - 1] == lcs@[i - 1]@);
        }
    }
    let b = i > 0 && j > 0 && same_measure_heads_exec(
        &src.parts[0].measures[(i - 1) as usize],
        &dst.parts[0].measures[(j - 1) as usize],
    );
    if b {
        let mut res = print_diff_lines(src, dst, lcs, i - 1, j - 1, false);
        res.push(DiffLine::Same((i - 1) as usize));
        return res;
    }
    let adds = if !last_add {
        j > 0 && (i == 0 || lcs[i as usize][(j - 1) as usize] >= lcs[(i - 1) as usize][j as usize])
    } else {
        j > 0 && (i == 0 || lcs[i as usize][(j - 1) as usize] > lcs[(i - 1) as usize][j as usize])
    };
    if adds {
        let mut res = print_diff_lines(src, dst, lcs, i, j - 1, true);
        res.push(DiffLine::Added((j - 1) as usize));
        res
    } else {
        let mut res = print_diff_lines(src, dst, lcs, i - 1, j, false);
        res.push(DiffLine::Removed((i - 1) as usize));
        res
    }
}

} // verus!







