use vstd::prelude::*;
use crate::types::{ElementView, MesureView, NoteView};
use crate::diff::{
    all_added, diff_notes_spec, diff_part_spec, diff_spec, measure_notes_diff, measures_table, note_heads_agree_at,
    part_diff, part_walk_ok, parts_comparable, print_lines_spec, print_walk_in_table, same_measure,
    same_measure_heads, same_note_head, sizes_comparable, DiffLine, DiffView,
};
use crate::lcs::max_nat;

verus! {

/// Every note of `s` up to `n`, kept unmodified.
pub open spec fn all_notes_kept(s: Seq<NoteView>, n: int) -> Seq<DiffView> {
    Seq::new(n as nat, |k: int| DiffView::Unmodified(ElementView::note(s[k])))
}

/// Every measure of `s` up to `n`, kept unmodified.
pub open spec fn all_measures_kept(s: Seq<MesureView>, n: int) -> Seq<DiffView> {
    Seq::new(n as nat, |k: int| DiffView::Unmodified(ElementView::mesure(s[k])))
}

/// Comparing notes with themselves keeps every note, whatever the table.
pub proof fn lemma_diff_notes_self(s: Seq<NoteView>, t: Seq<Seq<u32>>, n: int, last_add: bool)
    requires
        0 <= n <= s.len(),
    ensures
        diff_notes_spec(s, s, t, n, n, last_add) == all_notes_kept(s, n),
    decreases n,
{
    if n > 0 {
        lemma_diff_notes_self(s, t, n - 1, false);
        assert(diff_notes_spec(s, s, t, n, n, last_add) =~= all_notes_kept(s, n));
    } else {
        assert(diff_notes_spec(s, s, t, n, n, last_add) =~= all_notes_kept(s, n));
    }
}

/// A measure is the same as itself for the part-level walk.
proof fn lemma_same_measure_refl(m: MesureView)
    ensures
        same_measure(m, m),
{
    assert forall|ni: int| 0 <= ni < m.notes.len() implies #[trigger] note_heads_agree_at(m, m, ni) by {}
}

/// Comparing measures with themselves keeps every measure, whatever the
/// table: the walk reads no entry of it and merges nothing, so it is defined.
pub proof fn lemma_diff_part_self(s: Seq<MesureView>, t: Seq<Seq<u32>>, n: int, last_add: bool)
    requires
        0 <= n <= s.len(),
    ensures
        part_walk_ok(s, s, t, n, n, last_add),
        diff_part_spec(s, s, t, n, n, last_add) == all_measures_kept(s, n),
    decreases n,
{
    if n > 0 {
        lemma_same_measure_refl(s[n - 1]);
        lemma_diff_part_self(s, t, n - 1, false);
    }
    assert(diff_part_spec(s, s, t, n, n, last_add) =~= all_measures_kept(s, n));
}

/// Comparing a score with itself reports every measure of every part as
/// unmodified; every part whose measure table fits (`sizes_comparable`) can be
/// compared with itself.
pub proof fn lemma_diff_self(sc: Seq<Seq<MesureView>>)
    ensures
        diff_spec(sc, sc).len() == sc.len(),
        forall|k: int|
            0 <= k < sc.len() && sizes_comparable(sc[k].len(), sc[k].len()) ==> parts_comparable(
                #[trigger] sc[k],
                sc[k],
            ),
        forall|k: int|
            0 <= k < sc.len() ==> #[trigger] diff_spec(sc, sc)[k] == all_measures_kept(
                sc[k],
                sc[k].len() as int,
            ),
{
    assert forall|k: int| 0 <= k < sc.len() implies #[trigger] diff_spec(sc, sc)[k] == all_measures_kept(
        sc[k],
        sc[k].len() as int,
    ) by {
        assert(diff_spec(sc, sc)[k] == part_diff(sc[k], sc[k]));
        lemma_diff_part_self(sc[k], measures_table(sc[k], sc[k]), sc[k].len() as int, false);
    }
    assert forall|k: int|
        0 <= k < sc.len() && sizes_comparable(sc[k].len(), sc[k].len()) implies parts_comparable(
        #[trigger] sc[k],
        sc[k],
    ) by {
        lemma_diff_part_self(sc[k], measures_table(sc[k], sc[k]), sc[k].len() as int, false);
    }
}


/// Every note of `d` up to `n`, added.
pub open spec fn all_notes_added(d: Seq<NoteView>, n: int) -> Seq<DiffView> {
    Seq::new(n as nat, |k: int| DiffView::Added(ElementView::note(d[k])))
}

/// Every note of `s` up to `n`, removed.
pub open spec fn all_notes_removed(s: Seq<NoteView>, n: int) -> Seq<DiffView> {
    Seq::new(n as nat, |k: int| DiffView::Removed(ElementView::note(s[k])))
}

/// Every measure of `d` up to `n`, added.
pub open spec fn all_measures_added(d: Seq<MesureView>, n: int) -> Seq<DiffView> {
    Seq::new(n as nat, |k: int| DiffView::Added(ElementView::mesure(d[k])))
}

/// Every measure of `s` up to `n`, removed.
pub open spec fn all_measures_removed(s: Seq<MesureView>, n: int) -> Seq<DiffView> {
    Seq::new(n as nat, |k: int| DiffView::Removed(ElementView::mesure(s[k])))
}

/// With no source note left, every destination note is added.
pub proof fn lemma_diff_notes_from_empty(s: Seq<NoteView>, d: Seq<NoteView>, t: Seq<Seq<u32>>, j: int, last_add: bool)
    requires
        0 <= j <= d.len(),
    ensures
        diff_notes_spec(s, d, t, 0, j, last_add) == all_notes_added(d, j),
    decreases j,
{
    if j > 0 {
        lemma_diff_notes_from_empty(s, d, t, j - 1, true);
        let r = all_notes_added(d, j - 1);
        if r.len() > 0 {
            assert(r.last() is Added);
        }
    }
    assert(diff_notes_spec(s, d, t, 0, j, last_add) =~= all_notes_added(d, j));
}

/// With no destination note left, every source note is removed.
pub proof fn lemma_diff_notes_to_empty(s: Seq<NoteView>, d: Seq<NoteView>, t: Seq<Seq<u32>>, i: int, last_add: bool)
    requires
        0 <= i <= s.len(),
    ensures
        diff_notes_spec(s, d, t, i, 0, last_add) == all_notes_removed(s, i),
    decreases i,
{
    if i > 0 {
        lemma_diff_notes_to_empty(s, d, t, i - 1, false);
    }
    assert(diff_notes_spec(s, d, t, i, 0, last_add) =~= all_notes_removed(s, i));
}

/// With no source measure left, every destination measure is added.
pub proof fn lemma_diff_part_from_empty(s: Seq<MesureView>, d: Seq<MesureView>, t: Seq<Seq<u32>>, j: int, last_add: bool)
    requires
        0 <= j <= d.len(),
    ensures
        diff_part_spec(s, d, t, 0, j, last_add) == all_measures_added(d, j),
    decreases j,
{
    if j > 0 {
        lemma_diff_part_from_empty(s, d, t, j - 1, true);
    }
    assert(diff_part_spec(s, d, t, 0, j, last_add) =~= all_measures_added(d, j));
}

/// With no destination measure left, every source measure is removed.
pub proof fn lemma_diff_part_to_empty(s: Seq<MesureView>, d: Seq<MesureView>, t: Seq<Seq<u32>>, i: int, last_add: bool)
    requires
        0 <= i <= s.len(),
    ensures
        diff_part_spec(s, d, t, i, 0, last_add) == all_measures_removed(s, i),
    decreases i,
{
    if i > 0 {
        lemma_diff_part_to_empty(s, d, t, i - 1, false);
    }
    assert(diff_part_spec(s, d, t, i, 0, last_add) =~= all_measures_removed(s, i));
}

/// How many source items the steps account for: every step but an addition
/// stands for one.
pub open spec fn source_count(r: Seq<DiffView>) -> nat
    decreases r.len(),
{
    if r.len() == 0 {
        0
    } else {
        source_count(r.drop_last()) + (if r.last() is Added { 0nat } else { 1nat })
    }
}

/// How many destination items the steps account for: every step but a
/// removal stands for one.
pub open spec fn destination_count(r: Seq<DiffView>) -> nat
    decreases r.len(),
{
    if r.len() == 0 {
        0
    } else {
        destination_count(r.drop_last()) + (if r.last() is Removed { 0nat } else { 1nat })
    }
}

/// The counts of a sequence with one more step at its end.
proof fn lemma_counts_push(r: Seq<DiffView>, x: DiffView)
    ensures
        source_count(r.push(x)) == source_count(r) + (if x is Added { 0nat } else { 1nat }),
        destination_count(r.push(x)) == destination_count(r) + (if x is Removed { 0nat } else { 1nat }),
{
    assert(r.push(x).drop_last() =~= r);
}

/// The note-level comparison accounts for every source note and every
/// destination note exactly once: kept, removed and modified steps each stand
/// for one source note, kept, added and modified steps each for one
/// destination note.
pub proof fn lemma_diff_notes_accounts(
    s: Seq<NoteView>,
    d: Seq<NoteView>,
    t: Seq<Seq<u32>>,
    i: int,
    j: int,
    last_add: bool,
)
    requires
        0 <= i <= s.len(),
        0 <= j <= d.len(),
    ensures
        source_count(diff_notes_spec(s, d, t, i, j, last_add)) == i,
        destination_count(diff_notes_spec(s, d, t, i, j, last_add)) == j,
    decreases i + j,
{
    if i > 0 && j > 0 && crate::diff::same_note_head(s[i - 1], d[j - 1]) {
        let r = diff_notes_spec(s, d, t, i - 1, j - 1, false);
        lemma_diff_notes_accounts(s, d, t, i - 1, j - 1, false);
        lemma_counts_push(r, DiffView::Unmodified(ElementView::note(s[i - 1])));
    } else if crate::diff::walk_adds(t, i, j, last_add) {
        let r = diff_notes_spec(s, d, t, i, j - 1, true);
        lemma_diff_notes_accounts(s, d, t, i, j - 1, true);
        if r.len() > 0 && r.last() is Removed {
            lemma_counts_push(r.drop_last(), DiffView::Modified(ElementView::note(d[j - 1]), Seq::empty()));
        } else {
            lemma_counts_push(r, DiffView::Added(ElementView::note(d[j - 1])));
        }
    } else if i > 0 {
        let r = diff_notes_spec(s, d, t, i - 1, j, false);
        lemma_diff_notes_accounts(s, d, t, i - 1, j, false);
        if j != 0 && r.len() > 0 && r.last() is Added {
            lemma_counts_push(r.drop_last(), DiffView::Modified(ElementView::note(d[j - 1]), Seq::empty()));
        } else {
            lemma_counts_push(r, DiffView::Removed(ElementView::note(s[i - 1])));
        }
    }
}

/// The part-level comparison accounts for every source measure and every
/// destination measure exactly once: kept, removed and modified steps each
/// stand for one source measure, kept, added and modified steps each for one
/// destination measure.
pub proof fn lemma_diff_part_accounts(
    s: Seq<MesureView>,
    d: Seq<MesureView>,
    t: Seq<Seq<u32>>,
    i: int,
    j: int,
    last_add: bool,
)
    requires
        0 <= i <= s.len(),
        0 <= j <= d.len(),
    ensures
        source_count(diff_part_spec(s, d, t, i, j, last_add)) == i,
        destination_count(diff_part_spec(s, d, t, i, j, last_add)) == j,
    decreases i + j,
{
    if i > 0 && j > 0 && same_measure(s[i - 1], d[j - 1]) {
        let r = diff_part_spec(s, d, t, i - 1, j - 1, false);
        lemma_diff_part_accounts(s, d, t, i - 1, j - 1, false);
        lemma_counts_push(r, DiffView::Unmodified(ElementView::mesure(s[i - 1])));
    } else if crate::diff::walk_adds(t, i, j, last_add) {
        let r = diff_part_spec(s, d, t, i, j - 1, true);
        lemma_diff_part_accounts(s, d, t, i, j - 1, true);
        let added = DiffView::Added(ElementView::mesure(d[j - 1]));
        if i == 0 || r.len() == 0 {
            lemma_counts_push(r, added);
        } else {
            match r.last() {
                DiffView::Removed(ElementView::mesure(m)) => {
                    lemma_counts_push(
                        r.drop_last(),
                        DiffView::Modified(
                            ElementView::mesure(s[i - 1]),
                            crate::diff::measure_notes_diff(m, d[j - 1]),
                        ),
                    );
                },
                _ => {
                    lemma_counts_push(r, added);
                },
            }
        }
    } else if i > 0 {
        let r = diff_part_spec(s, d, t, i - 1, j, false);
        lemma_diff_part_accounts(s, d, t, i - 1, j, false);
        let removed = DiffView::Removed(ElementView::mesure(s[i - 1]));
        if j == 0 || r.len() == 0 {
            lemma_counts_push(r, removed);
        } else {
            match r.last() {
                DiffView::Added(ElementView::mesure(m)) => {
                    lemma_counts_push(
                        r.drop_last(),
                        DiffView::Modified(
                            ElementView::mesure(s[i - 1]),
                            crate::diff::measure_notes_diff(s[i - 1], m),
                        ),
                    );
                },
                _ => {
                    lemma_counts_push(r, removed);
                },
            }
        }
    }
}

/// Adding every measure of a part accounts for no source measure and for
/// every destination measure.
proof fn lemma_all_added_accounts(d: Seq<MesureView>, n: int)
    requires
        0 <= n <= d.len(),
    ensures
        source_count(all_added(d).take(n)) == 0,
        destination_count(all_added(d).take(n)) == n,
    decreases n,
{
    if n > 0 {
        lemma_all_added_accounts(d, n - 1);
        assert(all_added(d).take(n).drop_last() =~= all_added(d).take(n - 1));
    }
}

/// Comparing two scores accounts, part by part, for every measure of both:
/// for a part that both scores have, kept, removed and modified steps stand
/// for the source measures one each, kept, added and modified steps for the
/// destination measures one each; a part that only the destination has is
/// added measure by measure.
pub proof fn lemma_diff_accounts(src: Seq<Seq<MesureView>>, dst: Seq<Seq<MesureView>>)
    requires
        src.len() <= dst.len(),
    ensures
        diff_spec(src, dst).len() == dst.len(),
        forall|k: int|
            0 <= k < dst.len() ==> source_count(#[trigger] diff_spec(src, dst)[k]) == (if k < src.len() {
                src[k].len()
            } else {
                0
            }) && destination_count(diff_spec(src, dst)[k]) == dst[k].len(),
{
    assert(max_nat(src.len(), dst.len()) == dst.len());
    assert forall|k: int|
        0 <= k < dst.len() implies source_count(#[trigger] diff_spec(src, dst)[k]) == (if k < src.len() {
            src[k].len()
        } else {
            0
        }) && destination_count(diff_spec(src, dst)[k]) == dst[k].len() by {
        if k < src.len() {
            assert(diff_spec(src, dst)[k] == part_diff(src[k], dst[k]));
            lemma_diff_part_accounts(
                src[k],
                dst[k],
                measures_table(src[k], dst[k]),
                src[k].len() as int,
                dst[k].len() as int,
                false,
            );
        } else {
            assert(diff_spec(src, dst)[k] == all_added(dst[k]));
            lemma_all_added_accounts(dst[k], dst[k].len() as int);
            assert(all_added(dst[k]).take(dst[k].len() as int) =~= all_added(dst[k]));
        }
    }
}

/// The measures that the steps stand for on the source side, in order: the
/// measure of every step but an addition.
pub open spec fn source_measures(r: Seq<DiffView>) -> Seq<MesureView>
    decreases r.len(),
{
    if r.len() == 0 {
        Seq::empty()
    } else {
        let rest = source_measures(r.drop_last());
        match r.last() {
            DiffView::Unmodified(ElementView::mesure(m)) => rest.push(m),
            DiffView::Removed(ElementView::mesure(m)) => rest.push(m),
            DiffView::Modified(ElementView::mesure(m), _) => rest.push(m),
            _ => rest,
        }
    }
}

/// `source_measures` of a sequence with one more step at its end.
proof fn lemma_source_measures_push(r: Seq<DiffView>, x: DiffView)
    ensures
        source_measures(r.push(x)) == match x {
            DiffView::Unmodified(ElementView::mesure(m)) => source_measures(r).push(m),
            DiffView::Removed(ElementView::mesure(m)) => source_measures(r).push(m),
            DiffView::Modified(ElementView::mesure(m), _) => source_measures(r).push(m),
            _ => source_measures(r),
        },
{
    assert(r.push(x).drop_last() =~= r);
}

/// The part-level comparison keeps the source measures in order: the
/// measures of its kept, removed and modified steps, read in order, are the
/// first `i` source measures.
pub proof fn lemma_diff_part_source_order(
    s: Seq<MesureView>,
    d: Seq<MesureView>,
    t: Seq<Seq<u32>>,
    i: int,
    j: int,
    last_add: bool,
)
    requires
        0 <= i <= s.len(),
        0 <= j <= d.len(),
    ensures
        source_measures(diff_part_spec(s, d, t, i, j, last_add)) == s.take(i),
    decreases i + j,
{
    if i > 0 && j > 0 && same_measure(s[i - 1], d[j - 1]) {
        let r = diff_part_spec(s, d, t, i - 1, j - 1, false);
        lemma_diff_part_source_order(s, d, t, i - 1, j - 1, false);
        lemma_source_measures_push(r, DiffView::Unmodified(ElementView::mesure(s[i - 1])));
        assert(s.take(i - 1).push(s[i - 1]) =~= s.take(i));
    } else if crate::diff::walk_adds(t, i, j, last_add) {
        let r = diff_part_spec(s, d, t, i, j - 1, true);
        lemma_diff_part_source_order(s, d, t, i, j - 1, true);
        let added = DiffView::Added(ElementView::mesure(d[j - 1]));
        if i == 0 || r.len() == 0 {
            lemma_source_measures_push(r, added);
        } else {
            match r.last() {
                DiffView::Removed(ElementView::mesure(m)) => {
                    let modified = DiffView::Modified(
                        ElementView::mesure(s[i - 1]),
                        crate::diff::measure_notes_diff(m, d[j - 1]),
                    );
                    lemma_source_measures_push(r.drop_last(), modified);
                    lemma_source_measures_push(r.drop_last(), r.last());
                    assert(r.drop_last().push(r.last()) =~= r);
                    assert(s.take(i)[i - 1] == s[i - 1]);
                    assert(source_measures(r.drop_last()).push(s[i - 1]) =~= s.take(i));
                },
                _ => {
                    lemma_source_measures_push(r, added);
                },
            }
        }
    } else if i > 0 {
        let r = diff_part_spec(s, d, t, i - 1, j, false);
        lemma_diff_part_source_order(s, d, t, i - 1, j, false);
        let removed = DiffView::Removed(ElementView::mesure(s[i - 1]));
        if j == 0 || r.len() == 0 {
            lemma_source_measures_push(r, removed);
        } else {
            match r.last() {
                DiffView::Added(ElementView::mesure(m)) => {
                    let modified = DiffView::Modified(
                        ElementView::mesure(s[i - 1]),
                        crate::diff::measure_notes_diff(s[i - 1], m),
                    );
                    lemma_source_measures_push(r.drop_last(), modified);
                    lemma_source_measures_push(r.drop_last(), r.last());
                    assert(r.drop_last().push(r.last()) =~= r);
                },
                _ => {
                    lemma_source_measures_push(r, removed);
                },
            }
        }
        assert(s.take(i - 1).push(s[i - 1]) =~= s.take(i));
    } else {
        assert(s.take(i) =~= Seq::<MesureView>::empty());
    }
}

/// The printed lines of a part against itself: the empty line, then every
/// measure kept, in order; the walk reads no entry of the table.
pub proof fn lemma_print_lines_self(s: Seq<MesureView>, t: Seq<Seq<u32>>, n: int, last_add: bool)
    requires
        0 <= n <= s.len(),
    ensures
        print_walk_in_table(s, s, t, n, n, last_add),
        print_lines_spec(s, s, t, n, n, last_add) == seq![DiffLine::Blank] + Seq::new(
            n as nat,
            |k: int| DiffLine::Same(k as usize),
        ),
    decreases n,
{
    if n > 0 {
        assert forall|ni: int| 0 <= ni < s[n - 1].notes.len() implies #[trigger] same_note_head(
            s[n - 1].notes[ni],
            s[n - 1].notes[ni],
        ) by {}
        assert(same_measure_heads(s[n - 1], s[n - 1]));
        lemma_print_lines_self(s, t, n - 1, false);
    }
    assert(print_lines_spec(s, s, t, n, n, last_add) =~= seq![DiffLine::Blank] + Seq::new(
        n as nat,
        |k: int| DiffLine::Same(k as usize),
    ));
}

/// The last step of the part-level comparison, when a removal, removes the
/// last source measure the walk reaches; when an addition, adds the last
/// destination measure.
proof fn lemma_diff_part_last(s: Seq<MesureView>, d: Seq<MesureView>, t: Seq<Seq<u32>>, i: int, j: int, last_add: bool)
    requires
        0 <= i <= s.len(),
        0 <= j <= d.len(),
    ensures
        ({
            let r = diff_part_spec(s, d, t, i, j, last_add);
            &&& r.len() > 0 && r.last() is Removed ==> i > 0 && r.last() == DiffView::Removed(
                ElementView::mesure(s[i - 1]),
            )
            &&& r.len() > 0 && r.last() is Added ==> j > 0 && r.last() == DiffView::Added(
                ElementView::mesure(d[j - 1]),
            )
        }),
{
}

/// Step `k` of `r`, when it is a modified measure, is the source measure at the
/// position the walk has reached there on the source side, and carries the
/// note comparison of that measure with the destination measure at the
/// position reached on the destination side (kept and modified steps take one
/// measure from each side, removals one source measure, additions one
/// destination measure).
pub open spec fn modification_paired_at(r: Seq<DiffView>, k: int, s: Seq<MesureView>, d: Seq<MesureView>) -> bool {
    match r[k] {
        DiffView::Modified(ElementView::mesure(x), ns) => {
            let p = source_count(r.take(k + 1)) - 1;
            let q = destination_count(r.take(k + 1)) - 1;
            x == s[p] && ns == measure_notes_diff(s[p], d[q])
        },
        _ => true,
    }
}

/// Every modified measure of the part-level comparison pairs the source and
/// destination measures that the walk consumes there, and carries the note
/// comparison of exactly those two measures.
pub proof fn lemma_diff_part_modifications_paired(
    s: Seq<MesureView>,
    d: Seq<MesureView>,
    t: Seq<Seq<u32>>,
    i: int,
    j: int,
    last_add: bool,
)
    requires
        0 <= i <= s.len(),
        0 <= j <= d.len(),
    ensures
        forall|k: int|
            0 <= k < diff_part_spec(s, d, t, i, j, last_add).len() ==> #[trigger] modification_paired_at(
                diff_part_spec(s, d, t, i, j, last_add),
                k,
                s,
                d,
            ),
    decreases i + j,
{
    let r = diff_part_spec(s, d, t, i, j, last_add);
    lemma_diff_part_accounts(s, d, t, i, j, last_add);
    assert(r.take(r.len() as int) =~= r);
    if i > 0 && j > 0 && same_measure(s[i - 1], d[j - 1]) {
        let r2 = diff_part_spec(s, d, t, i - 1, j - 1, false);
        lemma_diff_part_modifications_paired(s, d, t, i - 1, j - 1, false);
        assert forall|k: int| 0 <= k < r.len() implies #[trigger] modification_paired_at(r, k, s, d) by {
            if k < r2.len() {
                assert(r.take(k + 1) =~= r2.take(k + 1));
                assert(modification_paired_at(r2, k, s, d));
            }
        }
    } else if crate::diff::walk_adds(t, i, j, last_add) {
        let r2 = diff_part_spec(s, d, t, i, j - 1, true);
        lemma_diff_part_modifications_paired(s, d, t, i, j - 1, true);
        lemma_diff_part_last(s, d, t, i, j - 1, true);
        assert forall|k: int| 0 <= k < r.len() implies #[trigger] modification_paired_at(r, k, s, d) by {
            if k < r.len() - 1 {
                assert(r[k] == r2[k]);
                assert(r.take(k + 1) =~= r2.take(k + 1));
                assert(modification_paired_at(r2, k, s, d));
            } else {
                assert(r.take(k + 1) =~= r);
            }
        }
    } else if i > 0 {
        let r2 = diff_part_spec(s, d, t, i - 1, j, false);
        lemma_diff_part_modifications_paired(s, d, t, i - 1, j, false);
        lemma_diff_part_last(s, d, t, i - 1, j, false);
        assert forall|k: int| 0 <= k < r.len() implies #[trigger] modification_paired_at(r, k, s, d) by {
            if k < r.len() - 1 {
                assert(r[k] == r2[k]);
                assert(r.take(k + 1) =~= r2.take(k + 1));
                assert(modification_paired_at(r2, k, s, d));
            } else {
                assert(r.take(k + 1) =~= r);
            }
        }
    }
}

/// Step `k` of `r`, when it keeps a measure, keeps the source measure at the
/// position the walk has reached there on the source side; that measure and
/// the destination measure at the position reached on the destination side
/// have as many notes, and agree note by note in pitch, type, voice, dot,
/// chord flag and staff. A removal removes the source measure at its
/// position, an addition adds the destination measure at its position.
pub open spec fn kept_measure_matches_at(r: Seq<DiffView>, k: int, s: Seq<MesureView>, d: Seq<MesureView>) -> bool {
    match r[k] {
        DiffView::Unmodified(ElementView::mesure(x)) => {
            let p = source_count(r.take(k + 1)) - 1;
            let q = destination_count(r.take(k + 1)) - 1;
            &&& x == s[p]
            &&& s[p].notes.len() == d[q].notes.len()
            &&& forall|ni: int|
                #![trigger s[p].notes[ni]]
                0 <= ni < s[p].notes.len() ==> {
                    &&& s[p].notes[ni].pitch == d[q].notes[ni].pitch
                    &&& s[p].notes[ni].typee == d[q].notes[ni].typee
                    &&& s[p].notes[ni].voice == d[q].notes[ni].voice
                    &&& s[p].notes[ni].dot == d[q].notes[ni].dot
                    &&& s[p].notes[ni].is_chord == d[q].notes[ni].is_chord
                    &&& s[p].notes[ni].staff == d[q].notes[ni].staff
                }
        },
        DiffView::Removed(ElementView::mesure(x)) => x == s[source_count(r.take(k + 1)) - 1],
        DiffView::Added(ElementView::mesure(x)) => x == d[destination_count(r.take(k + 1)) - 1],
        _ => true,
    }
}

/// The part-level comparison keeps a measure only where the source measure
/// and the destination measure it is paired with have the same notes, place
/// by place, in pitch, type, voice, dot, chord flag and staff: a measure with
/// a changed note is never reported unmodified. Removals and additions are
/// about the source and destination measures the walk consumes there.
pub proof fn lemma_diff_part_kept_measures_match(
    s: Seq<MesureView>,
    d: Seq<MesureView>,
    t: Seq<Seq<u32>>,
    i: int,
    j: int,
    last_add: bool,
)
    requires
        0 <= i <= s.len(),
        0 <= j <= d.len(),
    ensures
        forall|k: int|
            0 <= k < diff_part_spec(s, d, t, i, j, last_add).len() ==> #[trigger] kept_measure_matches_at(
                diff_part_spec(s, d, t, i, j, last_add),
                k,
                s,
                d,
            ),
    decreases i + j,
{
    let r = diff_part_spec(s, d, t, i, j, last_add);
    lemma_diff_part_accounts(s, d, t, i, j, last_add);
    assert(r.take(r.len() as int) =~= r);
    if i > 0 && j > 0 && same_measure(s[i - 1], d[j - 1]) {
        let r2 = diff_part_spec(s, d, t, i - 1, j - 1, false);
        lemma_diff_part_kept_measures_match(s, d, t, i - 1, j - 1, false);
        assert forall|k: int| 0 <= k < r.len() implies #[trigger] kept_measure_matches_at(r, k, s, d) by {
            if k < r2.len() {
                assert(r.take(k + 1) =~= r2.take(k + 1));
                assert(kept_measure_matches_at(r2, k, s, d));
            } else {
                assert(r.take(k + 1) =~= r);
                let a = s[i - 1];
                let b = d[j - 1];
                assert forall|ni: int| 0 <= ni < a.notes.len() implies {
                    &&& a.notes[ni].pitch == b.notes[ni].pitch
                    &&& a.notes[ni].typee == b.notes[ni].typee
                    &&& a.notes[ni].voice == b.notes[ni].voice
                    &&& a.notes[ni].dot == b.notes[ni].dot
                    &&& a.notes[ni].is_chord == b.notes[ni].is_chord
                    &&& a.notes[ni].staff == b.notes[ni].staff
                } by {
                    assert(note_heads_agree_at(a, b, ni));
                }
            }
        }
    } else if crate::diff::walk_adds(t, i, j, last_add) {
        let r2 = diff_part_spec(s, d, t, i, j - 1, true);
        lemma_diff_part_kept_measures_match(s, d, t, i, j - 1, true);
        assert forall|k: int| 0 <= k < r.len() implies #[trigger] kept_measure_matches_at(r, k, s, d) by {
            if k < r.len() - 1 {
                assert(r[k] == r2[k]);
                assert(r.take(k + 1) =~= r2.take(k + 1));
                assert(kept_measure_matches_at(r2, k, s, d));
            } else {
                assert(r.take(k + 1) =~= r);
            }
        }
    } else if i > 0 {
        let r2 = diff_part_spec(s, d, t, i - 1, j, false);
        lemma_diff_part_kept_measures_match(s, d, t, i - 1, j, false);
        assert forall|k: int| 0 <= k < r.len() implies #[trigger] kept_measure_matches_at(r, k, s, d) by {
            if k < r.len() - 1 {
                assert(r[k] == r2[k]);
                assert(r.take(k + 1) =~= r2.take(k + 1));
                assert(kept_measure_matches_at(r2, k, s, d));
            } else {
                assert(r.take(k + 1) =~= r);
            }
        }
    }
}

/// Step `k` of `r`, when it keeps a note, keeps the source note at the
/// position the walk has reached there on the source side, and that note has
/// the pitch and the type of the destination note at the position reached on
/// the destination side. A removal removes the source note at its position;
/// an addition adds, and a modification changes into, the destination note at
/// its position, the modification carrying no inner steps.
pub open spec fn kept_note_matches_at(r: Seq<DiffView>, k: int, s: Seq<NoteView>, d: Seq<NoteView>) -> bool {
    match r[k] {
        DiffView::Unmodified(ElementView::note(x)) => {
            let p = source_count(r.take(k + 1)) - 1;
            let q = destination_count(r.take(k + 1)) - 1;
            &&& x == s[p]
            &&& s[p].pitch == d[q].pitch
            &&& s[p].typee == d[q].typee
        },
        DiffView::Removed(ElementView::note(x)) => x == s[source_count(r.take(k + 1)) - 1],
        DiffView::Added(ElementView::note(x)) => x == d[destination_count(r.take(k + 1)) - 1],
        DiffView::Modified(ElementView::note(x), ns) => x == d[destination_count(r.take(k + 1)) - 1]
            && ns.len() == 0,
        _ => true,
    }
}

/// The note-level comparison keeps a note only where the source note and the
/// destination note it is paired with have the same pitch and the same type:
/// a note whose pitch changed is never reported unmodified. Removals are about
/// the source notes the walk consumes, additions and modifications about the
/// destination notes.
pub proof fn lemma_diff_notes_kept_notes_match(
    s: Seq<NoteView>,
    d: Seq<NoteView>,
    t: Seq<Seq<u32>>,
    i: int,
    j: int,
    last_add: bool,
)
    requires
        0 <= i <= s.len(),
        0 <= j <= d.len(),
    ensures
        forall|k: int|
            0 <= k < diff_notes_spec(s, d, t, i, j, last_add).len() ==> #[trigger] kept_note_matches_at(
                diff_notes_spec(s, d, t, i, j, last_add),
                k,
                s,
                d,
            ),
    decreases i + j,
{
    let r = diff_notes_spec(s, d, t, i, j, last_add);
    lemma_diff_notes_accounts(s, d, t, i, j, last_add);
    assert(r.take(r.len() as int) =~= r);
    if i > 0 && j > 0 && same_note_head(s[i - 1], d[j - 1]) {
        let r2 = diff_notes_spec(s, d, t, i - 1, j - 1, false);
        lemma_diff_notes_kept_notes_match(s, d, t, i - 1, j - 1, false);
        assert forall|k: int| 0 <= k < r.len() implies #[trigger] kept_note_matches_at(r, k, s, d) by {
            if k < r2.len() {
                assert(r.take(k + 1) =~= r2.take(k + 1));
                assert(kept_note_matches_at(r2, k, s, d));
            } else {
                assert(r.take(k + 1) =~= r);
            }
        }
    } else if crate::diff::walk_adds(t, i, j, last_add) {
        let r2 = diff_notes_spec(s, d, t, i, j - 1, true);
        lemma_diff_notes_kept_notes_match(s, d, t, i, j - 1, true);
        assert forall|k: int| 0 <= k < r.len() implies #[trigger] kept_note_matches_at(r, k, s, d) by {
            if k < r.len() - 1 {
                assert(r[k] == r2[k]);
                assert(r.take(k + 1) =~= r2.take(k + 1));
                assert(kept_note_matches_at(r2, k, s, d));
            } else {
                assert(r.take(k + 1) =~= r);
            }
        }
    } else if i > 0 {
        let r2 = diff_notes_spec(s, d, t, i - 1, j, false);
        lemma_diff_notes_kept_notes_match(s, d, t, i - 1, j, false);
        assert forall|k: int| 0 <= k < r.len() implies #[trigger] kept_note_matches_at(r, k, s, d) by {
            if k < r.len() - 1 {
                assert(r[k] == r2[k]);
                assert(r.take(k + 1) =~= r2.take(k + 1));
                assert(kept_note_matches_at(r2, k, s, d));
            } else {
                assert(r.take(k + 1) =~= r);
            }
        }
    }
}

/// A part that only the destination score has is reported measure by
/// measure, in document order, each measure added.
pub proof fn lemma_diff_destination_only_parts_added(src: Seq<Seq<MesureView>>, dst: Seq<Seq<MesureView>>)
    requires
        src.len() <= dst.len(),
    ensures
        forall|k: int|
            src.len() <= k < dst.len() ==> (#[trigger] diff_spec(src, dst)[k]).len() == dst[k].len() && forall|x: int|
                0 <= x < dst[k].len() ==> diff_spec(src, dst)[k][x] == DiffView::Added(ElementView::mesure(dst[k][x])),
{
    assert(max_nat(src.len(), dst.len()) == dst.len());
    assert forall|k: int| src.len() <= k < dst.len() implies (#[trigger] diff_spec(src, dst)[k]).len() == dst[k].len()
        && forall|x: int|
        0 <= x < dst[k].len() ==> diff_spec(src, dst)[k][x] == DiffView::Added(ElementView::mesure(dst[k][x])) by {
        assert(diff_spec(src, dst)[k] == all_added(dst[k]));
    }
}

} // verus!
