//! Pieces of the one-click tail toolbox that decide from skin.ini data.
use vstd::prelude::*;
use std::collections::HashMap;

use crate::lazer_plan::{columns_naming, copy_stem, copy_stem_of};
use crate::skin_ini::{ImageRef, ManiaSection, RefSpec, SectionSpec, refs_view, sections_view};
use crate::text::strings_view;

verus! {

broadcast use vstd::std_specs::hash::group_hash_axioms;

/// Outcome of the one-click tail conversion.
#[derive(Debug, Clone)]
pub struct ToolboxConvertResult {
    pub success: bool,
    pub message: String,
    pub logs: Vec<String>,
}

/// Column widths of the first `i` sections whose key count is in `wanted`: for each such
/// key count, the width of the first section that has it.
pub open spec fn column_widths_upto(secs: Seq<SectionSpec>, wanted: Set<u32>, i: int) -> Map<u32, u32>
    decreases i,
{
    if i <= 0 {
        Map::empty()
    } else {
        let m = column_widths_upto(secs, wanted, i - 1);
        let s = secs[i - 1];
        if wanted.contains(s.keys) && !m.contains_key(s.keys) {
            m.insert(s.keys, s.column_width)
        } else {
            m
        }
    }
}

/// The `ColumnWidth` of each key count of `throw_map` that some section has: that of the
/// first such section.
pub fn collect_column_widths(sections: &[ManiaSection], throw_map: &HashMap<u32, u32>) -> (r: HashMap<u32, u32>)
    ensures
        r@ == column_widths_upto(sections_view(sections@), throw_map@.dom(), sections@.len() as int),
{
    let ghost secs = sections_view(sections@);
    let mut column_widths: HashMap<u32, u32> = HashMap::new();
    let mut i: usize = 0;
    while i < sections.len()
        invariant
            i <= sections@.len(),
            secs == sections_view(sections@),
            column_widths@ == column_widths_upto(secs, throw_map@.dom(), i as int),
        decreases sections@.len() - i,
    {
        let section = &sections[i];
        assert(secs[i as int] == section@);
        if throw_map.contains_key(&section.keys) && !column_widths.contains_key(&section.keys) {
            column_widths.insert(section.keys, section.column_width);
        }
        i += 1;
    }
    column_widths
}

/// The first section with key count `k`, among the first `i`.
pub open spec fn first_with_keys(secs: Seq<SectionSpec>, k: u32, i: int) -> int
    decreases i,
{
    if i <= 0 {
        -1
    } else {
        let f = first_with_keys(secs, k, i - 1);
        if f < 0 && secs[i - 1].keys == k { i - 1 } else { f }
    }
}

/// The collected widths hold exactly the wanted key counts that some section has, each
/// with the width of the first section that has it.
pub proof fn lemma_column_widths(secs: Seq<SectionSpec>, wanted: Set<u32>, i: int, k: u32)
    requires
        0 <= i <= secs.len(),
    ensures
        column_widths_upto(secs, wanted, i).contains_key(k) <==> (wanted.contains(k) && first_with_keys(secs, k, i)
            >= 0),
        column_widths_upto(secs, wanted, i).contains_key(k) ==> column_widths_upto(secs, wanted, i)[k]
            == secs[first_with_keys(secs, k, i)].column_width,
        first_with_keys(secs, k, i) >= 0 ==> first_with_keys(secs, k, i) < i && secs[first_with_keys(secs, k, i)].keys == k,
        forall|j: int| 0 <= j < i && #[trigger] secs[j].keys == k ==> first_with_keys(secs, k, i) >= 0
            && first_with_keys(secs, k, i) <= j,
    decreases i,
{
    if i > 0 {
        lemma_column_widths(secs, wanted, i - 1, k);
    }
}


/// The map from key count to target throw of `(keys, throw)` pairs: a later pair for the
/// same key count replaces an earlier one.
pub open spec fn throw_map_of(throws: Seq<(u32, u32)>) -> Map<u32, u32>
    decreases throws.len(),
{
    if throws.len() == 0 {
        Map::empty()
    } else {
        throw_map_of(throws.drop_last()).insert(throws.last().0, throws.last().1)
    }
}

/// Collects `(keys, throw)` pairs into a map (see [`throw_map_of`]).
pub fn throw_map_from(throws: &[(u32, u32)]) -> (m: HashMap<u32, u32>)
    ensures
        m@ == throw_map_of(throws@),
{
    let mut m: HashMap<u32, u32> = HashMap::new();
    let mut i: usize = 0;
    while i < throws.len()
        invariant
            i <= throws@.len(),
            m@ == throw_map_of(throws@.take(i as int)),
        decreases throws@.len() - i,
    {
        let (k, t) = throws[i];
        assert(throws@.take(i + 1).drop_last() =~= throws@.take(i as int));
        m.insert(k, t);
        i += 1;
    }
    assert(throws@.take(throws@.len() as int) =~= throws@);
    m
}

/// One image reference met by the throw step: `(stem, keys, target throw, column width,
/// index of its section)`.
pub type ThrowCandidate = (Seq<char>, u32, u32, u32, int);

/// The references of section `sec` (the `s`-th), each with the section's keys and width and
/// the target `t`.
pub open spec fn section_candidates(sec: SectionSpec, s: int, t: u32) -> Seq<ThrowCandidate> {
    sec.note_image_ls.map_values(|r: RefSpec| (r.name, sec.keys, t, sec.column_width, s))
}

/// The tail references of the first `n` sections whose key count has a target throw, in
/// order.
pub open spec fn throw_candidates(secs: Seq<SectionSpec>, targets: Map<u32, u32>, n: int) -> Seq<ThrowCandidate>
    decreases n,
{
    if n <= 0 {
        seq![]
    } else {
        let prev = throw_candidates(secs, targets, n - 1);
        let sec = secs[n - 1];
        if targets.contains_key(sec.keys) {
            prev + section_candidates(sec, n - 1, targets[sec.keys])
        } else {
            prev
        }
    }
}

/// The `(stem, column width)` pairs of candidates.
pub open spec fn candidate_pairs(c: Seq<ThrowCandidate>) -> Seq<(Seq<char>, u32)> {
    c.map_values(|x: ThrowCandidate| (x.0, x.3))
}

/// The stems of candidates.
pub open spec fn candidate_stems(c: Seq<ThrowCandidate>) -> Seq<Seq<char>> {
    c.map_values(|x: ThrowCandidate| x.0)
}

/// Model of a [`ThrowTask`]: `(copy, stem, copy stem, keys, target, column width,
/// columns)`; copy stem and columns are empty for a change in place.
pub type TaskSpec = (bool, Seq<char>, Seq<char>, u32, u32, u32, Seq<u32>);

/// The tasks of the throw step for the candidates `c`: a `(stem, width)` pair met before is
/// skipped; the first pair of a stem changes the image in place; a later width of a stem
/// gets a copy `{stem}_cw{width}`, and the columns of the section that name the stem are
/// pointed at it.
pub open spec fn throw_tasks_of(secs: Seq<SectionSpec>, c: Seq<ThrowCandidate>) -> Seq<TaskSpec>
    decreases c.len(),
{
    if c.len() == 0 {
        seq![]
    } else {
        let prev = c.drop_last();
        let x = c.last();
        let tasks = throw_tasks_of(secs, prev);
        if candidate_pairs(prev).contains((x.0, x.3)) {
            tasks
        } else if candidate_stems(prev).contains(x.0) {
            tasks.push(
                (true, x.0, copy_stem_of(x.0, x.3), x.1, x.2, x.3, columns_naming(secs[x.4].note_image_ls, x.0)),
            )
        } else {
            tasks.push((false, x.0, seq![], x.1, x.2, x.3, seq![]))
        }
    }
}

/// The `(stem, column width)` of a task.
pub open spec fn task_key(t: TaskSpec) -> (Seq<char>, u32) {
    (t.1, t.5)
}

/// `t` changes the image of `stem` in place.
pub open spec fn is_in_place_of(t: TaskSpec, stem: Seq<char>) -> bool {
    !t.0 && t.1 == stem
}

/// The throw step never plans two tasks for one `(stem, column width)` pair, every task
/// comes from a candidate, and a copy of a stem is planned only after a change in place of
/// that stem; every stem met gets such a change in place.
pub proof fn lemma_throw_tasks(secs: Seq<SectionSpec>, c: Seq<ThrowCandidate>)
    ensures
        forall|i: int, j: int|
            0 <= i < j < throw_tasks_of(secs, c).len() ==> task_key(#[trigger] throw_tasks_of(secs, c)[i])
                != task_key(#[trigger] throw_tasks_of(secs, c)[j]),
        forall|i: int|
            0 <= i < throw_tasks_of(secs, c).len() && (#[trigger] throw_tasks_of(secs, c)[i]).0 ==> exists|k: int|
                0 <= k < i && is_in_place_of(#[trigger] throw_tasks_of(secs, c)[k], throw_tasks_of(secs, c)[i].1),
        forall|i: int|
            0 <= i < throw_tasks_of(secs, c).len() ==> candidate_pairs(c).contains(
                task_key(#[trigger] throw_tasks_of(secs, c)[i]),
            ),
        forall|y: Seq<char>|
            #[trigger] candidate_stems(c).contains(y) ==> exists|k: int|
                0 <= k < throw_tasks_of(secs, c).len() && is_in_place_of(#[trigger] throw_tasks_of(secs, c)[k], y),
    decreases c.len(),
{
    if c.len() > 0 {
        let prev = c.drop_last();
        let x = c.last();
        lemma_throw_tasks(secs, prev);
        let tp = throw_tasks_of(secs, prev);
        let t = throw_tasks_of(secs, c);
        assert(candidate_pairs(c) =~= candidate_pairs(prev).push((x.0, x.3)));
        assert(candidate_stems(c) =~= candidate_stems(prev).push(x.0));
        assert(forall|i: int| 0 <= i < tp.len() ==> #[trigger] t[i] == tp[i]);
        assert forall|i: int| 0 <= i < tp.len() implies candidate_pairs(c).contains(task_key(#[trigger] t[i])) by {
            assert(candidate_pairs(prev).contains(task_key(tp[i])));
            let k = choose|k: int| 0 <= k < candidate_pairs(prev).len() && candidate_pairs(prev)[k] == task_key(tp[i]);
            assert(candidate_pairs(c)[k] == task_key(tp[i]));
        }
        assert forall|y: Seq<char>| #[trigger] candidate_stems(prev).contains(y) implies exists|k: int|
            0 <= k < t.len() && is_in_place_of(#[trigger] t[k], y) by {
            let k = choose|k: int| 0 <= k < tp.len() && is_in_place_of(#[trigger] tp[k], y);
            assert(t[k] == tp[k]);
        }
        if !candidate_pairs(prev).contains((x.0, x.3)) {
            let n = tp.len() as int;
            assert(t.len() == n + 1);
            assert(task_key(t[n]) == (x.0, x.3));
            assert forall|i: int, j: int| 0 <= i < j < t.len() implies task_key(#[trigger] t[i]) != task_key(
                #[trigger] t[j],
            ) by {
                if j == n {
                    assert(candidate_pairs(prev).contains(task_key(tp[i])));
                }
            }
            if !candidate_stems(prev).contains(x.0) {
                assert(is_in_place_of(t[n], x.0));
            } else {
                let k = choose|k: int| 0 <= k < tp.len() && is_in_place_of(#[trigger] tp[k], x.0);
                assert(t[k] == tp[k]);
                assert(is_in_place_of(t[k], t[n].1));
            }
            assert(candidate_pairs(c)[prev.len() as int] == (x.0, x.3));
            assert(candidate_stems(c)[prev.len() as int] == x.0);
            assert forall|i: int| 0 <= i < t.len() && (#[trigger] t[i]).0 implies exists|k: int|
                0 <= k < i && is_in_place_of(#[trigger] t[k], t[i].1) by {
                if i < n {
                    assert(tp[i].0);
                    let k = choose|k: int| 0 <= k < i && is_in_place_of(#[trigger] tp[k], tp[i].1);
                    assert(t[k] == tp[k]);
                } else {
                    let k = choose|k: int| 0 <= k < tp.len() && is_in_place_of(#[trigger] tp[k], x.0);
                    assert(t[k] == tp[k]);
                }
            }
            assert forall|y: Seq<char>| #[trigger] candidate_stems(c).contains(y) implies exists|k: int|
                0 <= k < t.len() && is_in_place_of(#[trigger] t[k], y) by {
                if y != x.0 {
                    let k = choose|k: int| 0 <= k < candidate_stems(c).len() && candidate_stems(c)[k] == y;
                    assert(candidate_stems(prev)[k] == y);
                    assert(candidate_stems(prev).contains(y));
                } else if candidate_stems(prev).contains(x.0) {
                    assert(candidate_stems(prev).contains(y));
                } else {
                    assert(is_in_place_of(t[n], y));
                }
            }
        } else {
            assert(t == tp);
            assert forall|i: int| 0 <= i < t.len() && (#[trigger] t[i]).0 implies exists|k: int|
                0 <= k < i && is_in_place_of(#[trigger] t[k], t[i].1) by {
                assert(tp[i].0);
            }
            let k = choose|k: int| 0 <= k < candidate_pairs(prev).len() && candidate_pairs(prev)[k] == (x.0, x.3);
            assert(candidate_stems(prev)[k] == x.0);
            assert forall|y: Seq<char>| #[trigger] candidate_stems(c).contains(y) implies exists|k: int|
                0 <= k < t.len() && is_in_place_of(#[trigger] t[k], y) by {
                if y != x.0 {
                    let k = choose|k: int| 0 <= k < candidate_stems(c).len() && candidate_stems(c)[k] == y;
                    assert(candidate_stems(prev)[k] == y);
                    assert(candidate_stems(prev).contains(y));
                } else {
                    assert(candidate_stems(prev).contains(x.0));
                    assert(candidate_stems(prev).contains(y));
                }
            }
            assert forall|i: int| 0 <= i < t.len() implies candidate_pairs(c).contains(task_key(#[trigger] t[i])) by {
            }
        }
    }
}

/// One action of the throw step.
#[derive(Debug, Clone)]
pub enum ThrowTask {
    /// Change the throw of the stem's own image.
    InPlace { stem: String, keys: u32, target: u32, column_width: u32 },
    /// Write a copy of the stem's image named `copy_stem` with the new throw, and point the
    /// listed `NoteImage#L` columns of the section (`keys`) at it.
    Copy { stem: String, copy_stem: String, keys: u32, target: u32, column_width: u32, columns: Vec<u32> },
}

impl View for ThrowTask {
    type V = TaskSpec;

    open spec fn view(&self) -> TaskSpec {
        match *self {
            ThrowTask::InPlace { stem, keys, target, column_width } => (
                false,
                stem@,
                seq![],
                keys,
                target,
                column_width,
                seq![],
            ),
            ThrowTask::Copy { stem, copy_stem, keys, target, column_width, columns } => (
                true,
                stem@,
                copy_stem@,
                keys,
                target,
                column_width,
                columns@,
            ),
        }
    }
}

/// The models of a list of tasks.
pub open spec fn tasks_view(v: Seq<ThrowTask>) -> Seq<TaskSpec> {
    v.map_values(|t: ThrowTask| t@)
}

/// Whether `(stem, cw)` and whether `stem` occur among `hist`.
fn find_in_history(hist: &Vec<(String, u32)>, stem: &String, cw: u32) -> (r: (bool, bool))
    ensures
        r.0 == hist@.map_values(|p: (String, u32)| (p.0@, p.1)).contains((stem@, cw)),
        r.1 == hist@.map_values(|p: (String, u32)| p.0@).contains(stem@),
{
    let ghost pairs = hist@.map_values(|p: (String, u32)| (p.0@, p.1));
    let ghost names = hist@.map_values(|p: (String, u32)| p.0@);
    let mut pair_found = false;
    let mut name_found = false;
    let mut k: usize = 0;
    while k < hist.len()
        invariant
            k <= hist@.len(),
            pairs == hist@.map_values(|p: (String, u32)| (p.0@, p.1)),
            names == hist@.map_values(|p: (String, u32)| p.0@),
            pair_found == (exists|j: int| 0 <= j < k && pairs[j] == (stem@, cw)),
            name_found == (exists|j: int| 0 <= j < k && names[j] == stem@),
        decreases hist@.len() - k,
    {
        let same = hist[k].0 == *stem;
        assert(names[k as int] == hist@[k as int].0@);
        assert(pairs[k as int] == (hist@[k as int].0@, hist@[k as int].1));
        if same {
            name_found = true;
            if hist[k].1 == cw {
                pair_found = true;
            }
        }
        k += 1;
    }
    proof {
        if pair_found {
            let j = choose|j: int| 0 <= j < k && pairs[j] == (stem@, cw);
            assert(pairs.contains((stem@, cw)));
        }
        if name_found {
            let j = choose|j: int| 0 <= j < k && names[j] == stem@;
            assert(names.contains(stem@));
        }
    }
    (pair_found, name_found)
}

/// The columns of `refs` that name `stem`, in order.
fn columns_of(refs: &Vec<ImageRef>, stem: &String) -> (r: Vec<u32>)
    ensures
        r@ == columns_naming(refs_view(refs@), stem@),
{
    let ghost rv = refs_view(refs@);
    let mut r: Vec<u32> = Vec::new();
    let mut j: usize = 0;
    while j < refs.len()
        invariant
            j <= refs@.len(),
            rv == refs_view(refs@),
            r@ == columns_naming(rv.take(j as int), stem@),
        decreases refs@.len() - j,
    {
        assert(rv.take(j + 1).drop_last() =~= rv.take(j as int));
        if refs[j].name == *stem {
            r.push(refs[j].column);
        }
        j += 1;
    }
    assert(rv.take(refs@.len() as int) =~= rv);
    r
}

/// Plans the throw step of the one-click toolbox over the sections (see
/// [`throw_tasks_of`] and [`throw_candidates`]).
pub fn plan_throw_tasks(sections: &[ManiaSection], throw_map: &HashMap<u32, u32>) -> (r: Vec<ThrowTask>)
    ensures
        tasks_view(r@) == throw_tasks_of(
            sections_view(sections@),
            throw_candidates(sections_view(sections@), throw_map@, sections@.len() as int),
        ),
{
    let ghost secs = sections_view(sections@);
    let ghost targets = throw_map@;
    let mut tasks: Vec<ThrowTask> = Vec::new();
    let mut hist: Vec<(String, u32)> = Vec::new();
    let mut s: usize = 0;
    while s < sections.len()
        invariant
            s <= sections@.len(),
            secs == sections_view(sections@),
            targets == throw_map@,
            tasks_view(tasks@) == throw_tasks_of(secs, throw_candidates(secs, targets, s as int)),
            hist@.map_values(|p: (String, u32)| (p.0@, p.1)) == candidate_pairs(throw_candidates(secs, targets, s as int)),
            hist@.map_values(|p: (String, u32)| p.0@) == candidate_stems(throw_candidates(secs, targets, s as int)),
        decreases sections@.len() - s,
    {
        let section = &sections[s];
        assert(secs[s as int] == section@);
        let ghost before = throw_candidates(secs, targets, s as int);
        match throw_map.get(&section.keys) {
            None => {
                assert(throw_candidates(secs, targets, s + 1) == before);
            },
            Some(t) => {
                let target = *t;
                let cw = section.column_width;
                let ghost sc = section_candidates(section@, s as int, target);
                let refs = &section.note_image_ls;
                let mut j: usize = 0;
                assert(before + sc.take(0) =~= before);
                while j < refs.len()
                    invariant
                        j <= refs@.len(),
                        s < sections@.len(),
                        secs == sections_view(sections@),
                        secs[s as int] == section@,
                        refs == &section.note_image_ls,
                        cw == section.column_width,
                        sc == section_candidates(section@, s as int, target),
                        tasks_view(tasks@) == throw_tasks_of(secs, before + sc.take(j as int)),
                        hist@.map_values(|p: (String, u32)| (p.0@, p.1)) == candidate_pairs(before + sc.take(j as int)),
                        hist@.map_values(|p: (String, u32)| p.0@) == candidate_stems(before + sc.take(j as int)),
                    decreases refs@.len() - j,
                {
                    let r = &refs[j];
                    let ghost prefix = before + sc.take(j as int);
                    let ghost next = before + sc.take(j + 1);
                    assert(next.drop_last() =~= prefix);
                    assert(next.last() == (r.name@, section.keys, target, cw, s as int));
                    let (pair_seen, name_seen) = find_in_history(&hist, &r.name, cw);
                    let ghost old_tasks = tasks@;
                    if !pair_seen {
                        if name_seen {
                            let columns = columns_of(refs, &r.name);
                            tasks.push(
                                ThrowTask::Copy {
                                    stem: r.name.clone(),
                                    copy_stem: copy_stem(r.name.as_str(), cw),
                                    keys: section.keys,
                                    target,
                                    column_width: cw,
                                    columns,
                                },
                            );
                        } else {
                            tasks.push(ThrowTask::InPlace { stem: r.name.clone(), keys: section.keys, target, column_width: cw });
                        }
                        assert(tasks_view(tasks@) =~= tasks_view(old_tasks).push(tasks@.last()@));
                    }
                    let ghost old_hist = hist@;
                    hist.push((r.name.clone(), cw));
                    assert(hist@.map_values(|p: (String, u32)| (p.0@, p.1)) =~= old_hist.map_values(
                        |p: (String, u32)| (p.0@, p.1),
                    ).push((r.name@, cw)));
                    assert(hist@.map_values(|p: (String, u32)| p.0@) =~= old_hist.map_values(|p: (String, u32)| p.0@).push(
                        r.name@,
                    ));
                    assert(tasks_view(tasks@) =~= throw_tasks_of(secs, next));
                    assert(hist@.map_values(|p: (String, u32)| (p.0@, p.1)) =~= candidate_pairs(next));
                    assert(hist@.map_values(|p: (String, u32)| p.0@) =~= candidate_stems(next));
                    j += 1;
                }
                assert(sc.take(refs@.len() as int) =~= sc);
                assert(throw_candidates(secs, targets, s + 1) == before + sc);
            },
        }
        s += 1;
    }
    tasks
}


/// The changes of the throw modification for the candidates `c`: the first reference to
/// each stem, as `(stem, keys, target, column width)`, the width taken from `widths` when
/// it has the key count and from the section otherwise; later references to a stem are
/// skipped.
pub open spec fn modification_tasks(c: Seq<ThrowCandidate>, widths: Map<u32, u32>) -> Seq<(Seq<char>, u32, u32, u32)>
    decreases c.len(),
{
    if c.len() == 0 {
        seq![]
    } else {
        let prev = c.drop_last();
        let x = c.last();
        let t = modification_tasks(prev, widths);
        if candidate_stems(prev).contains(x.0) {
            t
        } else {
            t.push((x.0, x.1, x.2, if widths.contains_key(x.1) { widths[x.1] } else { x.3 }))
        }
    }
}

/// The throw modification changes each stem that a candidate names exactly once.
pub proof fn lemma_modification_tasks(c: Seq<ThrowCandidate>, widths: Map<u32, u32>)
    ensures
        forall|i: int, j: int|
            0 <= i < j < modification_tasks(c, widths).len() ==> (#[trigger] modification_tasks(c, widths)[i]).0
                != (#[trigger] modification_tasks(c, widths)[j]).0,
        forall|y: Seq<char>|
            #[trigger] candidate_stems(c).contains(y) <==> exists|k: int|
                0 <= k < modification_tasks(c, widths).len() && (#[trigger] modification_tasks(c, widths)[k]).0 == y,
    decreases c.len(),
{
    if c.len() > 0 {
        let prev = c.drop_last();
        let x = c.last();
        lemma_modification_tasks(prev, widths);
        let tp = modification_tasks(prev, widths);
        let t = modification_tasks(c, widths);
        assert(candidate_stems(c) =~= candidate_stems(prev).push(x.0));
        assert(forall|i: int| 0 <= i < tp.len() ==> #[trigger] t[i] == tp[i]);
        assert forall|y: Seq<char>| #[trigger] candidate_stems(c).contains(y) <==> exists|k: int|
            0 <= k < t.len() && (#[trigger] t[k]).0 == y by {
            if candidate_stems(c).contains(y) {
                if y == x.0 && !candidate_stems(prev).contains(x.0) {
                    assert(t[tp.len() as int].0 == y);
                } else {
                    let k = choose|k: int| 0 <= k < candidate_stems(c).len() && candidate_stems(c)[k] == y;
                    if k < prev.len() {
                        assert(candidate_stems(prev)[k] == y);
                    }
                    assert(candidate_stems(prev).contains(y));
                    let m = choose|m: int| 0 <= m < tp.len() && (#[trigger] tp[m]).0 == y;
                    assert(t[m] == tp[m]);
                }
            }
            if exists|k: int| 0 <= k < t.len() && (#[trigger] t[k]).0 == y {
                let k = choose|k: int| 0 <= k < t.len() && (#[trigger] t[k]).0 == y;
                if k < tp.len() {
                    assert(tp[k].0 == y);
                    assert(candidate_stems(prev).contains(y));
                    let m = choose|m: int| 0 <= m < candidate_stems(prev).len() && candidate_stems(prev)[m] == y;
                    assert(candidate_stems(c)[m] == y);
                } else {
                    assert(candidate_stems(c)[prev.len() as int] == y);
                }
            }
        }
        if !candidate_stems(prev).contains(x.0) {
            let n = tp.len() as int;
            assert forall|i: int, j: int| 0 <= i < j < t.len() implies (#[trigger] t[i]).0 != (#[trigger] t[j]).0 by {
                if j == n && t[i].0 == t[j].0 {
                    assert(tp[i].0 == x.0);
                }
            }
        }
    }
}

/// The models of planned modifications.
pub open spec fn modifications_view(v: Seq<(String, u32, u32, u32)>) -> Seq<(Seq<char>, u32, u32, u32)> {
    v.map_values(|m: (String, u32, u32, u32)| (m.0@, m.1, m.2, m.3))
}

/// Whether `stem` occurs among `names`.
fn contains_name(names: &Vec<String>, stem: &String) -> (r: bool)
    ensures
        r == names@.map_values(|n: String| n@).contains(stem@),
{
    let ghost v = names@.map_values(|n: String| n@);
    let mut k: usize = 0;
    while k < names.len()
        invariant
            k <= names@.len(),
            v == names@.map_values(|n: String| n@),
            forall|j: int| 0 <= j < k ==> v[j] != stem@,
        decreases names@.len() - k,
    {
        assert(v[k as int] == names@[k as int]@);
        if names[k] == *stem {
            assert(v.contains(stem@));
            return true;
        }
        k += 1;
    }
    false
}

/// Plans the throw modification of the tails of the key counts in `throw_map` (see
/// [`modification_tasks`]).
pub fn plan_throw_modification(
    sections: &[ManiaSection],
    throw_map: &HashMap<u32, u32>,
    column_widths: &HashMap<u32, u32>,
) -> (r: Vec<(String, u32, u32, u32)>)
    ensures
        modifications_view(r@) == modification_tasks(
            throw_candidates(sections_view(sections@), throw_map@, sections@.len() as int),
            column_widths@,
        ),
{
    let ghost secs = sections_view(sections@);
    let ghost targets = throw_map@;
    let ghost widths = column_widths@;
    let mut tasks: Vec<(String, u32, u32, u32)> = Vec::new();
    let mut seen: Vec<String> = Vec::new();
    let mut s: usize = 0;
    while s < sections.len()
        invariant
            s <= sections@.len(),
            secs == sections_view(sections@),
            targets == throw_map@,
            widths == column_widths@,
            modifications_view(tasks@) == modification_tasks(throw_candidates(secs, targets, s as int), widths),
            seen@.map_values(|n: String| n@) == candidate_stems(throw_candidates(secs, targets, s as int)),
        decreases sections@.len() - s,
    {
        let section = &sections[s];
        assert(secs[s as int] == section@);
        let ghost before = throw_candidates(secs, targets, s as int);
        match throw_map.get(&section.keys) {
            None => {
                assert(throw_candidates(secs, targets, s + 1) == before);
            },
            Some(t) => {
                let target = *t;
                let cw = match column_widths.get(&section.keys) {
                    Some(w) => *w,
                    None => section.column_width,
                };
                let ghost sc = section_candidates(section@, s as int, target);
                let refs = &section.note_image_ls;
                let mut j: usize = 0;
                assert(before + sc.take(0) =~= before);
                while j < refs.len()
                    invariant
                        j <= refs@.len(),
                        secs == sections_view(sections@),
                        secs[s as int] == section@,
                        refs == &section.note_image_ls,
                        widths == column_widths@,
                        cw == (if widths.contains_key(section.keys) { widths[section.keys] } else { section.column_width }),
                        sc == section_candidates(section@, s as int, target),
                        modifications_view(tasks@) == modification_tasks(before + sc.take(j as int), widths),
                        seen@.map_values(|n: String| n@) == candidate_stems(before + sc.take(j as int)),
                    decreases refs@.len() - j,
                {
                    let r = &refs[j];
                    let ghost prefix = before + sc.take(j as int);
                    let ghost next = before + sc.take(j + 1);
                    assert(next.drop_last() =~= prefix);
                    assert(next.last() == (r.name@, section.keys, target, section.column_width, s as int));
                    let known = contains_name(&seen, &r.name);
                    if !known {
                        let ghost old_tasks = tasks@;
                        tasks.push((r.name.clone(), section.keys, target, cw));
                        assert(modifications_view(tasks@) =~= modifications_view(old_tasks).push(
                            (r.name@, section.keys, target, cw),
                        ));
                    }
                    let ghost old_seen = seen@;
                    seen.push(r.name.clone());
                    assert(seen@.map_values(|n: String| n@) =~= old_seen.map_values(|n: String| n@).push(r.name@));
                    assert(modifications_view(tasks@) =~= modification_tasks(next, widths));
                    j += 1;
                }
                assert(sc.take(refs@.len() as int) =~= sc);
                assert(throw_candidates(secs, targets, s + 1) == before + sc);
            },
        }
        s += 1;
    }
    tasks
}

/// The throw as osu!lazer shows it of a throw of `current` rows in an image `h` rows high:
/// scaled to 32800 rows (rounded down); 0 for an empty image.
pub open spec fn lazer_scaled_throw(current: int, h: int) -> int {
    if h > 0 { (current * 32800 / h) as u32 as int } else { 0 }
}

/// Scales a throw to the 32800 rows of osu!lazer (see [`lazer_scaled_throw`]).
pub fn lazer_throw_display(current: u32, h: u32) -> (r: u32)
    ensures
        r == lazer_scaled_throw(current as int, h as int),
{
    if h > 0 {
        ((current as u64 * 32800) / h as u64) as u32
    } else {
        0
    }
}


/// The models of `(stem, preset)` pairs.
pub open spec fn pairs_view(v: Seq<(String, String)>) -> Seq<(Seq<char>, Seq<char>)> {
    v.map_values(|p: (String, String)| (p.0@, p.1@))
}

/// The preset chosen for `stem` among `(stem, preset)` pairs: that of the last pair for it.
pub open spec fn preset_for(pairs: Seq<(Seq<char>, Seq<char>)>, stem: Seq<char>) -> Option<Seq<char>>
    decreases pairs.len(),
{
    if pairs.len() == 0 {
        None
    } else if pairs.last().0 == stem {
        Some(pairs.last().1)
    } else {
        preset_for(pairs.drop_last(), stem)
    }
}

/// The `NoteImage#L` stems of the first `n` sections, in order.
pub open spec fn tail_stems(secs: Seq<SectionSpec>, n: int) -> Seq<Seq<char>>
    decreases n,
{
    if n <= 0 {
        seq![]
    } else {
        tail_stems(secs, n - 1) + secs[n - 1].note_image_ls.map_values(|r: RefSpec| r.name)
    }
}

/// The preset replacements for the stems `names` met in order: each stem that has a
/// preset, the first time it is met, with its preset.
pub open spec fn preset_plan(names: Seq<Seq<char>>, pairs: Seq<(Seq<char>, Seq<char>)>) -> Seq<(Seq<char>, Seq<char>)>
    decreases names.len(),
{
    if names.len() == 0 {
        seq![]
    } else {
        let prev = names.drop_last();
        let x = names.last();
        let r = preset_plan(prev, pairs);
        match preset_for(pairs, x) {
            Some(p) => if prev.contains(x) { r } else { r.push((x, p)) },
            None => r,
        }
    }
}

/// The index of the pair that chooses the preset of `stem` (see [`preset_for`]).
fn find_preset(presets: &[(String, String)], stem: &String) -> (r: Option<usize>)
    ensures
        match r {
            Some(i) => i < presets@.len() && preset_for(pairs_view(presets@), stem@) == Some(presets@[i as int].1@),
            None => preset_for(pairs_view(presets@), stem@) is None,
        },
{
    let ghost pv = pairs_view(presets@);
    let mut i: usize = presets.len();
    assert(pv.take(presets@.len() as int) =~= pv);
    while i > 0
        invariant
            i <= presets@.len(),
            pv == pairs_view(presets@),
            preset_for(pv, stem@) == preset_for(pv.take(i as int), stem@),
        decreases i,
    {
        assert(pv.take(i as int).drop_last() =~= pv.take(i - 1));
        assert(pv.take(i as int).last() == (presets@[i - 1].0@, presets@[i - 1].1@));
        if presets[i - 1].0 == *stem {
            return Some(i - 1);
        }
        i -= 1;
    }
    None
}

/// Plans the preset replacement of the toolbox: for each tail stem of the sections, the
/// first time it is met, the preset chosen for it (see [`preset_plan`]).
pub fn plan_preset_replacements(sections: &[ManiaSection], presets: &[(String, String)]) -> (r: Vec<(String, String)>)
    ensures
        pairs_view(r@) == preset_plan(tail_stems(sections_view(sections@), sections@.len() as int), pairs_view(presets@)),
{
    let ghost secs = sections_view(sections@);
    let ghost pv = pairs_view(presets@);
    let mut out: Vec<(String, String)> = Vec::new();
    let mut seen: Vec<String> = Vec::new();
    let mut s: usize = 0;
    while s < sections.len()
        invariant
            s <= sections@.len(),
            secs == sections_view(sections@),
            pv == pairs_view(presets@),
            pairs_view(out@) == preset_plan(tail_stems(secs, s as int), pv),
            seen@.map_values(|n: String| n@) == tail_stems(secs, s as int),
        decreases sections@.len() - s,
    {
        let section = &sections[s];
        assert(secs[s as int] == section@);
        let ghost before = tail_stems(secs, s as int);
        let ghost ns = section@.note_image_ls.map_values(|r: RefSpec| r.name);
        let refs = &section.note_image_ls;
        let mut j: usize = 0;
        assert(before + ns.take(0) =~= before);
        while j < refs.len()
            invariant
                j <= refs@.len(),
                secs == sections_view(sections@),
                secs[s as int] == section@,
                refs == &section.note_image_ls,
                pv == pairs_view(presets@),
                ns == section@.note_image_ls.map_values(|r: RefSpec| r.name),
                pairs_view(out@) == preset_plan(before + ns.take(j as int), pv),
                seen@.map_values(|n: String| n@) == before + ns.take(j as int),
            decreases refs@.len() - j,
        {
            let r = &refs[j];
            let ghost prefix = before + ns.take(j as int);
            let ghost next = before + ns.take(j + 1);
            assert(next.drop_last() =~= prefix);
            assert(next.last() == r.name@);
            match find_preset(presets, &r.name) {
                Some(k) => {
                    let known = contains_name(&seen, &r.name);
                    if !known {
                        let ghost old_out = out@;
                        out.push((r.name.clone(), presets[k].1.clone()));
                        assert(pairs_view(out@) =~= pairs_view(old_out).push((r.name@, presets@[k as int].1@)));
                    }
                },
                None => {},
            }
            let ghost old_seen = seen@;
            seen.push(r.name.clone());
            assert(seen@.map_values(|n: String| n@) =~= old_seen.map_values(|n: String| n@).push(r.name@));
            j += 1;
        }
        assert(ns.take(refs@.len() as int) =~= ns);
        assert(tail_stems(secs, s + 1) == before + ns);
        s += 1;
    }
    out
}


/// The distinct strings of `names`, in the order of their first occurrence.
pub open spec fn first_occurrences(names: Seq<Seq<char>>) -> Seq<Seq<char>>
    decreases names.len(),
{
    if names.len() == 0 {
        seq![]
    } else {
        let r = first_occurrences(names.drop_last());
        if names.drop_last().contains(names.last()) { r } else { r.push(names.last()) }
    }
}

/// The distinct strings of `names`, in the order of their first occurrence.
pub fn distinct_names(names: &Vec<String>) -> (r: Vec<String>)
    ensures
        strings_view(r@) == first_occurrences(strings_view(names@)),
{
    let ghost all = strings_view(names@);
    let mut out: Vec<String> = Vec::new();
    let mut seen: Vec<String> = Vec::new();
    let mut j: usize = 0;
    assert(all.take(0) =~= Seq::<Seq<char>>::empty());
    while j < names.len()
        invariant
            j <= names@.len(),
            all == strings_view(names@),
            strings_view(out@) == first_occurrences(all.take(j as int)),
            seen@.map_values(|n: String| n@) == all.take(j as int),
        decreases names@.len() - j,
    {
        let ghost next = all.take(j + 1);
        assert(next.drop_last() =~= all.take(j as int));
        assert(next.last() == names@[j as int]@);
        if !contains_name(&seen, &names[j]) {
            let ghost old_out = out@;
            out.push(names[j].clone());
            assert(strings_view(out@) =~= strings_view(old_out).push(names@[j as int]@));
        }
        let ghost old_seen = seen@;
        seen.push(names[j].clone());
        assert(seen@.map_values(|n: String| n@) =~= old_seen.map_values(|n: String| n@).push(names@[j as int]@));
        j += 1;
    }
    assert(all.take(j as int) =~= all);
    out
}

/// The distinct `NoteImage#L` stems of the sections, in the order they are first met.
pub fn distinct_tail_stems(sections: &[ManiaSection]) -> (r: Vec<String>)
    ensures
        strings_view(r@) == first_occurrences(tail_stems(sections_view(sections@), sections@.len() as int)),
{
    let ghost secs = sections_view(sections@);
    let mut out: Vec<String> = Vec::new();
    let mut seen: Vec<String> = Vec::new();
    let mut s: usize = 0;
    while s < sections.len()
        invariant
            s <= sections@.len(),
            secs == sections_view(sections@),
            strings_view(out@) == first_occurrences(tail_stems(secs, s as int)),
            seen@.map_values(|n: String| n@) == tail_stems(secs, s as int),
        decreases sections@.len() - s,
    {
        let section = &sections[s];
        assert(secs[s as int] == section@);
        let ghost before = tail_stems(secs, s as int);
        let ghost ns = section@.note_image_ls.map_values(|r: RefSpec| r.name);
        let refs = &section.note_image_ls;
        let mut j: usize = 0;
        assert(before + ns.take(0) =~= before);
        while j < refs.len()
            invariant
                j <= refs@.len(),
                refs == &section.note_image_ls,
                ns == section@.note_image_ls.map_values(|r: RefSpec| r.name),
                strings_view(out@) == first_occurrences(before + ns.take(j as int)),
                seen@.map_values(|n: String| n@) == before + ns.take(j as int),
            decreases refs@.len() - j,
        {
            let r = &refs[j];
            let ghost next = before + ns.take(j + 1);
            assert(next.drop_last() =~= before + ns.take(j as int));
            assert(next.last() == r.name@);
            if !contains_name(&seen, &r.name) {
                let ghost old_out = out@;
                out.push(r.name.clone());
                assert(strings_view(out@) =~= strings_view(old_out).push(r.name@));
            }
            let ghost old_seen = seen@;
            seen.push(r.name.clone());
            assert(seen@.map_values(|n: String| n@) =~= old_seen.map_values(|n: String| n@).push(r.name@));
            j += 1;
        }
        assert(ns.take(refs@.len() as int) =~= ns);
        assert(tail_stems(secs, s + 1) == before + ns);
        s += 1;
    }
    out
}

} // verus!
