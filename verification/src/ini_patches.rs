//! Applying the skin.ini edits that image repair asks for, and reporting them grouped by
//! the new image stem.
use vstd::prelude::*;

use crate::ini_update::{IniEntry, edit_result, update_key_image_in_ini, update_note_image_l_in_ini};
use crate::key_finder::insert_sorted_u32;
use crate::skin_ini::{add_unique, distinct};
use crate::text::{decimal, push_char, push_decimal, push_str, strings_view};

verus! {

/// Strictly increasing.
pub open spec fn increasing(s: Seq<u32>) -> bool {
    forall|a: int, b: int| 0 <= a < b < s.len() ==> #[trigger] s[a] < #[trigger] s[b]
}

/// The distinct elements of `s`, ascending.
pub open spec fn sorted_set(s: Seq<u32>) -> Seq<u32> {
    choose|k: Seq<u32>| increasing(k) && forall|x: u32| #[trigger] k.contains(x) <==> s.contains(x)
}

proof fn lemma_increasing_unique(a: Seq<u32>, b: Seq<u32>)
    requires
        increasing(a),
        increasing(b),
        forall|x: u32| #[trigger] a.contains(x) <==> b.contains(x),
    ensures
        a == b,
    decreases a.len(),
{
    if a.len() == 0 {
        if b.len() > 0 {
            assert(b[0] == b[0]);
            assert(b.contains(b[0]));
            assert(a.contains(b[0]));
        }
    } else if b.len() == 0 {
        assert(a[0] == a[0]);
        assert(a.contains(a[0]));
        assert(b.contains(a[0]));
    } else {
        let a0 = a[0];
        let b0 = b[0];
        assert(a.contains(a0));
        assert(b.contains(b0));
        assert(b.contains(a0));
        assert(a.contains(b0));
        let ia = choose|i: int| 0 <= i < a.len() && #[trigger] a[i] == b0;
        let ib = choose|i: int| 0 <= i < b.len() && #[trigger] b[i] == a0;
        if ia > 0 {
            assert(a[0] < a[ia]);
        }
        if ib > 0 {
            assert(b[0] < b[ib]);
        }
        assert(a0 == b0);
        let a1 = a.drop_first();
        let b1 = b.drop_first();
        assert forall|x: u32| #[trigger] a1.contains(x) <==> b1.contains(x) by {
            if a1.contains(x) {
                let i = choose|i: int| 0 <= i < a1.len() && #[trigger] a1[i] == x;
                assert(a[i + 1] == x);
                assert(a[0] < a[i + 1]);
                assert(a.contains(x));
                assert(b.contains(x));
                let j = choose|j: int| 0 <= j < b.len() && #[trigger] b[j] == x;
                assert(j > 0);
                assert(b1[j - 1] == x);
            }
            if b1.contains(x) {
                let i = choose|i: int| 0 <= i < b1.len() && #[trigger] b1[i] == x;
                assert(b[i + 1] == x);
                assert(b[0] < b[i + 1]);
                assert(b.contains(x));
                assert(a.contains(x));
                let j = choose|j: int| 0 <= j < a.len() && #[trigger] a[j] == x;
                assert(j > 0);
                assert(a1[j - 1] == x);
            }
        }
        lemma_increasing_unique(a1, b1);
        assert(a =~= seq![a0] + a1);
        assert(b =~= seq![b0] + b1);
    }
}

/// The distinct elements of `v`, ascending.
pub fn sort_dedup(v: &Vec<u32>) -> (r: Vec<u32>)
    ensures
        r@ == sorted_set(v@),
{
    let mut out: Vec<u32> = Vec::new();
    let mut i: usize = 0;
    while i < v.len()
        invariant
            i <= v@.len(),
            increasing(out@),
            forall|x: u32| #[trigger] out@.contains(x) <==> v@.take(i as int).contains(x),
        decreases v@.len() - i,
    {
        insert_sorted_u32(&mut out, v[i]);
        let ghost t0 = v@.take(i as int);
        let ghost t1 = v@.take(i + 1);
        assert forall|x: u32| #[trigger] out@.contains(x) <==> t1.contains(x) by {
            assert(t1 == t0.push(v@[i as int]));
            if t1.contains(x) {
                let j = choose|j: int| 0 <= j < t1.len() && #[trigger] t1[j] == x;
                if j < i {
                    assert(t0[j] == x);
                    assert(t0.contains(x));
                } else {
                    assert(x == v@[i as int]);
                }
            }
            if t0.contains(x) {
                let j = choose|j: int| 0 <= j < t0.len() && #[trigger] t0[j] == x;
                assert(t1[j] == x);
            }
            if x == v@[i as int] {
                assert(t1[i as int] == x);
            }
        }
        i += 1;
    }
    assert(v@.take(v@.len() as int) == v@);
    proof {
        let k = sorted_set(v@);
        assert(increasing(out@) && forall|x: u32| #[trigger] out@.contains(x) <==> v@.contains(x));
        assert(increasing(k) && forall|x: u32| #[trigger] k.contains(x) <==> v@.contains(x));
        lemma_increasing_unique(out@, k);
    }
    out
}

/// The numbers of `v` in decimal, separated by commas.
pub open spec fn joined_decimals(v: Seq<u32>) -> Seq<char>
    decreases v.len(),
{
    if v.len() == 0 {
        seq![]
    } else if v.len() == 1 {
        decimal(v[0] as nat)
    } else {
        joined_decimals(v.drop_last()) + seq![','] + decimal(v.last() as nat)
    }
}

/// Appends the numbers of `v` in decimal, separated by commas.
pub fn push_joined_decimals(s: &mut String, v: &Vec<u32>)
    ensures
        final(s)@ == old(s)@ + joined_decimals(v@),
{
    let ghost s0 = s@;
    let mut i: usize = 0;
    assert(v@.take(0) == Seq::<u32>::empty());
    assert(s0 + joined_decimals(v@.take(0)) =~= s0);
    while i < v.len()
        invariant
            i <= v@.len(),
            s@ == s0 + joined_decimals(v@.take(i as int)),
        decreases v@.len() - i,
    {
        assert(v@.take(i + 1).drop_last() == v@.take(i as int));
        assert(v@.take(i + 1).last() == v@[i as int]);
        if i > 0 {
            push_char(s, ',');
        }
        push_decimal(s, v[i] as u64);
        proof {
            if i == 0 {
                assert(s@ =~= s0 + joined_decimals(v@.take(1)));
            } else {
                assert(s@ =~= s0 + joined_decimals(v@.take(i + 1)));
            }
        }
        i += 1;
    }
    assert(v@.take(v@.len() as int) == v@);
}


/// A requested edit: `(keys, column, is_d, new stem)`.
pub type PatchSpec = (u32, u32, bool, Seq<char>);

/// The state after some edits: the text, the error lines, and the edits that succeeded.
pub struct PatchRun {
    pub content: Seq<char>,
    pub errors: Seq<Seq<char>>,
    pub applied: Seq<PatchSpec>,
}

/// The entry that an edit rewrites: `NoteImage#L` for tails, else `KeyImage#D` or
/// `KeyImage#` by `is_d`.
pub open spec fn patch_entry(tail: bool, is_d: bool) -> IniEntry {
    if tail {
        IniEntry::NoteL
    } else if is_d {
        IniEntry::KeyD
    } else {
        IniEntry::Key
    }
}

/// The first `i` edits applied one after the other to `content`.
pub open spec fn patch_run(content: Seq<char>, patches: Seq<PatchSpec>, tail: bool, i: int) -> PatchRun
    decreases i,
{
    if i <= 0 {
        PatchRun { content, errors: seq![], applied: seq![] }
    } else {
        let st = patch_run(content, patches, tail, i - 1);
        let p = patches[i - 1];
        match edit_result(st.content, p.0, p.1, patch_entry(tail, p.2), p.3) {
            Ok(c) => PatchRun { content: c, applied: st.applied.push(p), ..st },
            Err(e) => PatchRun { errors: st.errors.push("⚠ "@ + e), ..st },
        }
    }
}

/// The applied edits whose new stem is `s`, in order.
pub open spec fn entries_for(applied: Seq<PatchSpec>, s: Seq<char>) -> Seq<PatchSpec>
    decreases applied.len(),
{
    if applied.len() == 0 {
        seq![]
    } else {
        let r = entries_for(applied.drop_last(), s);
        if applied.last().3 == s { r.push(applied.last()) } else { r }
    }
}

pub open spec fn keys_of(e: Seq<PatchSpec>) -> Seq<u32> {
    e.map_values(|p: PatchSpec| p.0)
}

/// The columns of the edits of `e` whose `is_d` is `d`, in order.
pub open spec fn cols_with(e: Seq<PatchSpec>, d: bool) -> Seq<u32>
    decreases e.len(),
{
    if e.len() == 0 {
        seq![]
    } else {
        let r = cols_with(e.drop_last(), d);
        if e.last().2 == d { r.push(e.last().1) } else { r }
    }
}

pub open spec fn cols_of(e: Seq<PatchSpec>) -> Seq<u32> {
    e.map_values(|p: PatchSpec| p.1)
}

pub open spec fn stems_of(applied: Seq<PatchSpec>) -> Seq<Seq<char>> {
    applied.map_values(|p: PatchSpec| p.3)
}

/// The report line of a tail stem: its key counts, its columns, the stem.
pub open spec fn tail_group_line(applied: Seq<PatchSpec>, s: Seq<char>) -> Seq<char> {
    let e = entries_for(applied, s);
    "  已更新 "@ + joined_decimals(sorted_set(keys_of(e))) + "k ["@ + joined_decimals(cols_of(e)) + "] → "@ + s
}

/// The `Key[..]` and `KeyD[..]` parts of a key stem's report line.
pub open spec fn key_parts(e: Seq<PatchSpec>) -> Seq<char> {
    let kc = cols_with(e, false);
    let dc = cols_with(e, true);
    let kp = "Key["@ + joined_decimals(kc) + "]"@;
    let dp = "KeyD["@ + joined_decimals(dc) + "]"@;
    if kc.len() > 0 && dc.len() > 0 {
        kp + " "@ + dp
    } else if kc.len() > 0 {
        kp
    } else if dc.len() > 0 {
        dp
    } else {
        seq![]
    }
}

/// The report line of a key stem.
pub open spec fn key_group_line(applied: Seq<PatchSpec>, s: Seq<char>) -> Seq<char> {
    let e = entries_for(applied, s);
    "  已更新 "@ + joined_decimals(sorted_set(keys_of(e))) + "k "@ + key_parts(e) + " → "@ + s
}

/// The report: the error lines, then one line per new stem, in order of first use.
pub open spec fn patch_report(content: Seq<char>, patches: Seq<PatchSpec>, tail: bool) -> Seq<Seq<char>> {
    let run = patch_run(content, patches, tail, patches.len() as int);
    let stems = distinct(stems_of(run.applied));
    run.errors + Seq::new(
        stems.len(),
        |i: int| if tail { tail_group_line(run.applied, stems[i]) } else { key_group_line(run.applied, stems[i]) },
    )
}

/// The text after all edits.
pub open spec fn patched_content(content: Seq<char>, patches: Seq<PatchSpec>, tail: bool) -> Seq<char> {
    patch_run(content, patches, tail, patches.len() as int).content
}

pub open spec fn exec_patches_view(p: Seq<(u32, u32, bool, String)>) -> Seq<PatchSpec> {
    p.map_values(|x: (u32, u32, bool, String)| (x.0, x.1, x.2, x.3@))
}

pub open spec fn tail_patches_view(p: Seq<(u32, u32, String)>) -> Seq<PatchSpec> {
    p.map_values(|x: (u32, u32, String)| (x.0, x.1, false, x.2@))
}

pub open spec fn applied_view(p: Seq<(u32, u32, bool, String)>) -> Seq<PatchSpec> {
    exec_patches_view(p)
}

/// Collects the key counts and the columns (all, plain, `D`) of the edits for `stem`.
fn collect_for_stem(applied: &Vec<(u32, u32, bool, String)>, stem: &String) -> (r: (Vec<u32>, Vec<u32>, Vec<u32>, Vec<u32>))
    ensures
        r.0@ == keys_of(entries_for(applied_view(applied@), stem@)),
        r.1@ == cols_of(entries_for(applied_view(applied@), stem@)),
        r.2@ == cols_with(entries_for(applied_view(applied@), stem@), false),
        r.3@ == cols_with(entries_for(applied_view(applied@), stem@), true),
{
    let ghost av = applied_view(applied@);
    let mut keys: Vec<u32> = Vec::new();
    let mut cols: Vec<u32> = Vec::new();
    let mut kcols: Vec<u32> = Vec::new();
    let mut dcols: Vec<u32> = Vec::new();
    let mut j: usize = 0;
    assert(av.take(0) == Seq::<PatchSpec>::empty());
    while j < applied.len()
        invariant
            j <= applied@.len(),
            av == applied_view(applied@),
            keys@ == keys_of(entries_for(av.take(j as int), stem@)),
            cols@ == cols_of(entries_for(av.take(j as int), stem@)),
            kcols@ == cols_with(entries_for(av.take(j as int), stem@), false),
            dcols@ == cols_with(entries_for(av.take(j as int), stem@), true),
        decreases applied@.len() - j,
    {
        let ghost e0 = entries_for(av.take(j as int), stem@);
        assert(av.take(j + 1).drop_last() == av.take(j as int));
        assert(av.take(j + 1).last() == av[j as int]);
        let (k, c, d, ref s) = applied[j];
        if *s == *stem {
            keys.push(k);
            cols.push(c);
            if d {
                dcols.push(c);
            } else {
                kcols.push(c);
            }
            let ghost e1 = e0.push(av[j as int]);
            assert(e1.drop_last() == e0);
            assert(keys@ =~= keys_of(e1));
            assert(cols@ =~= cols_of(e1));
        }
        j += 1;
    }
    assert(av.take(applied@.len() as int) == av);
    (keys, cols, kcols, dcols)
}

/// The report line of `stem` (tail or key form).
fn group_line(applied: &Vec<(u32, u32, bool, String)>, stem: &String, tail: bool) -> (line: String)
    ensures
        line@ == (if tail {
            tail_group_line(applied_view(applied@), stem@)
        } else {
            key_group_line(applied_view(applied@), stem@)
        }),
{
    let (keys, cols, kcols, dcols) = collect_for_stem(applied, stem);
    let sorted = sort_dedup(&keys);
    let mut line = String::new();
    push_str(&mut line, "  已更新 ");
    push_joined_decimals(&mut line, &sorted);
    if tail {
        push_str(&mut line, "k [");
        push_joined_decimals(&mut line, &cols);
        push_str(&mut line, "] → ");
    } else {
        push_str(&mut line, "k ");
        let ghost before = line@;
        if kcols.len() > 0 {
            push_str(&mut line, "Key[");
            push_joined_decimals(&mut line, &kcols);
            push_str(&mut line, "]");
        }
        if kcols.len() > 0 && dcols.len() > 0 {
            push_str(&mut line, " ");
        }
        if dcols.len() > 0 {
            push_str(&mut line, "KeyD[");
            push_joined_decimals(&mut line, &dcols);
            push_str(&mut line, "]");
        }
        assert(line@ =~= before + key_parts(entries_for(applied_view(applied@), stem@)));
        push_str(&mut line, " → ");
    }
    push_str(&mut line, stem.as_str());
    line
}

proof fn lemma_stems_push(a: Seq<PatchSpec>, p: PatchSpec)
    ensures
        stems_of(a.push(p)) == stems_of(a).push(p.3),
{
    assert(stems_of(a.push(p)) =~= stems_of(a).push(p.3));
}

/// Applies the edits one after the other, then reports them.
fn apply_patches(content: &str, patches: &Vec<(u32, u32, bool, String)>, tail: bool) -> (r: (String, Vec<String>))
    ensures
        r.0@ == patched_content(content@, exec_patches_view(patches@), tail),
        strings_view(r.1@) == patch_report(content@, exec_patches_view(patches@), tail),
{
    let ghost pv = exec_patches_view(patches@);
    let mut text = String::new();
    push_str(&mut text, content);
    assert(text@ =~= content@);
    let mut log: Vec<String> = Vec::new();
    let mut applied: Vec<(u32, u32, bool, String)> = Vec::new();
    let mut i: usize = 0;
    while i < patches.len()
        invariant
            i <= patches@.len(),
            pv == exec_patches_view(patches@),
            text@ == patch_run(content@, pv, tail, i as int).content,
            strings_view(log@) == patch_run(content@, pv, tail, i as int).errors,
            applied_view(applied@) == patch_run(content@, pv, tail, i as int).applied,
        decreases patches@.len() - i,
    {
        let (keys, col, is_d, ref new_stem) = patches[i];
        assert(pv[i as int] == (keys, col, is_d, new_stem@));
        let res = if tail {
            update_note_image_l_in_ini(text.as_str(), keys, col, new_stem.as_str())
        } else {
            update_key_image_in_ini(text.as_str(), keys, col, is_d, new_stem.as_str())
        };
        match res {
            Ok(new_text) => {
                text = new_text;
                let ghost before = applied@;
                applied.push((keys, col, is_d, new_stem.clone()));
                assert(applied_view(applied@) =~= applied_view(before).push(pv[i as int]));
            },
            Err(e) => {
                let mut line = String::new();
                push_str(&mut line, "⚠ ");
                push_str(&mut line, e.as_str());
                let ghost before = log@;
                log.push(line);
                assert(strings_view(log@) =~= strings_view(before).push("⚠ "@ + e@));
            },
        }
        i += 1;
    }
    let ghost run = patch_run(content@, pv, tail, patches@.len() as int);
    let ghost av = applied_view(applied@);
    let mut stems: Vec<String> = Vec::new();
    let mut j: usize = 0;
    assert(stems_of(av.take(0)) =~= Seq::<Seq<char>>::empty());
    while j < applied.len()
        invariant
            j <= applied@.len(),
            av == applied_view(applied@),
            strings_view(stems@) == distinct(stems_of(av.take(j as int))),
        decreases applied@.len() - j,
    {
        proof {
            assert(av.take(j + 1) == av.take(j as int).push(av[j as int]));
            lemma_stems_push(av.take(j as int), av[j as int]);
            assert(stems_of(av.take(j + 1)).drop_last() == stems_of(av.take(j as int)));
        }
        add_unique(&mut stems, &applied[j].3);
        j += 1;
    }
    assert(av.take(applied@.len() as int) == av);
    let ghost errs = strings_view(log@);
    let ghost ds = distinct(stems_of(av));
    let mut k: usize = 0;
    while k < stems.len()
        invariant
            k <= stems@.len(),
            strings_view(stems@) == ds,
            av == applied_view(applied@),
            strings_view(log@) == errs + Seq::new(
                k as nat,
                |x: int| if tail { tail_group_line(av, ds[x]) } else { key_group_line(av, ds[x]) },
            ),
        decreases stems@.len() - k,
    {
        assert(ds[k as int] == stems@[k as int]@);
        let line = group_line(&applied, &stems[k], tail);
        let ghost before = log@;
        let ghost lv = line@;
        log.push(line);
        assert(strings_view(log@) =~= strings_view(before).push(lv));
        assert(Seq::new(
            (k + 1) as nat,
            |x: int| if tail { tail_group_line(av, ds[x]) } else { key_group_line(av, ds[x]) },
        ) =~= Seq::new(
            k as nat,
            |x: int| if tail { tail_group_line(av, ds[x]) } else { key_group_line(av, ds[x]) },
        ).push(lv));
        assert(strings_view(log@) =~= errs + Seq::new(
            (k + 1) as nat,
            |x: int| if tail { tail_group_line(av, ds[x]) } else { key_group_line(av, ds[x]) },
        ));
        k += 1;
    }
    (text, log)
}

/// Rewrites `NoteImage#L` entries of a skin.ini text as requested by
/// `(keys, column, new stem)` edits; returns the new text and the report (failed edits
/// first, then one line per new stem).
pub fn apply_tail_ini_patches(content: &str, patches: &[(u32, u32, String)]) -> (r: (String, Vec<String>))
    ensures
        r.0@ == patched_content(content@, tail_patches_view(patches@), true),
        strings_view(r.1@) == patch_report(content@, tail_patches_view(patches@), true),
{
    let mut v: Vec<(u32, u32, bool, String)> = Vec::new();
    let mut i: usize = 0;
    while i < patches.len()
        invariant
            i <= patches@.len(),
            exec_patches_view(v@) == tail_patches_view(patches@).take(i as int),
        decreases patches@.len() - i,
    {
        let p = &patches[i];
        let s = p.2.clone();
        let ghost before = v@;
        v.push((p.0, p.1, false, s));
        assert(exec_patches_view(v@) =~= exec_patches_view(before).push((p.0, p.1, false, p.2@)));
        assert(tail_patches_view(patches@)[i as int] == (p.0, p.1, false, p.2@));
        assert(exec_patches_view(v@) =~= tail_patches_view(patches@).take(i + 1));
        i += 1;
    }
    assert(tail_patches_view(patches@).take(patches@.len() as int) == tail_patches_view(patches@));
    apply_patches(content, &v, true)
}

/// Rewrites `KeyImage#` / `KeyImage#D` entries of a skin.ini text as requested by
/// `(keys, column, is_d, new stem)` edits; returns the new text and the report.
pub fn apply_key_ini_patches(content: &str, patches: &[(u32, u32, bool, String)]) -> (r: (String, Vec<String>))
    ensures
        r.0@ == patched_content(content@, exec_patches_view(patches@), false),
        strings_view(r.1@) == patch_report(content@, exec_patches_view(patches@), false),
{
    let mut v: Vec<(u32, u32, bool, String)> = Vec::new();
    let mut i: usize = 0;
    while i < patches.len()
        invariant
            i <= patches@.len(),
            exec_patches_view(v@) == exec_patches_view(patches@).take(i as int),
        decreases patches@.len() - i,
    {
        let p = &patches[i];
        let s = p.3.clone();
        let ghost before = v@;
        v.push((p.0, p.1, p.2, s));
        assert(exec_patches_view(v@) =~= exec_patches_view(before).push((p.0, p.1, p.2, p.3@)));
        assert(exec_patches_view(patches@)[i as int] == (p.0, p.1, p.2, p.3@));
        assert(exec_patches_view(v@) =~= exec_patches_view(patches@).take(i + 1));
        i += 1;
    }
    assert(exec_patches_view(patches@).take(patches@.len() as int) == exec_patches_view(patches@));
    apply_patches(content, &v, false)
}

} // verus!
