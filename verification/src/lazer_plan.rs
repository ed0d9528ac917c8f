//! Decisions of the osu!lazer repair: which column widths an image is needed at, and which
//! skin.ini entries must point to the copies made for the extra widths.
use vstd::prelude::*;

use crate::ini_patches::{sort_dedup, sorted_set};
use crate::skin_ini::{ImageRef, ManiaSection, RefSpec, SectionSpec, StemGroup, group_view, refs_view, sections_view};
use crate::text::{decimal, push_decimal, push_str, str_equals, strings_view};

verus! {

pub open spec fn widths_of(refs: Seq<(u32, u32)>) -> Seq<u32> {
    refs.map_values(|r: (u32, u32)| r.1)
}

/// The distinct column widths of `(keys, column_width)` pairs, ascending.
pub fn unique_column_widths(refs: &[(u32, u32)]) -> (r: Vec<u32>)
    ensures
        r@ == sorted_set(widths_of(refs@)),
{
    let mut cws: Vec<u32> = Vec::new();
    let mut i: usize = 0;
    while i < refs.len()
        invariant
            i <= refs@.len(),
            cws@ == widths_of(refs@).take(i as int),
        decreases refs@.len() - i,
    {
        cws.push(refs[i].1);
        assert(cws@ =~= widths_of(refs@).take(i + 1));
        i += 1;
    }
    assert(widths_of(refs@).take(refs@.len() as int) == widths_of(refs@));
    sort_dedup(&cws)
}

/// The stem of the copy of `stem` made for column width `cw`: `{stem}_cw{cw}`.
pub open spec fn copy_stem_of(stem: Seq<char>, cw: u32) -> Seq<char> {
    stem + "_cw"@ + decimal(cw as nat)
}

/// The stem of the copy of `stem` made for column width `cw`.
pub fn copy_stem(stem: &str, cw: u32) -> (s: String)
    ensures
        s@ == copy_stem_of(stem@, cw),
{
    let mut s = String::new();
    push_str(&mut s, stem);
    push_str(&mut s, "_cw");
    push_decimal(&mut s, cw as u64);
    s
}

/// The columns of the references in `refs` to `stem`, in order.
pub open spec fn columns_naming(refs: Seq<RefSpec>, stem: Seq<char>) -> Seq<u32>
    decreases refs.len(),
{
    if refs.len() == 0 {
        seq![]
    } else {
        let r = columns_naming(refs.drop_last(), stem);
        if refs.last().name == stem { r.push(refs.last().column) } else { r }
    }
}

/// Which references of a section an edit for a copy rewrites.
pub open spec fn copy_targets(sec: SectionSpec, stem: Seq<char>, tail: bool) -> Seq<(u32, bool)> {
    if tail {
        columns_naming(sec.note_image_ls, stem).map_values(|c: u32| (c, false))
    } else {
        columns_naming(sec.key_image_ds, stem).map_values(|c: u32| (c, true)) + columns_naming(
            sec.key_images,
            stem,
        ).map_values(|c: u32| (c, false))
    }
}

/// The edits that sections with `keys` and column width `cw`, among the first `n`, need.
pub open spec fn edits_in_sections(secs: Seq<SectionSpec>, keys: u32, cw: u32, stem: Seq<char>, tail: bool, n: int) -> Seq<(u32, u32, bool)>
    decreases n,
{
    if n <= 0 {
        seq![]
    } else {
        let prev = edits_in_sections(secs, keys, cw, stem, tail, n - 1);
        let sec = secs[n - 1];
        if sec.keys == keys && sec.column_width == cw {
            prev + copy_targets(sec, stem, tail).map_values(|t: (u32, bool)| (keys, t.0, t.1))
        } else {
            prev
        }
    }
}

/// The edits for the copy of `stem` at width `cw`, over the first `n` pairs of `refs`:
/// for each pair with that width, the references to `stem` in the sections with its key
/// count and that width.
pub open spec fn copy_edits(refs: Seq<(u32, u32)>, secs: Seq<SectionSpec>, cw: u32, stem: Seq<char>, tail: bool, n: int) -> Seq<(u32, u32, bool)>
    decreases n,
{
    if n <= 0 {
        seq![]
    } else {
        let prev = copy_edits(refs, secs, cw, stem, tail, n - 1);
        let r = refs[n - 1];
        if r.1 == cw {
            prev + edits_in_sections(secs, r.0, cw, stem, tail, secs.len() as int)
        } else {
            prev
        }
    }
}

pub open spec fn edits_view(v: Seq<(u32, u32, bool, String)>) -> Seq<(u32, u32, bool)> {
    v.map_values(|e: (u32, u32, bool, String)| (e.0, e.1, e.2))
}

fn push_columns(
    out: &mut Vec<(u32, u32, bool, String)>,
    refs: &Vec<ImageRef>,
    stem: &String,
    keys: u32,
    is_d: bool,
    new_stem: &String,
)
    ensures
        edits_view(final(out)@) == edits_view(old(out)@) + columns_naming(refs_view(refs@), stem@).map_values(
            |c: u32| (keys, c, is_d),
        ),
        forall|i: int| 0 <= i < final(out)@.len() ==> (i < old(out)@.len() ==> #[trigger] final(out)@[i] == old(out)@[i])
            && (i >= old(out)@.len() ==> final(out)@[i].3@ == new_stem@),
{
    let ghost o = out@;
    let ghost rv = refs_view(refs@);
    let mut j: usize = 0;
    assert(rv.take(0) == Seq::<RefSpec>::empty());
    assert(edits_view(out@) =~= edits_view(o) + columns_naming(rv.take(0), stem@).map_values(|c: u32| (keys, c, is_d)));
    while j < refs.len()
        invariant
            j <= refs@.len(),
            rv == refs_view(refs@),
            o.len() <= out@.len(),
            edits_view(out@) == edits_view(o) + columns_naming(rv.take(j as int), stem@).map_values(|c: u32| (keys, c, is_d)),
            forall|i: int| 0 <= i < out@.len() ==> (i < o.len() ==> #[trigger] out@[i] == o[i]) && (i >= o.len() ==> out@[i].3@ == new_stem@),
        decreases refs@.len() - j,
    {
        assert(rv.take(j + 1).drop_last() == rv.take(j as int));
        assert(rv.take(j + 1).last() == rv[j as int]);
        let ghost before = out@;
        if refs[j].name == *stem {
            out.push((keys, refs[j].column, is_d, new_stem.clone()));
            assert(edits_view(out@) =~= edits_view(before).push((keys, refs@[j as int].column, is_d)));
        }
        assert(edits_view(out@) =~= edits_view(o) + columns_naming(rv.take(j + 1), stem@).map_values(|c: u32| (keys, c, is_d)));
        j += 1;
    }
    assert(rv.take(refs@.len() as int) == rv);
}

/// The skin.ini edits that make the sections using `stem` at column width `cw` point to
/// `new_stem`, as `(keys, column, is_d, new_stem)`: `NoteImage#L` entries for tails,
/// `KeyImage#D` then `KeyImage#` entries for keys.
pub fn copy_patches(
    refs: &[(u32, u32)],
    sections: &[ManiaSection],
    stem: &String,
    cw: u32,
    new_stem: &String,
    tail: bool,
) -> (out: Vec<(u32, u32, bool, String)>)
    ensures
        edits_view(out@) == copy_edits(refs@, sections_view(sections@), cw, stem@, tail, refs@.len() as int),
        forall|i: int| 0 <= i < out@.len() ==> #[trigger] out@[i].3@ == new_stem@,
{
    let ghost secs = sections_view(sections@);
    let mut out: Vec<(u32, u32, bool, String)> = Vec::new();
    let mut i: usize = 0;
    while i < refs.len()
        invariant
            i <= refs@.len(),
            secs == sections_view(sections@),
            edits_view(out@) == copy_edits(refs@, secs, cw, stem@, tail, i as int),
            forall|k: int| 0 <= k < out@.len() ==> #[trigger] out@[k].3@ == new_stem@,
        decreases refs@.len() - i,
    {
        let (keys_k, c) = refs[i];
        if c == cw {
            let ghost base = edits_view(out@);
            let mut s: usize = 0;
            while s < sections.len()
                invariant
                    s <= sections@.len(),
                    secs == sections_view(sections@),
                    edits_view(out@) == base + edits_in_sections(secs, keys_k, cw, stem@, tail, s as int),
                    forall|k: int| 0 <= k < out@.len() ==> #[trigger] out@[k].3@ == new_stem@,
                decreases sections@.len() - s,
            {
                let sec = &sections[s];
                assert(secs[s as int] == sec@);
                if sec.keys == keys_k && sec.column_width == cw {
                    let ghost mid = edits_view(out@);
                    if tail {
                        push_columns(&mut out, &sec.note_image_ls, stem, keys_k, false, new_stem);
                        assert(columns_naming(refs_view(sec.note_image_ls@), stem@).map_values(|c: u32| (keys_k, c, false))
                            =~= copy_targets(sec@, stem@, tail).map_values(|t: (u32, bool)| (keys_k, t.0, t.1)));
                    } else {
                        push_columns(&mut out, &sec.key_image_ds, stem, keys_k, true, new_stem);
                        push_columns(&mut out, &sec.key_images, stem, keys_k, false, new_stem);
                        assert(columns_naming(refs_view(sec.key_image_ds@), stem@).map_values(|c: u32| (keys_k, c, true))
                            + columns_naming(refs_view(sec.key_images@), stem@).map_values(|c: u32| (keys_k, c, false))
                            =~= copy_targets(sec@, stem@, tail).map_values(|t: (u32, bool)| (keys_k, t.0, t.1)));
                    }
                    assert(edits_view(out@) =~= base + edits_in_sections(secs, keys_k, cw, stem@, tail, s + 1));
                }
                s += 1;
            }
        }
        i += 1;
    }
    out
}


/// The `KeyImage#D` (`d`) or `KeyImage#` references of a section.
pub open spec fn key_refs(sec: SectionSpec, d: bool) -> Seq<RefSpec> {
    if d { sec.key_image_ds } else { sec.key_images }
}

/// Some section refers to `stem` as `KeyImage#D` (`d`) or as `KeyImage#` (not `d`).
pub open spec fn used_as(secs: Seq<SectionSpec>, stem: Seq<char>, d: bool) -> bool {
    exists|i: int, j: int|
        0 <= i < secs.len() && 0 <= j < key_refs(secs[i], d).len()
            && (#[trigger] key_refs(secs[i], d)[j]).name == stem
}

/// Which kinds a repair mode covers: `(KeyImage#D, KeyImage#)`.
pub open spec fn mode_kinds(mode: Seq<char>) -> (bool, bool) {
    (mode == "keyd"@ || mode == "all"@, mode == "key"@ || mode == "all"@)
}

/// A key stem is repaired in `mode`: every stem when both kinds are covered, else the
/// stems used as a covered kind.
pub open spec fn selected_for_mode(secs: Seq<SectionSpec>, mode: Seq<char>, stem: Seq<char>) -> bool {
    let (d, k) = mode_kinds(mode);
    (d && k) || (d && used_as(secs, stem, true)) || (k && used_as(secs, stem, false))
}

/// The groups of `g` whose stem satisfies `keep`, in order.
pub open spec fn kept(g: Seq<(Seq<char>, Seq<(u32, u32)>)>, keep: spec_fn(Seq<char>) -> bool) -> Seq<(Seq<char>, Seq<(u32, u32)>)>
    decreases g.len(),
{
    if g.len() == 0 {
        seq![]
    } else {
        let r = kept(g.drop_last(), keep);
        if keep(g.last().0) { r.push(g.last()) } else { r }
    }
}

fn used_as_exec(sections: &[ManiaSection], stem: &String, d: bool) -> (b: bool)
    ensures
        b == used_as(sections_view(sections@), stem@, d),
{
    let ghost secs = sections_view(sections@);
    let mut i: usize = 0;
    while i < sections.len()
        invariant
            i <= sections@.len(),
            secs == sections_view(sections@),
            forall|a: int, j: int|
                0 <= a < i && 0 <= j < key_refs(secs[a], d).len()
                    ==> (#[trigger] key_refs(secs[a], d)[j]).name != stem@,
        decreases sections@.len() - i,
    {
        let refs = if d { &sections[i].key_image_ds } else { &sections[i].key_images };
        assert(secs[i as int] == sections@[i as int]@);
        let mut j: usize = 0;
        while j < refs.len()
            invariant
                i < sections@.len(),
                secs == sections_view(sections@),
                secs[i as int] == sections@[i as int]@,
                refs@ == (if d { sections@[i as int].key_image_ds@ } else { sections@[i as int].key_images@ }),
                j <= refs@.len(),
                forall|a: int, jj: int|
                    0 <= a < i && 0 <= jj < key_refs(secs[a], d).len()
                        ==> (#[trigger] key_refs(secs[a], d)[jj]).name != stem@,
                forall|jj: int| 0 <= jj < j ==> (#[trigger] refs@[jj]).name@ != stem@,
            decreases refs@.len() - j,
        {
            if refs[j].name == *stem {
                assert(key_refs(secs[i as int], d)[j as int].name == stem@);
                return true;
            }
            j += 1;
        }
        assert forall|jj: int| 0 <= jj < key_refs(secs[i as int], d).len()
            implies (#[trigger] key_refs(secs[i as int], d)[jj]).name != stem@ by {
            assert(key_refs(secs[i as int], d)[jj] == refs@[jj]@);
        }
        i += 1;
    }
    false
}

fn clone_group(g: &StemGroup) -> (r: StemGroup)
    ensures
        r.0@ == g.0@,
        r.1@ == g.1@,
{
    let mut pairs: Vec<(u32, u32)> = Vec::new();
    let mut i: usize = 0;
    while i < g.1.len()
        invariant
            i <= g.1@.len(),
            pairs@ == g.1@.take(i as int),
        decreases g.1@.len() - i,
    {
        pairs.push(g.1[i]);
        assert(pairs@ =~= g.1@.take(i + 1));
        i += 1;
    }
    assert(g.1@.take(g.1@.len() as int) == g.1@);
    (g.0.clone(), pairs)
}

/// The key groups that a repair in `mode` (`"keyd"`, `"key"` or `"all"`) covers.
pub fn select_key_groups(groups: Vec<StemGroup>, sections: &[ManiaSection], mode: &str) -> (r: Vec<StemGroup>)
    ensures
        group_view(r@) == kept(
            group_view(groups@),
            |s: Seq<char>| selected_for_mode(sections_view(sections@), mode@, s),
        ),
{
    let include_d = str_equals(mode, "keyd") || str_equals(mode, "all");
    let include_key = str_equals(mode, "key") || str_equals(mode, "all");
    let ghost keep = |s: Seq<char>| selected_for_mode(sections_view(sections@), mode@, s);
    let ghost gv = group_view(groups@);
    let mut out: Vec<StemGroup> = Vec::new();
    let mut i: usize = 0;
    assert(gv.take(0) == Seq::<(Seq<char>, Seq<(u32, u32)>)>::empty());
    while i < groups.len()
        invariant
            i <= groups@.len(),
            gv == group_view(groups@),
            include_d == mode_kinds(mode@).0,
            include_key == mode_kinds(mode@).1,
            keep == (|s: Seq<char>| selected_for_mode(sections_view(sections@), mode@, s)),
            group_view(out@) == kept(gv.take(i as int), keep),
        decreases groups@.len() - i,
    {
        assert(gv.take(i + 1).drop_last() == gv.take(i as int));
        assert(gv.take(i + 1).last() == gv[i as int]);
        let stem = &groups[i].0;
        let take = (include_d && include_key) || (include_d && used_as_exec(sections, stem, true)) || (
        include_key && used_as_exec(sections, stem, false));
        assert(take == keep(gv[i as int].0));
        if take {
            let ghost before = out@;
            out.push(clone_group(&groups[i]));
            assert(group_view(out@) =~= group_view(before).push(gv[i as int]));
        }
        i += 1;
    }
    assert(gv.take(groups@.len() as int) == gv);
    out
}

/// The key groups whose stem is one of `stems`.
pub fn select_key_groups_by_stems(groups: Vec<StemGroup>, stems: &Vec<String>) -> (r: Vec<StemGroup>)
    ensures
        group_view(r@) == kept(group_view(groups@), |s: Seq<char>| strings_view(stems@).contains(s)),
{
    let ghost keep = |s: Seq<char>| strings_view(stems@).contains(s);
    let ghost gv = group_view(groups@);
    let mut out: Vec<StemGroup> = Vec::new();
    let mut i: usize = 0;
    assert(gv.take(0) == Seq::<(Seq<char>, Seq<(u32, u32)>)>::empty());
    while i < groups.len()
        invariant
            i <= groups@.len(),
            gv == group_view(groups@),
            keep == (|s: Seq<char>| strings_view(stems@).contains(s)),
            group_view(out@) == kept(gv.take(i as int), keep),
        decreases groups@.len() - i,
    {
        assert(gv.take(i + 1).drop_last() == gv.take(i as int));
        assert(gv.take(i + 1).last() == gv[i as int]);
        let mut found = false;
        let mut k: usize = 0;
        while k < stems.len()
            invariant
                k <= stems@.len(),
                i < groups@.len(),
                found <==> exists|m: int| 0 <= m < k && #[trigger] stems@[m]@ == groups@[i as int].0@,
            decreases stems@.len() - k,
        {
            if stems[k] == groups[i].0 {
                found = true;
            }
            k += 1;
        }
        assert(found == keep(gv[i as int].0)) by {
            if found {
                let m = choose|m: int| 0 <= m < stems@.len() && #[trigger] stems@[m]@ == groups@[i as int].0@;
                assert(strings_view(stems@)[m] == gv[i as int].0);
            }
            if keep(gv[i as int].0) {
                let m = choose|m: int| 0 <= m < strings_view(stems@).len() && strings_view(stems@)[m] == gv[i as int].0;
                assert(stems@[m]@ == groups@[i as int].0@);
            }
        }
        if found {
            let ghost before = out@;
            out.push(clone_group(&groups[i]));
            assert(group_view(out@) =~= group_view(before).push(gv[i as int]));
        }
        i += 1;
    }
    assert(gv.take(groups@.len() as int) == gv);
    out
}

} // verus!
