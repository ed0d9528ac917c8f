//! Listings of a skin's tail and key images, as the throw-length and repair views show them.
use vstd::prelude::*;

use crate::ini_patches::{sort_dedup, sorted_set};
use crate::lazer_plan::{columns_naming, key_refs, used_as};
use crate::skin_files::{find_image_file, image_candidates, joined_path};
use crate::skin_ini::{ImageRef, ManiaSection, RefSpec, SectionSpec, add_unique, refs_view, sections_view};
use crate::text::{lemma_lex_order, lex_lt, str_lt, strings_view};

verus! {

/// Throw length of one tail image of one key count.
#[derive(Debug, Clone)]
pub struct SkinThrowInfo {
    pub keys: u32,
    pub stem: String,
    pub column_width: u32,
    /// Throw length in the image as it is (stable).
    pub current_throw: u32,
    /// Throw length after the lazer repair.
    pub lazer_throw: u32,
    pub height: u32,
    pub valid: bool,
    pub is_2x: bool,
}

/// The key counts and columns that use a tail image.
#[derive(Debug, Clone)]
pub struct ImageKeyInfo {
    pub stem: String,
    pub image_path: String,
    pub used_by: Vec<KeyColumnEntry>,
}

/// The columns of one key count that use an image.
#[derive(Debug, Clone)]
pub struct KeyColumnEntry {
    pub keys: u32,
    pub columns: Vec<u32>,
}

/// The key counts for which a stem is a `KeyImage#` and a `KeyImage#D`.
#[derive(Debug, Clone)]
pub struct KeydStemInfo {
    pub stem: String,
    pub as_key: Vec<u32>,
    pub as_keyd: Vec<u32>,
}

/// Cached throw lengths of one image.
#[derive(Debug, Clone, Copy, PartialEq, Eq, Structural)]
pub struct ThrowCacheEntry {
    pub stable_throw: u32,
    pub lazer_throw: u32,
}


/// Some reference of `refs` names `stem`.
pub open spec fn names_contain(refs: Seq<RefSpec>, stem: Seq<char>) -> bool {
    exists|j: int| 0 <= j < refs.len() && (#[trigger] refs[j]).name == stem
}

/// The key counts, section by section among the first `n`, of the sections that refer to
/// `stem` as `KeyImage#D` (`d`) or `KeyImage#` (not `d`).
pub open spec fn keys_using(secs: Seq<SectionSpec>, stem: Seq<char>, d: bool, n: int) -> Seq<u32>
    decreases n,
{
    if n <= 0 {
        seq![]
    } else {
        let r = keys_using(secs, stem, d, n - 1);
        if names_contain(key_refs(secs[n - 1], d), stem) { r.push(secs[n - 1].keys) } else { r }
    }
}

/// `stem` is a key image (as `KeyImage#` or `KeyImage#D`) of some section.
pub open spec fn is_key_stem(secs: Seq<SectionSpec>, stem: Seq<char>) -> bool {
    used_as(secs, stem, true) || used_as(secs, stem, false)
}

/// Section `sec` refers to `stem` as a key image.
pub open spec fn uses_stem(sec: SectionSpec, stem: Seq<char>) -> bool {
    names_contain(key_refs(sec, true), stem) || names_contain(key_refs(sec, false), stem)
}

/// `stem` is a key image of one of the first `n` sections.
pub open spec fn key_stem_upto(secs: Seq<SectionSpec>, stem: Seq<char>, n: int) -> bool {
    exists|i: int| 0 <= i < n && #[trigger] uses_stem(secs[i], stem)
}

fn refs_name_stem(refs: &Vec<ImageRef>, stem: &String) -> (b: bool)
    ensures
        b == names_contain(refs_view(refs@), stem@),
{
    let mut j: usize = 0;
    while j < refs.len()
        invariant
            j <= refs@.len(),
            forall|k: int| 0 <= k < j ==> (#[trigger] refs@[k]).name@ != stem@,
        decreases refs@.len() - j,
    {
        if refs[j].name == *stem {
            assert(refs_view(refs@)[j as int].name == stem@);
            return true;
        }
        j += 1;
    }
    assert forall|k: int| 0 <= k < refs_view(refs@).len() implies (#[trigger] refs_view(refs@)[k]).name != stem@ by {
        assert(refs_view(refs@)[k] == refs@[k]@);
    }
    false
}

/// The key counts of the sections that refer to `stem` as `KeyImage#D` (`d`) or
/// `KeyImage#`, each once, ascending.
fn key_counts_using(sections: &[ManiaSection], stem: &String, d: bool) -> (r: Vec<u32>)
    ensures
        r@ == sorted_set(keys_using(sections_view(sections@), stem@, d, sections@.len() as int)),
{
    let ghost secs = sections_view(sections@);
    let mut keys: Vec<u32> = Vec::new();
    let mut i: usize = 0;
    while i < sections.len()
        invariant
            i <= sections@.len(),
            secs == sections_view(sections@),
            keys@ == keys_using(secs, stem@, d, i as int),
        decreases sections@.len() - i,
    {
        let refs = if d { &sections[i].key_image_ds } else { &sections[i].key_images };
        assert(secs[i as int] == sections@[i as int]@);
        assert(key_refs(secs[i as int], d) == refs_view(refs@));
        if refs_name_stem(refs, stem) {
            keys.push(sections[i].keys);
        }
        i += 1;
    }
    sort_dedup(&keys)
}

proof fn lemma_key_stem_all(secs: Seq<SectionSpec>, stem: Seq<char>)
    ensures
        key_stem_upto(secs, stem, secs.len() as int) <==> is_key_stem(secs, stem),
{
    if key_stem_upto(secs, stem, secs.len() as int) {
        let i = choose|i: int| 0 <= i < secs.len() && #[trigger] uses_stem(secs[i], stem);
        if names_contain(key_refs(secs[i], true), stem) {
            let j = choose|j: int| 0 <= j < key_refs(secs[i], true).len() && (#[trigger] key_refs(secs[i], true)[j]).name == stem;
            assert(used_as(secs, stem, true));
        } else {
            let j = choose|j: int| 0 <= j < key_refs(secs[i], false).len() && (#[trigger] key_refs(secs[i], false)[j]).name == stem;
            assert(used_as(secs, stem, false));
        }
    }
    if used_as(secs, stem, true) {
        let (i, j) = choose|i: int, j: int| 0 <= i < secs.len() && 0 <= j < key_refs(secs[i], true).len() && (#[trigger] key_refs(secs[i], true)[j]).name == stem;
        assert(names_contain(key_refs(secs[i], true), stem));
        assert(uses_stem(secs[i], stem));
    }
    if used_as(secs, stem, false) {
        let (i, j) = choose|i: int, j: int| 0 <= i < secs.len() && 0 <= j < key_refs(secs[i], false).len() && (#[trigger] key_refs(secs[i], false)[j]).name == stem;
        assert(names_contain(key_refs(secs[i], false), stem));
        assert(uses_stem(secs[i], stem));
    }
}

/// The listing is sorted by stem, holds each key stem once, and gives for each the key
/// counts that use it as `KeyImage#` and as `KeyImage#D`, ascending.
pub open spec fn keyd_listing(r: Seq<KeydStemInfo>, secs: Seq<SectionSpec>) -> bool {
    &&& forall|a: int, b: int| 0 <= a < b < r.len() ==> lex_lt(#[trigger] r[a].stem@, #[trigger] r[b].stem@)
    &&& forall|s: Seq<char>| (exists|a: int| 0 <= a < r.len() && #[trigger] r[a].stem@ == s) <==> is_key_stem(secs, s)
    &&& forall|a: int| 0 <= a < r.len() ==> (#[trigger] r[a]).as_key@ == sorted_set(keys_using(secs, r[a].stem@, false, secs.len() as int))
        && r[a].as_keyd@ == sorted_set(keys_using(secs, r[a].stem@, true, secs.len() as int))
}

/// Whether some entry of `out` has stem `stem`.
fn has_stem(out: &Vec<KeydStemInfo>, stem: &String) -> (b: bool)
    ensures
        b == exists|a: int| 0 <= a < out@.len() && #[trigger] out@[a].stem@ == stem@,
{
    let mut a: usize = 0;
    while a < out.len()
        invariant
            a <= out@.len(),
            forall|k: int| 0 <= k < a ==> (#[trigger] out@[k]).stem@ != stem@,
        decreases out@.len() - a,
    {
        if out[a].stem == *stem {
            return true;
        }
        a += 1;
    }
    false
}

/// Inserts `e` into `out`, sorted by stem, which does not hold `e`'s stem.
fn insert_keyd(out: &mut Vec<KeydStemInfo>, e: KeydStemInfo)
    requires
        forall|a: int, b: int| 0 <= a < b < old(out)@.len() ==> lex_lt(#[trigger] old(out)@[a].stem@, #[trigger] old(out)@[b].stem@),
        forall|k: int| 0 <= k < old(out)@.len() ==> (#[trigger] old(out)@[k]).stem@ != e.stem@,
    ensures
        forall|a: int, b: int| 0 <= a < b < final(out)@.len() ==> lex_lt(#[trigger] final(out)@[a].stem@, #[trigger] final(out)@[b].stem@),
        exists|p: int| 0 <= p <= old(out)@.len() && final(out)@ == old(out)@.insert(p, e),
{
    let mut p: usize = 0;
    while p < out.len() && str_lt(out[p].stem.as_str(), e.stem.as_str())
        invariant
            p <= out@.len(),
            out@ == old(out)@,
            forall|k: int| 0 <= k < p ==> lex_lt((#[trigger] out@[k]).stem@, e.stem@),
        decreases out@.len() - p,
    {
        p += 1;
    }
    let ghost o = out@;
    proof {
        if p < o.len() {
            lemma_lex_order(o[p as int].stem@, e.stem@, e.stem@);
            assert(lex_lt(e.stem@, o[p as int].stem@));
        }
    }
    let ghost es = e.stem@;
    out.insert(p, e);
    assert forall|a: int, b: int| 0 <= a < b < out@.len() implies lex_lt(#[trigger] out@[a].stem@, #[trigger] out@[b].stem@) by {
        if b < p {
        } else if a < p && b == p {
        } else if a < p {
            assert(out@[b] == o[b - 1]);
            lemma_lex_order(o[a].stem@, es, o[b - 1].stem@);
            if p < o.len() {
                lemma_lex_order(o[a].stem@, o[p as int].stem@, o[b - 1].stem@);
            }
        } else if a == p {
            assert(out@[b] == o[b - 1]);
            if b - 1 > p {
                lemma_lex_order(es, o[p as int].stem@, o[b - 1].stem@);
            }
        } else {
            assert(out@[a] == o[a - 1]);
            assert(out@[b] == o[b - 1]);
        }
    }
    assert(out@ == o.insert(p as int, out@[p as int]));
}


/// The entries of `r` are sorted by stem, each with its key counts from `secs`.
pub open spec fn keyd_entries_ok(r: Seq<KeydStemInfo>, secs: Seq<SectionSpec>) -> bool {
    &&& forall|a: int, b: int| 0 <= a < b < r.len() ==> lex_lt(#[trigger] r[a].stem@, #[trigger] r[b].stem@)
    &&& forall|a: int| 0 <= a < r.len() ==> (#[trigger] r[a]).as_key@ == sorted_set(keys_using(secs, r[a].stem@, false, secs.len() as int))
        && r[a].as_keyd@ == sorted_set(keys_using(secs, r[a].stem@, true, secs.len() as int))
}

/// `r` lists the stem `s`.
pub open spec fn lists(r: Seq<KeydStemInfo>, s: Seq<char>) -> bool {
    exists|a: int| 0 <= a < r.len() && #[trigger] r[a].stem@ == s
}

fn add_refs_to_listing(out: &mut Vec<KeydStemInfo>, refs: &Vec<ImageRef>, sections: &[ManiaSection])
    requires
        keyd_entries_ok(old(out)@, sections_view(sections@)),
    ensures
        keyd_entries_ok(final(out)@, sections_view(sections@)),
        forall|s: Seq<char>| #[trigger] lists(final(out)@, s) <==> (lists(old(out)@, s) || names_contain(refs_view(refs@), s)),
{
    let ghost secs = sections_view(sections@);
    let ghost o = out@;
    let mut j: usize = 0;
    while j < refs.len()
        invariant
            j <= refs@.len(),
            secs == sections_view(sections@),
            keyd_entries_ok(out@, secs),
            forall|s: Seq<char>| #[trigger] lists(out@, s) <==> (lists(o, s) || exists|k: int| 0 <= k < j && (#[trigger] refs@[k]).name@ == s),
        decreases refs@.len() - j,
    {
        let name = &refs[j].name;
        let ghost before = out@;
        if !has_stem(out, name) {
            let e = KeydStemInfo {
                stem: name.clone(),
                as_key: key_counts_using(sections, name, false),
                as_keyd: key_counts_using(sections, name, true),
            };
            let ghost ev = e;
            insert_keyd(out, e);
            let ghost p = choose|p: int| 0 <= p <= before.len() && out@ == before.insert(p, ev);
            assert forall|a: int| 0 <= a < out@.len() implies (#[trigger] out@[a]).as_key@ == sorted_set(keys_using(secs, out@[a].stem@, false, secs.len() as int))
                && out@[a].as_keyd@ == sorted_set(keys_using(secs, out@[a].stem@, true, secs.len() as int)) by {
                if a < p {
                    assert(out@[a] == before[a]);
                } else if a > p {
                    assert(out@[a] == before[a - 1]);
                }
            }
            assert forall|s: Seq<char>| #[trigger] lists(out@, s) <==> (lists(before, s) || s == name@) by {
                if lists(out@, s) {
                    let a = choose|a: int| 0 <= a < out@.len() && #[trigger] out@[a].stem@ == s;
                    if a < p {
                        assert(before[a].stem@ == s);
                    } else if a > p {
                        assert(before[a - 1].stem@ == s);
                    }
                }
                if lists(before, s) {
                    let a = choose|a: int| 0 <= a < before.len() && #[trigger] before[a].stem@ == s;
                    if a < p {
                        assert(out@[a].stem@ == s);
                    } else {
                        assert(out@[a + 1].stem@ == s);
                    }
                }
                if s == name@ {
                    assert(out@[p].stem@ == s);
                }
            }
        }
        assert forall|s: Seq<char>| #[trigger] lists(out@, s) <==> (lists(o, s) || exists|k: int| 0 <= k < j + 1 && (#[trigger] refs@[k]).name@ == s) by {
            if s == refs@[j as int].name@ {
                assert(0 <= j < j + 1 && refs@[j as int].name@ == s);
            }
            if exists|k: int| 0 <= k < j + 1 && (#[trigger] refs@[k]).name@ == s {
                let k = choose|k: int| 0 <= k < j + 1 && (#[trigger] refs@[k]).name@ == s;
                if k < j {
                    assert(exists|k2: int| 0 <= k2 < j && (#[trigger] refs@[k2]).name@ == s);
                }
            }
        }
        j += 1;
    }
    assert forall|s: Seq<char>| #[trigger] lists(out@, s) <==> (lists(o, s) || names_contain(refs_view(refs@), s)) by {
        if exists|k: int| 0 <= k < refs@.len() && (#[trigger] refs@[k]).name@ == s {
            let k = choose|k: int| 0 <= k < refs@.len() && (#[trigger] refs@[k]).name@ == s;
            assert(refs_view(refs@)[k].name == s);
        }
        if names_contain(refs_view(refs@), s) {
            let k = choose|k: int| 0 <= k < refs_view(refs@).len() && (#[trigger] refs_view(refs@)[k]).name == s;
            assert(refs@[k].name@ == s);
        }
    }
}

/// The key images of the sections: for each stem used as `KeyImage#` or `KeyImage#D`, in
/// order of stem, the key counts that use it each way.
pub fn get_keyd_list(sections: &[ManiaSection]) -> (r: Vec<KeydStemInfo>)
    ensures
        keyd_listing(r@, sections_view(sections@)),
{
    let ghost secs = sections_view(sections@);
    let mut out: Vec<KeydStemInfo> = Vec::new();
    let mut i: usize = 0;
    while i < sections.len()
        invariant
            i <= sections@.len(),
            secs == sections_view(sections@),
            keyd_entries_ok(out@, secs),
            forall|s: Seq<char>| #[trigger] lists(out@, s) <==> key_stem_upto(secs, s, i as int),
        decreases sections@.len() - i,
    {
        let ghost o = out@;
        add_refs_to_listing(&mut out, &sections[i].key_images, sections);
        add_refs_to_listing(&mut out, &sections[i].key_image_ds, sections);
        assert(secs[i as int] == sections@[i as int]@);
        assert forall|s: Seq<char>| #[trigger] lists(out@, s) <==> key_stem_upto(secs, s, i + 1) by {
            if key_stem_upto(secs, s, i + 1) {
                let k = choose|k: int| 0 <= k < i + 1 && #[trigger] uses_stem(secs[k], s);
                if k < i {
                    assert(key_stem_upto(secs, s, i as int));
                }
            }
            if key_stem_upto(secs, s, i as int) {
                let k = choose|k: int| 0 <= k < i && #[trigger] uses_stem(secs[k], s);
                assert(0 <= k < i + 1 && uses_stem(secs[k], s));
            }
            if uses_stem(secs[i as int], s) {
                assert(0 <= i < i + 1 && uses_stem(secs[i as int], s));
            }
        }
        i += 1;
    }
    assert forall|s: Seq<char>| (exists|a: int| 0 <= a < out@.len() && #[trigger] out@[a].stem@ == s) <==> is_key_stem(secs, s) by {
        lemma_key_stem_all(secs, s);
        assert(lists(out@, s) <==> key_stem_upto(secs, s, secs.len() as int));
    }
    out
}


/// The key counts, section by section among the first `n`, of the sections whose
/// `NoteImage#L` entries name `stem`.
pub open spec fn note_keys(secs: Seq<SectionSpec>, stem: Seq<char>, n: int) -> Seq<u32>
    decreases n,
{
    if n <= 0 {
        seq![]
    } else {
        let r = note_keys(secs, stem, n - 1);
        if names_contain(secs[n - 1].note_image_ls, stem) { r.push(secs[n - 1].keys) } else { r }
    }
}

/// The columns, in order, of the `NoteImage#L` entries naming `stem` in the first `n`
/// sections with key count `k`.
pub open spec fn note_cols(secs: Seq<SectionSpec>, stem: Seq<char>, k: u32, n: int) -> Seq<u32>
    decreases n,
{
    if n <= 0 {
        seq![]
    } else {
        let r = note_cols(secs, stem, k, n - 1);
        if secs[n - 1].keys == k { r + columns_naming(secs[n - 1].note_image_ls, stem) } else { r }
    }
}

/// `used_by` lists the key counts that use `stem`, ascending, each with its columns,
/// ascending and without repetition.
pub open spec fn used_by_ok(used_by: Seq<KeyColumnEntry>, secs: Seq<SectionSpec>, stem: Seq<char>) -> bool {
    let ks = sorted_set(note_keys(secs, stem, secs.len() as int));
    &&& used_by.len() == ks.len()
    &&& forall|a: int| 0 <= a < used_by.len() ==> (#[trigger] used_by[a]).keys == ks[a]
        && used_by[a].columns@ == sorted_set(note_cols(secs, stem, ks[a], secs.len() as int))
}

/// The image path of an entry: empty when no image file was found, else one of the
/// candidate paths of the stem in `dir`.
pub open spec fn image_path_ok(path: Seq<char>, dir: Seq<char>, stem: Seq<char>) -> bool {
    path == Seq::<char>::empty() || exists|k: int| 0 <= k < 7 && path == joined_path(dir, #[trigger] image_candidates(stem)[k])
}

fn columns_of_stem(refs: &Vec<ImageRef>, stem: &String) -> (r: Vec<u32>)
    ensures
        r@ == columns_naming(refs_view(refs@), stem@),
{
    let ghost rv = refs_view(refs@);
    let mut out: Vec<u32> = Vec::new();
    let mut j: usize = 0;
    assert(rv.take(0) == Seq::<RefSpec>::empty());
    while j < refs.len()
        invariant
            j <= refs@.len(),
            rv == refs_view(refs@),
            out@ == columns_naming(rv.take(j as int), stem@),
        decreases refs@.len() - j,
    {
        assert(rv.take(j + 1).drop_last() == rv.take(j as int));
        assert(rv.take(j + 1).last() == rv[j as int]);
        if refs[j].name == *stem {
            out.push(refs[j].column);
        }
        j += 1;
    }
    assert(rv.take(refs@.len() as int) == rv);
    out
}

/// The key counts and columns that use the tail `stem`.
fn used_by_of(sections: &[ManiaSection], stem: &String) -> (r: Vec<KeyColumnEntry>)
    ensures
        used_by_ok(r@, sections_view(sections@), stem@),
{
    let ghost secs = sections_view(sections@);
    let mut keys: Vec<u32> = Vec::new();
    let mut i: usize = 0;
    while i < sections.len()
        invariant
            i <= sections@.len(),
            secs == sections_view(sections@),
            keys@ == note_keys(secs, stem@, i as int),
        decreases sections@.len() - i,
    {
        assert(secs[i as int] == sections@[i as int]@);
        if refs_name_stem(&sections[i].note_image_ls, stem) {
            keys.push(sections[i].keys);
        }
        i += 1;
    }
    let ks = sort_dedup(&keys);
    let mut used: Vec<KeyColumnEntry> = Vec::new();
    let mut a: usize = 0;
    while a < ks.len()
        invariant
            a <= ks@.len(),
            secs == sections_view(sections@),
            ks@ == sorted_set(note_keys(secs, stem@, secs.len() as int)),
            used@.len() == a,
            forall|b: int| 0 <= b < a ==> (#[trigger] used@[b]).keys == ks@[b]
                && used@[b].columns@ == sorted_set(note_cols(secs, stem@, ks@[b], secs.len() as int)),
        decreases ks@.len() - a,
    {
        let k = ks[a];
        let mut cols: Vec<u32> = Vec::new();
        let mut s: usize = 0;
        while s < sections.len()
            invariant
                s <= sections@.len(),
                secs == sections_view(sections@),
                cols@ == note_cols(secs, stem@, k, s as int),
            decreases sections@.len() - s,
        {
            assert(secs[s as int] == sections@[s as int]@);
            if sections[s].keys == k {
                let c = columns_of_stem(&sections[s].note_image_ls, stem);
                let mut t: usize = 0;
                let ghost c0 = cols@;
                while t < c.len()
                    invariant
                        t <= c@.len(),
                        cols@ == c0 + c@.take(t as int),
                    decreases c@.len() - t,
                {
                    cols.push(c[t]);
                    assert(cols@ =~= c0 + c@.take(t + 1));
                    t += 1;
                }
                assert(c@.take(c@.len() as int) == c@);
            }
            s += 1;
        }
        let columns = sort_dedup(&cols);
        used.push(KeyColumnEntry { keys: k, columns });
        a += 1;
    }
    used
}

/// The tail listing is sorted by stem, holds each `NoteImage#L` stem once, each with its
/// image path and the key counts and columns that use it.
pub open spec fn image_key_listing(r: Seq<ImageKeyInfo>, secs: Seq<SectionSpec>, dir: Seq<char>) -> bool {
    &&& forall|a: int, b: int| 0 <= a < b < r.len() ==> lex_lt(#[trigger] r[a].stem@, #[trigger] r[b].stem@)
    &&& forall|s: Seq<char>| (exists|a: int| 0 <= a < r.len() && #[trigger] r[a].stem@ == s) <==> note_stem_upto(secs, s, secs.len() as int)
    &&& forall|a: int| 0 <= a < r.len() ==> used_by_ok((#[trigger] r[a]).used_by@, secs, r[a].stem@)
        && image_path_ok(r[a].image_path@, dir, r[a].stem@)
}

/// Some section among the first `n` names `stem` in a `NoteImage#L` entry.
pub open spec fn note_stem_upto(secs: Seq<SectionSpec>, stem: Seq<char>, n: int) -> bool {
    exists|i: int| 0 <= i < n && #[trigger] names_contain(secs[i].note_image_ls, stem)
}

/// `r` lists the stem `s`.
pub open spec fn lists_image(r: Seq<ImageKeyInfo>, s: Seq<char>) -> bool {
    exists|a: int| 0 <= a < r.len() && #[trigger] r[a].stem@ == s
}

pub open spec fn image_entries_ok(r: Seq<ImageKeyInfo>, secs: Seq<SectionSpec>, dir: Seq<char>) -> bool {
    &&& forall|a: int, b: int| 0 <= a < b < r.len() ==> lex_lt(#[trigger] r[a].stem@, #[trigger] r[b].stem@)
    &&& forall|a: int| 0 <= a < r.len() ==> used_by_ok((#[trigger] r[a]).used_by@, secs, r[a].stem@)
        && image_path_ok(r[a].image_path@, dir, r[a].stem@)
}

fn has_image_stem(out: &Vec<ImageKeyInfo>, stem: &String) -> (b: bool)
    ensures
        b == lists_image(out@, stem@),
{
    let mut a: usize = 0;
    while a < out.len()
        invariant
            a <= out@.len(),
            forall|k: int| 0 <= k < a ==> (#[trigger] out@[k]).stem@ != stem@,
        decreases out@.len() - a,
    {
        if out[a].stem == *stem {
            return true;
        }
        a += 1;
    }
    false
}

fn insert_image_info(out: &mut Vec<ImageKeyInfo>, e: ImageKeyInfo)
    requires
        forall|a: int, b: int| 0 <= a < b < old(out)@.len() ==> lex_lt(#[trigger] old(out)@[a].stem@, #[trigger] old(out)@[b].stem@),
        forall|k: int| 0 <= k < old(out)@.len() ==> (#[trigger] old(out)@[k]).stem@ != e.stem@,
    ensures
        forall|a: int, b: int| 0 <= a < b < final(out)@.len() ==> lex_lt(#[trigger] final(out)@[a].stem@, #[trigger] final(out)@[b].stem@),
        exists|p: int| 0 <= p <= old(out)@.len() && final(out)@ == old(out)@.insert(p, e),
{
    let mut p: usize = 0;
    while p < out.len() && str_lt(out[p].stem.as_str(), e.stem.as_str())
        invariant
            p <= out@.len(),
            out@ == old(out)@,
            forall|k: int| 0 <= k < p ==> lex_lt((#[trigger] out@[k]).stem@, e.stem@),
        decreases out@.len() - p,
    {
        p += 1;
    }
    let ghost o = out@;
    proof {
        if p < o.len() {
            lemma_lex_order(o[p as int].stem@, e.stem@, e.stem@);
        }
    }
    let ghost es = e.stem@;
    out.insert(p, e);
    assert forall|a: int, b: int| 0 <= a < b < out@.len() implies lex_lt(#[trigger] out@[a].stem@, #[trigger] out@[b].stem@) by {
        if b < p {
        } else if a < p && b == p {
        } else if a < p {
            assert(out@[b] == o[b - 1]);
            lemma_lex_order(o[a].stem@, es, o[b - 1].stem@);
            if p < o.len() {
                lemma_lex_order(o[a].stem@, o[p as int].stem@, o[b - 1].stem@);
            }
        } else if a == p {
            assert(out@[b] == o[b - 1]);
            if b - 1 > p {
                lemma_lex_order(es, o[p as int].stem@, o[b - 1].stem@);
            }
        } else {
            assert(out@[a] == o[a - 1]);
            assert(out@[b] == o[b - 1]);
        }
    }
    assert(out@ == o.insert(p as int, out@[p as int]));
}

/// The tails of the sections: for each `NoteImage#L` stem, in order of stem, its image
/// path in `skin_dir` (empty when none is found) and the key counts and columns that
/// use it.
pub fn get_image_key_info(skin_dir: &str, sections: &[ManiaSection]) -> (r: Vec<ImageKeyInfo>)
    ensures
        image_key_listing(r@, sections_view(sections@), skin_dir@),
{
    let ghost secs = sections_view(sections@);
    let mut out: Vec<ImageKeyInfo> = Vec::new();
    let mut i: usize = 0;
    while i < sections.len()
        invariant
            i <= sections@.len(),
            secs == sections_view(sections@),
            image_entries_ok(out@, secs, skin_dir@),
            forall|s: Seq<char>| #[trigger] lists_image(out@, s) <==> note_stem_upto(secs, s, i as int),
        decreases sections@.len() - i,
    {
        let refs = &sections[i].note_image_ls;
        assert(secs[i as int] == sections@[i as int]@);
        let ghost o = out@;
        let mut j: usize = 0;
        while j < refs.len()
            invariant
                i < sections@.len(),
                j <= refs@.len(),
                refs == &sections@[i as int].note_image_ls,
                secs == sections_view(sections@),
                image_entries_ok(out@, secs, skin_dir@),
                forall|s: Seq<char>| #[trigger] lists_image(out@, s) <==> (lists_image(o, s) || exists|k: int| 0 <= k < j && (#[trigger] refs@[k]).name@ == s),
            decreases refs@.len() - j,
        {
            let name = &refs[j].name;
            let ghost before = out@;
            if !has_image_stem(&out, name) {
                let image_path = match find_image_file(skin_dir, name.as_str()) {
                    Some(p) => p,
                    None => String::new(),
                };
                let e = ImageKeyInfo { stem: name.clone(), image_path, used_by: used_by_of(sections, name) };
                let ghost ev = e;
                insert_image_info(&mut out, e);
                let ghost p = choose|p: int| 0 <= p <= before.len() && out@ == before.insert(p, ev);
                assert forall|a: int| 0 <= a < out@.len() implies used_by_ok((#[trigger] out@[a]).used_by@, secs, out@[a].stem@)
                    && image_path_ok(out@[a].image_path@, skin_dir@, out@[a].stem@) by {
                    if a < p {
                        assert(out@[a] == before[a]);
                    } else if a > p {
                        assert(out@[a] == before[a - 1]);
                    }
                }
                assert forall|s: Seq<char>| #[trigger] lists_image(out@, s) <==> (lists_image(before, s) || s == name@) by {
                    if lists_image(out@, s) {
                        let a = choose|a: int| 0 <= a < out@.len() && #[trigger] out@[a].stem@ == s;
                        if a < p {
                            assert(before[a].stem@ == s);
                        } else if a > p {
                            assert(before[a - 1].stem@ == s);
                        }
                    }
                    if lists_image(before, s) {
                        let a = choose|a: int| 0 <= a < before.len() && #[trigger] before[a].stem@ == s;
                        if a < p {
                            assert(out@[a].stem@ == s);
                        } else {
                            assert(out@[a + 1].stem@ == s);
                        }
                    }
                    if s == name@ {
                        assert(out@[p].stem@ == s);
                    }
                }
            }
            assert forall|s: Seq<char>| #[trigger] lists_image(out@, s) <==> (lists_image(o, s) || exists|k: int| 0 <= k < j + 1 && (#[trigger] refs@[k]).name@ == s) by {
                if s == refs@[j as int].name@ {
                    assert(0 <= j < j + 1 && refs@[j as int].name@ == s);
                }
                if exists|k: int| 0 <= k < j + 1 && (#[trigger] refs@[k]).name@ == s {
                    let k = choose|k: int| 0 <= k < j + 1 && (#[trigger] refs@[k]).name@ == s;
                    if k < j {
                        assert(exists|k2: int| 0 <= k2 < j && (#[trigger] refs@[k2]).name@ == s);
                    }
                }
            }
            j += 1;
        }
        assert forall|s: Seq<char>| #[trigger] lists_image(out@, s) <==> note_stem_upto(secs, s, i + 1) by {
            let rv = refs_view(refs@);
            assert(secs[i as int].note_image_ls == rv);
            if exists|k: int| 0 <= k < refs@.len() && (#[trigger] refs@[k]).name@ == s {
                let k = choose|k: int| 0 <= k < refs@.len() && (#[trigger] refs@[k]).name@ == s;
                assert(rv[k].name == s);
                assert(names_contain(secs[i as int].note_image_ls, s));
            }
            if names_contain(secs[i as int].note_image_ls, s) {
                let k = choose|k: int| 0 <= k < rv.len() && (#[trigger] rv[k]).name == s;
                assert(refs@[k].name@ == s);
            }
            if note_stem_upto(secs, s, i + 1) {
                let k = choose|k: int| 0 <= k < i + 1 && #[trigger] names_contain(secs[k].note_image_ls, s);
                if k < i {
                    assert(note_stem_upto(secs, s, i as int));
                }
            }
            if note_stem_upto(secs, s, i as int) {
                let k = choose|k: int| 0 <= k < i && #[trigger] names_contain(secs[k].note_image_ls, s);
                assert(0 <= k < i + 1);
            }
        }
        i += 1;
    }
    assert forall|s: Seq<char>| (exists|a: int| 0 <= a < out@.len() && #[trigger] out@[a].stem@ == s) <==> note_stem_upto(secs, s, secs.len() as int) by {
        assert(lists_image(out@, s) <==> note_stem_upto(secs, s, secs.len() as int));
    }
    out
}


/// Some string of `v` is `y`.
pub open spec fn holds_text(v: Seq<String>, y: Seq<char>) -> bool {
    exists|a: int| 0 <= a < v.len() && #[trigger] v[a]@ == y
}

/// Some reference among the first `i` of `rv` names `y`.
pub open spec fn names_before(rv: Seq<RefSpec>, i: int, y: Seq<char>) -> bool {
    exists|k: int| 0 <= k < i && #[trigger] rv[k].name == y
}

/// The stems of the references, each once, in increasing order.
pub fn sorted_stems(refs: &Vec<ImageRef>) -> (r: Vec<String>)
    ensures
        forall|a: int, b: int| 0 <= a < b < r@.len() ==> lex_lt(#[trigger] r@[a]@, #[trigger] r@[b]@),
        forall|y: Seq<char>|
            #[trigger] holds_text(r@, y) <==> names_contain(refs_view(refs@), y),
{
    let ghost rv = refs_view(refs@);
    let mut out: Vec<String> = Vec::new();
    let mut i: usize = 0;
    while i < refs.len()
        invariant
            i <= refs@.len(),
            rv == refs_view(refs@),
            forall|a: int, b: int| 0 <= a < b < out@.len() ==> lex_lt(#[trigger] out@[a]@, #[trigger] out@[b]@),
            forall|y: Seq<char>| #[trigger] holds_text(out@, y) <==> names_before(rv, i as int, y),
        decreases refs@.len() - i,
    {
        let name = &refs[i].name;
        assert(rv[i as int].name == name@);
        let mut p: usize = 0;
        while p < out.len() && str_lt(out[p].as_str(), name.as_str())
            invariant
                p <= out@.len(),
                forall|k: int| 0 <= k < p ==> lex_lt((#[trigger] out@[k])@, name@),
            decreases out@.len() - p,
        {
            p += 1;
        }
        let ghost o = out@;
        if p < out.len() && out[p] == *name {
            assert forall|y: Seq<char>| #[trigger] holds_text(out@, y) <==> names_before(rv, i + 1, y) by {
                if y == name@ {
                    assert(out@[p as int]@ == y);
                    assert(rv[i as int].name == y);
                } else if names_before(rv, i + 1, y) {
                    let k = choose|k: int| 0 <= k < i + 1 && #[trigger] rv[k].name == y;
                    assert(k < i);
                    assert(names_before(rv, i as int, y));
                } else if holds_text(out@, y) {
                    assert(names_before(rv, i as int, y));
                    let k = choose|k: int| 0 <= k < i && #[trigger] rv[k].name == y;
                    assert(names_before(rv, i + 1, y));
                }
            }
        } else {
            proof {
                if p < o.len() {
                    lemma_lex_order(o[p as int]@, name@, name@);
                    assert(lex_lt(name@, o[p as int]@));
                }
            }
            let ghost nm = name@;
            out.insert(p, name.clone());
            assert(out@[p as int]@ == nm);
            assert forall|a: int, b: int| 0 <= a < b < out@.len() implies lex_lt(#[trigger] out@[a]@, #[trigger] out@[b]@) by {
                if b < p {
                    assert(out@[a] == o[a] && out@[b] == o[b]);
                } else if a < p && b == p {
                    assert(out@[a] == o[a]);
                } else if a < p {
                    assert(out@[a] == o[a]);
                    assert(out@[b] == o[b - 1]);
                    lemma_lex_order(o[a]@, nm, o[b - 1]@);
                    if p < o.len() {
                        lemma_lex_order(o[a]@, o[p as int]@, o[b - 1]@);
                    }
                } else if a == p {
                    assert(out@[b] == o[b - 1]);
                    if b - 1 > p {
                        lemma_lex_order(nm, o[p as int]@, o[b - 1]@);
                    }
                } else {
                    assert(out@[a] == o[a - 1]);
                    assert(out@[b] == o[b - 1]);
                }
            }
            assert forall|y: Seq<char>| #[trigger] holds_text(out@, y) <==> names_before(rv, i + 1, y) by {
                if holds_text(out@, y) {
                    let a = choose|a: int| 0 <= a < out@.len() && #[trigger] out@[a]@ == y;
                    if a < p {
                        assert(out@[a] == o[a]);
                        assert(holds_text(o, y));
                        let k = choose|k: int| 0 <= k < i && #[trigger] rv[k].name == y;
                    } else if a == p {
                        assert(rv[i as int].name == y);
                    } else {
                        assert(out@[a] == o[a - 1]);
                        assert(holds_text(o, y));
                        let k = choose|k: int| 0 <= k < i && #[trigger] rv[k].name == y;
                    }
                }
                if names_before(rv, i + 1, y) {
                    let k = choose|k: int| 0 <= k < i + 1 && #[trigger] rv[k].name == y;
                    if k < i {
                        assert(names_before(rv, i as int, y));
                        assert(holds_text(o, y));
                        let a2 = choose|a2: int| 0 <= a2 < o.len() && #[trigger] o[a2]@ == y;
                        if a2 < p {
                            assert(out@[a2] == o[a2]);
                        } else {
                            assert(out@[a2 + 1] == o[a2]);
                        }
                    } else {
                        assert(out@[p as int]@ == y);
                    }
                }
            }
        }
        i += 1;
    }
    assert forall|y: Seq<char>| #[trigger] holds_text(out@, y) <==> names_contain(rv, y) by {
        if names_contain(rv, y) {
            let k = choose|k: int| 0 <= k < rv.len() && (#[trigger] rv[k]).name == y;
            assert(names_before(rv, rv.len() as int, y));
        }
        if names_before(rv, rv.len() as int, y) {
            let k = choose|k: int| 0 <= k < rv.len() && #[trigger] rv[k].name == y;
            assert(names_contain(rv, y));
        }
    }
    out
}


/// What was found of a tail image on disk.
#[derive(Debug, Clone, Copy)]
pub enum TailProbe {
    /// No image file for the stem.
    Missing,
    /// A file that could not be read as an image.
    Unreadable { is_2x: bool },
    /// A readable image: whether it is a valid tail and its height, its cached throws if
    /// any, and its measured throw (used when nothing is cached).
    Readable { is_2x: bool, valid: bool, height: u32, cached: Option<ThrowCacheEntry>, measured_throw: u32 },
}

/// The throw listing entry of `stem` for key count `keys`: zeros and invalid for a missing
/// or unreadable image (keeping `is_2x` for an unreadable one); else the section's column
/// width, the image's validity and height, the stable throw from the cache or measured, and
/// the cached lazer throw (0 when nothing is cached).
pub fn throw_info_entry(keys: u32, stem: String, column_width: u32, probe: TailProbe) -> (r: SkinThrowInfo)
    ensures
        r.keys == keys,
        r.stem@ == stem@,
        r.column_width == (if probe is Readable { column_width } else { 0 }),
        r.current_throw == (match probe {
            TailProbe::Readable { cached, measured_throw, .. } => match cached {
                Some(c) => c.stable_throw,
                None => measured_throw,
            },
            _ => 0,
        }),
        r.lazer_throw == (match probe {
            TailProbe::Readable { cached: Some(c), .. } => c.lazer_throw,
            _ => 0,
        }),
        r.height == (match probe {
            TailProbe::Readable { height, .. } => height,
            _ => 0,
        }),
        r.valid == (match probe {
            TailProbe::Readable { valid, .. } => valid,
            _ => false,
        }),
        r.is_2x == (match probe {
            TailProbe::Missing => false,
            TailProbe::Unreadable { is_2x } => is_2x,
            TailProbe::Readable { is_2x, .. } => is_2x,
        }),
{
    match probe {
        TailProbe::Missing => SkinThrowInfo {
            keys,
            stem,
            column_width: 0,
            current_throw: 0,
            lazer_throw: 0,
            height: 0,
            valid: false,
            is_2x: false,
        },
        TailProbe::Unreadable { is_2x } => SkinThrowInfo {
            keys,
            stem,
            column_width: 0,
            current_throw: 0,
            lazer_throw: 0,
            height: 0,
            valid: false,
            is_2x,
        },
        TailProbe::Readable { is_2x, valid, height, cached, measured_throw } => {
            let (current_throw, lazer_throw) = match cached {
                Some(c) => (c.stable_throw, c.lazer_throw),
                None => (measured_throw, 0),
            };
            SkinThrowInfo { keys, stem, column_width, current_throw, lazer_throw, height, valid, is_2x }
        },
    }
}

/// The cache entry to record after probing: the measured stable throw with no lazer throw
/// yet, for a readable image with nothing cached; none otherwise.
pub fn fresh_cache_entry(probe: &TailProbe) -> (r: Option<ThrowCacheEntry>)
    ensures
        r == (match *probe {
            TailProbe::Readable { cached: None, measured_throw, .. } => Some(
                ThrowCacheEntry { stable_throw: measured_throw, lazer_throw: 0 },
            ),
            _ => None,
        }),
{
    match probe {
        TailProbe::Readable { cached: None, measured_throw, .. } => Some(
            ThrowCacheEntry { stable_throw: *measured_throw, lazer_throw: 0 },
        ),
        _ => None,
    }
}

} // verus!
