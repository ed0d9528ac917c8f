//! Looking up the image files that a skin.ini refers to.
use vstd::prelude::*;

use crate::skin_ini::{ImageRef, ManiaSection, RefKind, RefSpec, SectionSpec, SkinIni, refs_of, refs_view, sections_view};
use crate::skin_ini::{mania_sections, parse_mania_sections, sections_scan_is_safe, sections_scan_panics};
use crate::text::{decimal, lines, push_decimal, push_str, split_lines, strings_view};

verus! {

/// The path `dir` joined with `name` (`Path::join`), as text.
pub uninterp spec fn joined_path(dir: Seq<char>, name: Seq<char>) -> Seq<char>;

/// Joins `name` onto `dir` with `std::path::Path::join`.
///
/// Trusted: the result is the text of `Path::new(dir).join(name)`; the contract names it
/// `joined_path(dir, name)` and says nothing more (whether `name` replaces `dir` when it is
/// absolute, and which separator is used, is left to the platform's `Path`).
#[verifier::external_body]
pub(crate) fn path_join(dir: &str, name: &str) -> (p: String)
    ensures
        p@ == joined_path(dir@, name@),
{
    std::path::Path::new(dir).join(name).to_string_lossy().into_owned()
}

/// Whether something exists at path `p` (`Path::exists`).
///
/// Trusted to return: the answer depends on the file system, so nothing is stated of it.
#[verifier::external_body]
pub(crate) fn path_exists(p: &str) -> bool {
    std::path::Path::new(p).exists()
}

/// What [`search_directory`] answers once it knows whether `dir/filename` exists:
/// `dir` when it does, nothing otherwise.
pub fn directory_if_found(dir: &str, found: bool) -> (r: Option<String>)
    ensures
        found ==> (r matches Some(d) && d@ == dir@),
        !found ==> r is None,
{
    if found {
        let mut d = String::new();
        push_str(&mut d, dir);
        Some(d)
    } else {
        None
    }
}

/// If `dir/filename` exists, `dir` (the directory that holds the file).
///
/// Whether the file exists is the file system's answer, which nothing here states; the
/// path asked about is `joined_path(dir, filename)`, and [`directory_if_found`] gives the
/// result for each answer.
pub fn search_directory(dir: &str, filename: &str) -> (r: Option<String>)
    ensures
        r matches Some(d) ==> d@ == dir@,
{
    let target = path_join(dir, filename);
    let found = path_exists(target.as_str());
    directory_if_found(dir, found)
}

/// Where `filename` is looked for near `base_dir`, in order: the parent of `base_dir`
/// (when it has one), then `base_dir` itself.
pub open spec fn root_candidates(base_dir: Seq<char>) -> Seq<Seq<char>> {
    match parent_of(base_dir) {
        Some(p) => seq![p, base_dir],
        None => seq![base_dir],
    }
}

/// The first of [`root_candidates`] of `base_dir` that holds `filename`, if any.
///
/// Which directories hold the file is the file system's answer; the directories asked
/// about are the candidates, each joined with `filename`, and [`first_found`] gives the
/// result for the answers.
pub fn find_root_near(base_dir: &str, filename: &str) -> (r: Option<String>)
    ensures
        r matches Some(d) ==> root_candidates(base_dir@).contains(d@),
{
    let mut dirs: Vec<String> = Vec::new();
    match path_parent(base_dir) {
        Some(p) => dirs.push(p),
        None => {},
    }
    let mut b = String::new();
    push_str(&mut b, base_dir);
    dirs.push(b);
    assert(strings_view(dirs@) =~= root_candidates(base_dir@));
    let mut found: Vec<bool> = Vec::new();
    let mut hit = false;
    let mut i: usize = 0;
    while i < dirs.len() && !hit
        invariant
            i <= dirs@.len(),
            found@.len() == i,
        decreases dirs@.len() - i,
    {
        let target = path_join(dirs[i].as_str(), filename);
        hit = path_exists(target.as_str());
        found.push(hit);
        i += 1;
    }
    let r = first_found(&dirs, &found);
    proof {
        if r is Some {
            let k = choose|k: int|
                0 <= k < dirs@.len() && k < found@.len() && found@[k] && r->0@ == (#[trigger] dirs@[k])@
                    && forall|t: int| 0 <= t < k ==> !#[trigger] found@[t];
            assert(strings_view(dirs@)[k] == r->0@);
        }
    }
    r
}

/// The first of `paths` whose entry in `found` is `true`, if any (indices beyond either
/// sequence are not considered).
pub open spec fn first_found_index(found: Seq<bool>, n: int) -> int
    decreases n,
{
    if n <= 0 {
        -1
    } else if first_found_index(found, n - 1) >= 0 {
        first_found_index(found, n - 1)
    } else if found[n - 1] {
        n - 1
    } else {
        -1
    }
}

/// The first hit lies below `n`, its probe came back `true`, and every probe before it
/// (every probe below `n`, when there is no hit) came back `false`.
pub proof fn lemma_first_found_index(found: Seq<bool>, n: int)
    requires
        0 <= n,
    ensures
        -1 <= first_found_index(found, n) < n,
        first_found_index(found, n) >= 0 ==> found[first_found_index(found, n)],
        forall|t: int| 0 <= t < n && (t < first_found_index(found, n) || first_found_index(found, n) < 0) ==> !#[trigger] found[t],
    decreases n,
{
    if n > 0 {
        lemma_first_found_index(found, n - 1);
    }
}

/// The path whose probe came back `true` first: `paths[k]` for the least `k` below both
/// lengths with `found[k]`, or nothing when there is none.
pub fn first_found(paths: &Vec<String>, found: &Vec<bool>) -> (r: Option<String>)
    ensures
        ({
            let n = if paths@.len() < found@.len() { paths@.len() as int } else { found@.len() as int };
            let k = first_found_index(found@, n);
            &&& k < 0 ==> r is None
            &&& k >= 0 ==> (r matches Some(p) && p@ == paths@[k]@)
        }),
        match r {
            Some(p) => exists|k: int|
                0 <= k < paths@.len() && k < found@.len() && found@[k] && p@ == (#[trigger] paths@[k])@
                    && forall|t: int| 0 <= t < k ==> !#[trigger] found@[t],
            None => forall|t: int| 0 <= t < paths@.len() && t < found@.len() ==> !#[trigger] found@[t],
        },
{
    let n: usize = if paths.len() < found.len() { paths.len() } else { found.len() };
    let ghost nn = n as int;
    proof {
        lemma_first_found_index(found@, nn);
    }
    let mut i: usize = 0;
    while i < n
        invariant
            n == nn,
            nn == (if paths@.len() < found@.len() { paths@.len() as int } else { found@.len() as int }),
            nn <= paths@.len(),
            nn <= found@.len(),
            i <= n,
            forall|t: int| 0 <= t < i ==> !#[trigger] found@[t],
            -1 <= first_found_index(found@, nn) < nn,
            first_found_index(found@, nn) >= 0 ==> found@[first_found_index(found@, nn)],
            forall|t: int| 0 <= t < nn && (t < first_found_index(found@, nn) || first_found_index(found@, nn) < 0) ==> !#[trigger] found@[t],
        decreases n - i,
    {
        if found[i] {
            let mut p = String::new();
            push_str(&mut p, paths[i].as_str());
            assert(p@ =~= paths@[i as int]@);
            assert(first_found_index(found@, nn) == i as int);
            return Some(p);
        }
        i += 1;
    }
    assert(first_found_index(found@, nn) < 0);
    None
}

/// The file names tried for an image stem, in order: the stem itself (it may carry its
/// extension), then `@2x` with png, jpg and jpeg, then the plain extensions.
pub open spec fn image_candidates(stem: Seq<char>) -> Seq<Seq<char>> {
    seq![
        stem,
        stem + "@2x.png"@,
        stem + "@2x.jpg"@,
        stem + "@2x.jpeg"@,
        stem + ".png"@,
        stem + ".jpg"@,
        stem + ".jpeg"@,
    ]
}

/// The candidate file names for `stem` (see [`image_candidates`]).
pub fn image_file_candidates(stem: &str) -> (v: Vec<String>)
    ensures
        strings_view(v@) == image_candidates(stem@),
{
    let mut v: Vec<String> = Vec::new();
    let mut s0 = String::new();
    push_str(&mut s0, stem);
    v.push(s0);
    let mut s1 = String::new();
    push_str(&mut s1, stem);
    push_str(&mut s1, "@2x.png");
    v.push(s1);
    let mut s2 = String::new();
    push_str(&mut s2, stem);
    push_str(&mut s2, "@2x.jpg");
    v.push(s2);
    let mut s3 = String::new();
    push_str(&mut s3, stem);
    push_str(&mut s3, "@2x.jpeg");
    v.push(s3);
    let mut s4 = String::new();
    push_str(&mut s4, stem);
    push_str(&mut s4, ".png");
    v.push(s4);
    let mut s5 = String::new();
    push_str(&mut s5, stem);
    push_str(&mut s5, ".jpg");
    v.push(s5);
    let mut s6 = String::new();
    push_str(&mut s6, stem);
    push_str(&mut s6, ".jpeg");
    v.push(s6);
    assert(strings_view(v@) =~= image_candidates(stem@));
    v
}

/// The path of the image file for `stem` in `dir`: the first candidate name (see
/// [`image_candidates`]) that exists there, joined onto `dir`.
///
/// The candidates are probed in order until one exists; which exist is the file system's
/// answer, and [`first_found`] gives the result for the answers.
pub fn find_image_file(dir: &str, stem: &str) -> (r: Option<String>)
    ensures
        r matches Some(p) ==> exists|k: int|
            0 <= k < 7 && p@ == joined_path(dir@, #[trigger] image_candidates(stem@)[k]),
{
    let names = image_file_candidates(stem);
    assert(names@.len() == strings_view(names@).len());
    let mut paths: Vec<String> = Vec::new();
    let mut found: Vec<bool> = Vec::new();
    let mut i: usize = 0;
    let mut hit = false;
    while i < names.len() && !hit
        invariant
            i <= names@.len(),
            strings_view(names@) == image_candidates(stem@),
            names@.len() == 7,
            paths@.len() == i,
            found@.len() == i,
            forall|k: int| 0 <= k < i ==> (#[trigger] paths@[k])@ == joined_path(dir@, image_candidates(stem@)[k]),
        decreases names@.len() - i,
    {
        assert(names@[i as int]@ == image_candidates(stem@)[i as int]);
        let p = path_join(dir, names[i].as_str());
        hit = path_exists(p.as_str());
        paths.push(p);
        found.push(hit);
        i += 1;
    }
    let r = first_found(&paths, &found);
    proof {
        if r is Some {
            let k = choose|k: int|
                0 <= k < paths@.len() && k < found@.len() && found@[k] && r->0@ == (#[trigger] paths@[k])@
                    && forall|t: int| 0 <= t < k ==> !#[trigger] found@[t];
            assert(r->0@ == joined_path(dir@, image_candidates(stem@)[k]));
        }
    }
    r
}


/// Outcome of the search for the skin root (the directory of skin.ini).
#[derive(Debug, Clone)]
pub struct SkinRootResult {
    pub success: bool,
    pub message: String,
    pub path: Option<String>,
}

/// An image that skin.ini refers to but that is not on disk.
#[derive(Debug, Clone)]
pub struct MissingFile {
    /// The missing file's stem (without extension).
    pub stem: String,
    /// The directory that was searched.
    pub directory: String,
    /// The key counts of the sections that refer to it.
    pub keys: Vec<u32>,
    /// Which kind of reference: `NoteImage#L`, `KeyImage#D` or `KeyImage#`.
    pub image_type: String,
}

/// Mathematical model of a [`MissingFile`].
pub struct MissingSpec {
    pub stem: Seq<char>,
    pub directory: Seq<char>,
    pub keys: Seq<u32>,
    pub image_type: Seq<char>,
}

impl View for MissingFile {
    type V = MissingSpec;

    open spec fn view(&self) -> MissingSpec {
        MissingSpec {
            stem: self.stem@,
            directory: self.directory@,
            keys: self.keys@,
            image_type: self.image_type@,
        }
    }
}

pub open spec fn missing_view(v: Seq<MissingFile>) -> Seq<MissingSpec> {
    v.map_values(|m: MissingFile| m@)
}

/// Index of the entry for `(stem, ty)` in `ms`, or `ms.len()`.
pub open spec fn find_missing(ms: Seq<MissingSpec>, stem: Seq<char>, ty: Seq<char>) -> int
    decreases ms.len(),
{
    if ms.len() == 0 {
        0
    } else if ms[0].stem == stem && ms[0].image_type == ty {
        0
    } else {
        1 + find_missing(ms.drop_first(), stem, ty)
    }
}

/// `ms` after recording that `stem` of type `ty`, referred to by a `k`-key section, is
/// missing from `dir`: the key is added to the existing entry for `(stem, ty)` unless it
/// is there already; without such an entry a new one is appended.
pub open spec fn record_missing_spec(
    ms: Seq<MissingSpec>,
    stem: Seq<char>,
    dir: Seq<char>,
    k: u32,
    ty: Seq<char>,
) -> Seq<MissingSpec> {
    let i = find_missing(ms, stem, ty);
    if 0 <= i < ms.len() {
        if ms[i].keys.contains(k) {
            ms
        } else {
            ms.update(i, MissingSpec { keys: ms[i].keys.push(k), ..ms[i] })
        }
    } else {
        ms.push(MissingSpec { stem, directory: dir, keys: seq![k], image_type: ty })
    }
}

proof fn lemma_find_missing(ms: Seq<MissingSpec>, stem: Seq<char>, ty: Seq<char>)
    ensures
        0 <= find_missing(ms, stem, ty) <= ms.len(),
        find_missing(ms, stem, ty) < ms.len() ==> ms[find_missing(ms, stem, ty)].stem == stem
            && ms[find_missing(ms, stem, ty)].image_type == ty,
        forall|j: int| 0 <= j < find_missing(ms, stem, ty) ==> !(#[trigger] ms[j].stem == stem && ms[j].image_type == ty),
    decreases ms.len(),
{
    if ms.len() > 0 && !(ms[0].stem == stem && ms[0].image_type == ty) {
        lemma_find_missing(ms.drop_first(), stem, ty);
        assert forall|j: int| 0 <= j < find_missing(ms, stem, ty) implies !(#[trigger] ms[j].stem == stem && ms[j].image_type == ty) by {
            if j > 0 {
                assert(ms[j] == ms.drop_first()[j - 1]);
            }
        }
    }
}

/// Records a missing image in `missing` (see [`record_missing_spec`]).
pub fn record_missing(missing: &mut Vec<MissingFile>, stem: &str, dir: &str, keys: u32, img_type: &str)
    ensures
        missing_view(final(missing)@) == record_missing_spec(missing_view(old(missing)@), stem@, dir@, keys, img_type@),
{
    let ghost ms = missing_view(missing@);
    proof {
        lemma_find_missing(ms, stem@, img_type@);
    }
    let mut stem_s = String::new();
    push_str(&mut stem_s, stem);
    let mut type_s = String::new();
    push_str(&mut type_s, img_type);
    assert(stem_s@ =~= stem@);
    assert(type_s@ =~= img_type@);
    let mut i: usize = 0;
    while i < missing.len()
        invariant
            i <= missing@.len(),
            missing@ == old(missing)@,
            ms == missing_view(missing@),
            stem_s@ == stem@,
            type_s@ == img_type@,
            forall|j: int| 0 <= j < i ==> !(#[trigger] ms[j].stem == stem@ && ms[j].image_type == img_type@),
        decreases missing@.len() - i,
    {
        let same_stem = missing[i].stem == stem_s;
        let same_type = missing[i].image_type == type_s;
        assert(same_stem == (missing@[i as int].stem@ == stem@));
        assert(same_type == (missing@[i as int].image_type@ == img_type@));
        assert(ms[i as int] == missing@[i as int]@);
        if same_stem && same_type {
            assert(ms[i as int] == missing@[i as int]@);
            proof {
                lemma_find_missing(ms, stem@, img_type@);
                if find_missing(ms, stem@, img_type@) < i {
                    let f = find_missing(ms, stem@, img_type@);
                    assert(!(ms[f].stem == stem@ && ms[f].image_type == img_type@));
                }
                if find_missing(ms, stem@, img_type@) > i {
                    assert(!(ms[i as int].stem == stem@ && ms[i as int].image_type == img_type@));
                }
            }
            assert(find_missing(ms, stem@, img_type@) == i);
            let mut entry = missing.remove(i);
            let mut j: usize = 0;
            let mut present = false;
            while j < entry.keys.len()
                invariant
                    j <= entry.keys@.len(),
                    present <==> exists|t: int| 0 <= t < j && #[trigger] entry.keys@[t] == keys,
                decreases entry.keys@.len() - j,
            {
                if entry.keys[j] == keys {
                    present = true;
                }
                j += 1;
            }
            let ghost e0 = entry@;
            if !present {
                entry.keys.push(keys);
            }
            assert(present <==> e0.keys.contains(keys));
            missing.insert(i, entry);
            assert(missing_view(missing@) =~= record_missing_spec(ms, stem@, dir@, keys, img_type@));
            return;
        }
        assert(ms[i as int] == missing@[i as int]@);
        i += 1;
    }
    proof {
        lemma_find_missing(ms, stem@, img_type@);
        if find_missing(ms, stem@, img_type@) < ms.len() {
            let f = find_missing(ms, stem@, img_type@);
            assert(!(ms[f].stem == stem@ && ms[f].image_type == img_type@));
        }
    }
    assert(find_missing(ms, stem@, img_type@) == ms.len());
    let mut d = String::new();
    push_str(&mut d, dir);
    let mut ks: Vec<u32> = Vec::new();
    ks.push(keys);
    missing.push(MissingFile { stem: stem_s, directory: d, keys: ks, image_type: type_s });
    assert(missing_view(missing@) =~= ms.push(MissingSpec { stem: stem@, directory: dir@, keys: seq![keys], image_type: img_type@ }));
}

/// One probe of the validation: the stem looked for, the key count of the section that
/// refers to it, and the label of the kind of reference.
pub type Probe = (Seq<char>, u32, Seq<char>);

/// `ms` after the probe `c` in `dir`, when the file system answered `found`: unchanged
/// when an image file was found, the stem recorded as missing otherwise.
pub open spec fn after_probe(ms: Seq<MissingSpec>, c: Probe, dir: Seq<char>, found: bool) -> Seq<MissingSpec> {
    if found {
        ms
    } else {
        record_missing_spec(ms, c.0, dir, c.1, c.2)
    }
}

/// `ms` after the probes `cs` in order, `found[t]` being the answer to probe `t`.
pub open spec fn after_probes(ms: Seq<MissingSpec>, cs: Seq<Probe>, dir: Seq<char>, found: Seq<bool>) -> Seq<MissingSpec>
    decreases cs.len(),
{
    if cs.len() == 0 {
        ms
    } else {
        after_probe(after_probes(ms, cs.drop_last(), dir, found.drop_last()), cs.last(), dir, found.last())
    }
}

proof fn lemma_after_probes_concat(
    ms: Seq<MissingSpec>,
    a: Seq<Probe>,
    b: Seq<Probe>,
    dir: Seq<char>,
    fa: Seq<bool>,
    fb: Seq<bool>,
)
    requires
        fa.len() == a.len(),
        fb.len() == b.len(),
    ensures
        after_probes(ms, a + b, dir, fa + fb) == after_probes(after_probes(ms, a, dir, fa), b, dir, fb),
    decreases b.len(),
{
    if b.len() == 0 {
        assert(a + b =~= a);
        assert(fa + fb =~= fa);
    } else {
        lemma_after_probes_concat(ms, a, b.drop_last(), dir, fa, fb.drop_last());
        assert((a + b).drop_last() =~= a + b.drop_last());
        assert((fa + fb).drop_last() =~= fa + fb.drop_last());
    }
}

/// The probes for the references `refs` of one kind in a `keys`-key section.
pub open spec fn kind_probes(refs: Seq<RefSpec>, keys: u32, kind: RefKind) -> Seq<Probe> {
    refs.map_values(|r: RefSpec| (r.name, keys, kind_label(kind)))
}

/// The probes for one section: its `NoteImage#L`, then `KeyImage#D`, then `KeyImage#`
/// references.
pub open spec fn section_probes(s: SectionSpec) -> Seq<Probe> {
    kind_probes(s.note_image_ls, s.keys, RefKind::NoteL) + kind_probes(s.key_image_ds, s.keys, RefKind::KeyD)
        + kind_probes(s.key_images, s.keys, RefKind::Key)
}

/// The probes of the validation of `secs`, section by section.
pub open spec fn skin_probes(secs: Seq<SectionSpec>) -> Seq<Probe>
    decreases secs.len(),
{
    if secs.len() == 0 {
        seq![]
    } else {
        skin_probes(secs.drop_last()) + section_probes(secs.last())
    }
}

/// Probe `t` of `cs` concerns the stem and kind of `m`, and its file was not found.
pub open spec fn probe_witness(cs: Seq<Probe>, found: Seq<bool>, m: MissingSpec, t: int) -> bool {
    cs[t].0 == m.stem && cs[t].2 == m.image_type && !found[t]
}

/// `m` is the entry for the stem and kind of probe `c`, and lists its key count.
pub open spec fn holds_probe(m: MissingSpec, c: Probe) -> bool {
    m.stem == c.0 && m.image_type == c.2 && m.keys.contains(c.1)
}

/// Every entry of `ms` has a probe of `cs` behind it whose file was not found.
pub open spec fn all_witnessed(ms: Seq<MissingSpec>, cs: Seq<Probe>, f: Seq<bool>) -> bool {
    forall|a: int| 0 <= a < ms.len() ==> #[trigger] has_witness(cs, f, ms[a])
}

/// Some probe of `cs` concerns the stem and kind of `m`, and its file was not found.
pub open spec fn has_witness(cs: Seq<Probe>, f: Seq<bool>, m: MissingSpec) -> bool {
    exists|t: int| 0 <= t < cs.len() && #[trigger] probe_witness(cs, f, m, t)
}

/// `ms` has the entry for probe `c`.
pub open spec fn is_held(ms: Seq<MissingSpec>, c: Probe) -> bool {
    exists|a: int| 0 <= a < ms.len() && #[trigger] holds_probe(ms[a], c)
}

/// Every probe of `cs` whose file was not found has its entry in `ms`.
pub open spec fn all_held(ms: Seq<MissingSpec>, cs: Seq<Probe>, f: Seq<bool>) -> bool {
    forall|t: int| 0 <= t < cs.len() && !f[t] ==> #[trigger] is_held(ms, cs[t])
}

proof fn lemma_track_extend(prev: Seq<MissingSpec>, cs: Seq<Probe>, f: Seq<bool>, ms: Seq<MissingSpec>)
    requires
        cs.len() > 0,
        f.len() == cs.len(),
        all_witnessed(prev, cs.drop_last(), f.drop_last()),
        all_held(prev, cs.drop_last(), f.drop_last()),
        ms.len() >= prev.len(),
        forall|a: int| 0 <= a < prev.len() ==> (#[trigger] ms[a]).stem == prev[a].stem && ms[a].image_type == prev[a].image_type
            && forall|j: int| 0 <= j < prev[a].keys.len() ==> ms[a].keys.contains(#[trigger] prev[a].keys[j]),
        forall|a: int| prev.len() <= a < ms.len() ==> #[trigger] probe_witness(cs, f, ms[a], cs.len() - 1),
        !f.last() ==> is_held(ms, cs.last()),
    ensures
        all_witnessed(ms, cs, f),
        all_held(ms, cs, f),
{
    let cs0 = cs.drop_last();
    let f0 = f.drop_last();
    let n = cs.len() - 1;
    assert forall|a: int| 0 <= a < ms.len() implies #[trigger] has_witness(cs, f, ms[a]) by {
        if a < prev.len() {
            assert(has_witness(cs0, f0, prev[a]));
            let t0 = choose|t: int| 0 <= t < cs0.len() && #[trigger] probe_witness(cs0, f0, prev[a], t);
            assert(cs0[t0] == cs[t0] && f0[t0] == f[t0]);
            assert(probe_witness(cs, f, ms[a], t0));
        } else {
            assert(probe_witness(cs, f, ms[a], n));
        }
    }
    assert forall|t: int| 0 <= t < cs.len() && !f[t] implies #[trigger] is_held(ms, cs[t]) by {
        if t < n {
            assert(cs0[t] == cs[t] && f0[t] == f[t]);
            assert(is_held(prev, cs0[t]));
            let a0 = choose|a: int| 0 <= a < prev.len() && #[trigger] holds_probe(prev[a], cs0[t]);
            let j = choose|j: int| 0 <= j < prev[a0].keys.len() && prev[a0].keys[j] == cs0[t].1;
            assert(ms[a0].keys.contains(prev[a0].keys[j]));
            assert(holds_probe(ms[a0], cs[t]));
        } else {
            assert(cs[t] == cs.last());
        }
    }
    assert(all_witnessed(ms, cs, f));
    assert(all_held(ms, cs, f));
}

proof fn lemma_after_probes_track(cs: Seq<Probe>, dir: Seq<char>, f: Seq<bool>)
    requires
        f.len() == cs.len(),
    ensures
        all_witnessed(after_probes(seq![], cs, dir, f), cs, f),
        all_held(after_probes(seq![], cs, dir, f), cs, f),
    decreases cs.len(),
{
    if cs.len() > 0 {
        let cs0 = cs.drop_last();
        let f0 = f.drop_last();
        lemma_after_probes_track(cs0, dir, f0);
        let prev = after_probes(seq![], cs0, dir, f0);
        let c = cs.last();
        let ms = after_probes(seq![], cs, dir, f);
        assert(ms == after_probe(prev, c, dir, f.last()));
        if f.last() {
            assert(ms == prev);
            lemma_track_extend(prev, cs, f, ms);
        } else {
            lemma_find_missing(prev, c.0, c.2);
            let i = find_missing(prev, c.0, c.2);
            if i < prev.len() {
                if prev[i].keys.contains(c.1) {
                    assert(ms == prev);
                    assert(holds_probe(ms[i], c));
                } else {
                    let e = MissingSpec { keys: prev[i].keys.push(c.1), ..prev[i] };
                    assert(ms == prev.update(i, e));
                    assert(e.keys[prev[i].keys.len() as int] == c.1);
                    assert(holds_probe(ms[i], c));
                    assert forall|a: int| 0 <= a < prev.len() implies (#[trigger] ms[a]).stem == prev[a].stem && ms[a].image_type
                        == prev[a].image_type && forall|j: int| 0 <= j < prev[a].keys.len() ==> ms[a].keys.contains(#[trigger] prev[a].keys[j]) by {
                        if a == i {
                            assert forall|j: int| 0 <= j < prev[a].keys.len() implies ms[a].keys.contains(#[trigger] prev[a].keys[j]) by {
                                assert(e.keys[j] == prev[a].keys[j]);
                            }
                        } else {
                            assert(ms[a] == prev[a]);
                        }
                    }
                }
                lemma_track_extend(prev, cs, f, ms);
            } else {
                let e = MissingSpec { stem: c.0, directory: dir, keys: seq![c.1], image_type: c.2 };
                assert(ms == prev.push(e));
                assert(e.keys[0] == c.1);
                assert(holds_probe(ms[prev.len() as int], c));
                assert(probe_witness(cs, f, ms[prev.len() as int], cs.len() - 1));
                assert forall|a: int| 0 <= a < prev.len() implies (#[trigger] ms[a]).stem == prev[a].stem && ms[a].image_type
                    == prev[a].image_type && forall|j: int| 0 <= j < prev[a].keys.len() ==> ms[a].keys.contains(#[trigger] prev[a].keys[j]) by {
                    assert(ms[a] == prev[a]);
                    assert forall|j: int| 0 <= j < prev[a].keys.len() implies ms[a].keys.contains(#[trigger] prev[a].keys[j]) by {
                        assert(ms[a].keys[j] == prev[a].keys[j]);
                    }
                }
                lemma_track_extend(prev, cs, f, ms);
            }
        }
    }
}

/// `skin_probes(secs)` holds the probe `(n, k, ty)`.
pub open spec fn has_probe(secs: Seq<SectionSpec>, n: Seq<char>, k: u32, ty: Seq<char>) -> bool {
    exists|t: int| 0 <= t < skin_probes(secs).len() && #[trigger] skin_probes(secs)[t] == (n, k, ty)
}

proof fn lemma_section_probe_at(s: SectionSpec, kind: RefKind, j: int)
    requires
        !(kind is KeyAll),
        0 <= j < refs_of(s, kind).len(),
    ensures
        exists|u: int| 0 <= u < section_probes(s).len() && #[trigger] section_probes(s)[u] == (refs_of(s, kind)[j].name, s.keys, kind_label(kind)),
{
    let k1 = kind_probes(s.note_image_ls, s.keys, RefKind::NoteL);
    let k2 = kind_probes(s.key_image_ds, s.keys, RefKind::KeyD);
    let k3 = kind_probes(s.key_images, s.keys, RefKind::Key);
    let sp = section_probes(s);
    match kind {
        RefKind::NoteL => {
            assert(sp[j] == k1[j]);
        },
        RefKind::KeyD => {
            assert(sp[k1.len() + j] == k2[j]);
        },
        _ => {
            assert(sp[k1.len() + k2.len() + j] == k3[j]);
        },
    }
}

/// Every reference of the sections is probed.
proof fn lemma_refers_probed(secs: Seq<SectionSpec>, n: Seq<char>, ty: Seq<char>, k: u32)
    requires
        refers(secs, n, ty, k),
    ensures
        has_probe(secs, n, k, ty),
    decreases secs.len(),
{
    let (i, j, kind) = choose|i: int, j: int, kind: RefKind|
        #![trigger refs_of(secs[i], kind)[j], kind_label(kind)]
        !(kind is KeyAll) && kind_label(kind) == ty && 0 <= i < secs.len() && secs[i].keys == k && 0 <= j
            < refs_of(secs[i], kind).len() && refs_of(secs[i], kind)[j].name == n;
    let p0 = skin_probes(secs.drop_last());
    assert(skin_probes(secs) == p0 + section_probes(secs.last()));
    if i < secs.len() - 1 {
        assert(secs.drop_last()[i] == secs[i]);
        assert(refers(secs.drop_last(), n, ty, k)) by {
            assert(refs_of(secs.drop_last()[i], kind)[j] == refs_of(secs[i], kind)[j]);
            assert(kind_label(kind) == ty);
        }
        lemma_refers_probed(secs.drop_last(), n, ty, k);
        let t = choose|t: int| 0 <= t < p0.len() && #[trigger] p0[t] == (n, k, ty);
        assert(skin_probes(secs)[t] == (n, k, ty));
    } else {
        lemma_section_probe_at(secs.last(), kind, j);
        let sp = section_probes(secs.last());
        let u = choose|u: int| 0 <= u < sp.len() && #[trigger] sp[u] == (refs_of(secs.last(), kind)[j].name, secs.last().keys, kind_label(kind));
        assert(skin_probes(secs)[p0.len() + u] == (n, k, ty));
    }
}

/// Every probe is a reference of the sections.
proof fn lemma_probe_refers(secs: Seq<SectionSpec>, t: int)
    requires
        0 <= t < skin_probes(secs).len(),
    ensures
        refers(secs, skin_probes(secs)[t].0, skin_probes(secs)[t].2, skin_probes(secs)[t].1),
    decreases secs.len(),
{
    let p0 = skin_probes(secs.drop_last());
    let s = secs.last();
    let i = secs.len() - 1;
    assert(skin_probes(secs) == p0 + section_probes(s));
    let c = skin_probes(secs)[t];
    if t < p0.len() {
        lemma_probe_refers(secs.drop_last(), t);
        assert(p0[t] == c);
        let (i2, j2, kind2) = choose|i2: int, j2: int, kind2: RefKind|
            #![trigger refs_of(secs.drop_last()[i2], kind2)[j2], kind_label(kind2)]
            !(kind2 is KeyAll) && kind_label(kind2) == c.2 && 0 <= i2 < secs.drop_last().len() && secs.drop_last()[i2].keys == c.1 && 0 <= j2
                < refs_of(secs.drop_last()[i2], kind2).len() && refs_of(secs.drop_last()[i2], kind2)[j2].name == c.0;
        assert(secs.drop_last()[i2] == secs[i2]);
        assert(refs_of(secs[i2], kind2)[j2].name == c.0);
    } else {
        let u = t - p0.len();
        let k1 = kind_probes(s.note_image_ls, s.keys, RefKind::NoteL);
        let k2 = kind_probes(s.key_image_ds, s.keys, RefKind::KeyD);
        let k3 = kind_probes(s.key_images, s.keys, RefKind::Key);
        assert(section_probes(s)[u] == c);
        assert(secs[i] == s);
        if u < k1.len() {
            assert(c == k1[u]);
            assert(refs_of(secs[i], RefKind::NoteL)[u].name == c.0);
            assert(kind_label(RefKind::NoteL) == c.2);
        } else if u < k1.len() + k2.len() {
            assert(c == k2[u - k1.len()]);
            assert(refs_of(secs[i], RefKind::KeyD)[u - k1.len()].name == c.0);
            assert(kind_label(RefKind::KeyD) == c.2);
        } else {
            assert(c == k3[u - k1.len() - k2.len()]);
            assert(refs_of(secs[i], RefKind::Key)[u - k1.len() - k2.len()].name == c.0);
            assert(kind_label(RefKind::Key) == c.2);
        }
    }
}

proof fn lemma_after_probes_ok(secs: Seq<SectionSpec>, cs: Seq<Probe>, dir: Seq<char>, f: Seq<bool>)
    requires
        forall|t: int| 0 <= t < cs.len() ==> #[trigger] refers(secs, cs[t].0, cs[t].2, cs[t].1),
    ensures
        missing_ok(after_probes(seq![], cs, dir, f), secs, dir),
    decreases cs.len(),
{
    if cs.len() == 0 {
        assert(missing_ok(Seq::<MissingSpec>::empty(), secs, dir));
    } else {
        let cs0 = cs.drop_last();
        assert forall|t: int| 0 <= t < cs0.len() implies #[trigger] refers(secs, cs0[t].0, cs0[t].2, cs0[t].1) by {
            assert(cs0[t] == cs[t]);
            assert(refers(secs, cs[t].0, cs[t].2, cs[t].1));
        }
        lemma_after_probes_ok(secs, cs0, dir, f.drop_last());
        let prev = after_probes(seq![], cs0, dir, f.drop_last());
        let c = cs.last();
        assert(refers(secs, cs[cs.len() - 1].0, cs[cs.len() - 1].2, cs[cs.len() - 1].1));
        if !f.last() {
            lemma_record_keeps_ok(prev, secs, dir, c.0, c.1, c.2);
        }
    }
}

/// The list that validation makes when the file system answers alike for every probe of a
/// stem (`answer(stem)`: an image file was found): it has an entry for a stem and a kind
/// exactly when some section refers to the stem with that kind and no file was found for
/// it, one entry each, in the skin's directory; the entry's key counts, without
/// repetition, are exactly those of the sections that refer to the stem with that kind.
pub proof fn lemma_validation_consistent(
    secs: Seq<SectionSpec>,
    dir: Seq<char>,
    found: Seq<bool>,
    answer: spec_fn(Seq<char>) -> bool,
)
    requires
        found.len() == skin_probes(secs).len(),
        forall|t: int| 0 <= t < found.len() ==> found[t] == answer(#[trigger] skin_probes(secs)[t].0),
    ensures
        ({
            let ms = after_probes(seq![], skin_probes(secs), dir, found);
            &&& missing_ok(ms, secs, dir)
            &&& forall|a: int| #![trigger ms[a]] 0 <= a < ms.len() ==> !answer(ms[a].stem)
            &&& forall|n: Seq<char>, ty: Seq<char>, k: u32|
                #[trigger] refers(secs, n, ty, k) && !answer(n) ==> exists|a: int|
                    0 <= a < ms.len() && #[trigger] holds_probe(ms[a], (n, k, ty))
        }),
{
    let cs = skin_probes(secs);
    let ms = after_probes(seq![], cs, dir, found);
    assert forall|t: int| 0 <= t < cs.len() implies #[trigger] refers(secs, cs[t].0, cs[t].2, cs[t].1) by {
        lemma_probe_refers(secs, t);
    }
    lemma_after_probes_ok(secs, cs, dir, found);
    lemma_after_probes_track(cs, dir, found);
    assert forall|a: int| #![trigger ms[a]] 0 <= a < ms.len() implies !answer(ms[a].stem) by {
        assert(has_witness(cs, found, ms[a]));
        let t = choose|t: int| 0 <= t < cs.len() && #[trigger] probe_witness(cs, found, ms[a], t);
        assert(found[t] == answer(cs[t].0));
    }
    assert forall|n: Seq<char>, ty: Seq<char>, k: u32|
        #[trigger] refers(secs, n, ty, k) && !answer(n) implies exists|a: int|
            0 <= a < ms.len() && #[trigger] holds_probe(ms[a], (n, k, ty)) by {
        lemma_refers_probed(secs, n, ty, k);
        let t = choose|t: int| 0 <= t < cs.len() && #[trigger] cs[t] == (n, k, ty);
        assert(found[t] == answer(cs[t].0));
        assert(is_held(ms, cs[t]));
    }
}

/// Records `stem` as missing in `missing` unless the file system `found` an image file for
/// it (see [`after_probe`]).
pub fn record_if_missing(missing: &mut Vec<MissingFile>, found: bool, stem: &str, dir: &str, keys: u32, img_type: &str)
    ensures
        missing_view(final(missing)@) == after_probe(missing_view(old(missing)@), (stem@, keys, img_type@), dir@, found),
{
    if !found {
        record_missing(missing, stem, dir, keys, img_type);
    }
}

/// Records `stem` as missing unless an image file for it exists in `dir`.
///
/// Whether one exists is the file system's answer (through [`find_image_file`]);
/// [`record_if_missing`] gives the outcome for each answer.
pub fn check(missing: &mut Vec<MissingFile>, stem: &str, dir: &str, keys: u32, img_type: &str)
    ensures
        exists|found: bool|
            missing_view(final(missing)@) == #[trigger] after_probe(missing_view(old(missing)@), (stem@, keys, img_type@), dir@, found),
{
    let found = find_image_file(dir, stem).is_some();
    record_if_missing(missing, found, stem, dir, keys, img_type);
}


/// The label that [`MissingFile::image_type`] uses for a kind of reference.
pub open spec fn kind_label(kind: RefKind) -> Seq<char> {
    match kind {
        RefKind::NoteL => "NoteImage#L"@,
        RefKind::KeyD => "KeyImage#D"@,
        _ => "KeyImage#"@,
    }
}

/// Some `k`-key section refers to `stem` with a reference of the kind labelled `ty`.
pub open spec fn refers(secs: Seq<SectionSpec>, stem: Seq<char>, ty: Seq<char>, k: u32) -> bool {
    exists|i: int, j: int, kind: RefKind|
        #![trigger refs_of(secs[i], kind)[j], kind_label(kind)]
        !(kind is KeyAll) && kind_label(kind) == ty && 0 <= i < secs.len() && secs[i].keys == k && 0 <= j
            < refs_of(secs[i], kind).len() && refs_of(secs[i], kind)[j].name == stem
}

/// What holds of every list of missing files that [`validate_skin_files`] returns:
/// each entry lies in `dir`, names keys of sections that refer to its stem with its
/// kind, without repetition, and no two entries share stem and kind.
pub open spec fn missing_ok(ms: Seq<MissingSpec>, secs: Seq<SectionSpec>, dir: Seq<char>) -> bool {
    &&& forall|a: int| 0 <= a < ms.len() ==> (#[trigger] ms[a]).directory == dir && ms[a].keys.len() > 0
    &&& forall|a: int, t: int|
        0 <= a < ms.len() && 0 <= t < ms[a].keys.len() ==> refers(secs, ms[a].stem, ms[a].image_type, #[trigger] ms[a].keys[t])
    &&& forall|a: int, t: int, u: int|
        0 <= a < ms.len() && 0 <= t < u < ms[a].keys.len() ==> #[trigger] ms[a].keys[t] != #[trigger] ms[a].keys[u]
    &&& forall|a: int, b: int|
        0 <= a < b < ms.len() ==> !(#[trigger] ms[a].stem == #[trigger] ms[b].stem && ms[a].image_type == ms[b].image_type)
}

proof fn lemma_record_keeps_ok(
    ms: Seq<MissingSpec>,
    secs: Seq<SectionSpec>,
    dir: Seq<char>,
    stem: Seq<char>,
    k: u32,
    ty: Seq<char>,
)
    requires
        missing_ok(ms, secs, dir),
        refers(secs, stem, ty, k),
    ensures
        missing_ok(record_missing_spec(ms, stem, dir, k, ty), secs, dir),
{
    lemma_find_missing(ms, stem, ty);
    let i = find_missing(ms, stem, ty);
    let r = record_missing_spec(ms, stem, dir, k, ty);
    if i < ms.len() {
        if !ms[i].keys.contains(k) {
            let e = MissingSpec { keys: ms[i].keys.push(k), ..ms[i] };
            assert(r == ms.update(i, e));
            assert forall|a: int, t: int|
                0 <= a < r.len() && 0 <= t < r[a].keys.len() implies refers(secs, r[a].stem, r[a].image_type, #[trigger] r[a].keys[t]) by {
                if a == i && t == ms[i].keys.len() {
                } else if a == i {
                    assert(r[a].keys[t] == ms[a].keys[t]);
                } else {
                    assert(r[a] == ms[a]);
                }
            }
            assert forall|a: int, t: int, u: int|
                0 <= a < r.len() && 0 <= t < u < r[a].keys.len() implies #[trigger] r[a].keys[t] != #[trigger] r[a].keys[u] by {
                if a == i {
                    if u == ms[i].keys.len() {
                        assert(r[a].keys[t] == ms[i].keys[t]);
                    } else {
                        assert(r[a].keys[t] == ms[a].keys[t]);
                        assert(r[a].keys[u] == ms[a].keys[u]);
                    }
                } else {
                    assert(r[a] == ms[a]);
                }
            }
            assert forall|a: int, b: int|
                0 <= a < b < r.len() implies !(#[trigger] r[a].stem == #[trigger] r[b].stem && r[a].image_type == r[b].image_type) by {
                assert(r[a].stem == ms[a].stem && r[a].image_type == ms[a].image_type);
                assert(r[b].stem == ms[b].stem && r[b].image_type == ms[b].image_type);
                assert(ms[a] == ms[a] && ms[b] == ms[b]);
            }
            assert forall|a: int| 0 <= a < r.len() implies (#[trigger] r[a]).directory == dir && r[a].keys.len() > 0 by {
                if a != i {
                    assert(r[a] == ms[a]);
                }
            }
        }
    } else {
        let e = MissingSpec { stem, directory: dir, keys: seq![k], image_type: ty };
        assert(r == ms.push(e));
        assert forall|a: int, t: int|
            0 <= a < r.len() && 0 <= t < r[a].keys.len() implies refers(secs, r[a].stem, r[a].image_type, #[trigger] r[a].keys[t]) by {
            if a < ms.len() {
                assert(r[a] == ms[a]);
            } else {
                assert(r[a].keys[t] == k);
            }
        }
        assert forall|a: int, t: int, u: int|
            0 <= a < r.len() && 0 <= t < u < r[a].keys.len() implies #[trigger] r[a].keys[t] != #[trigger] r[a].keys[u] by {
            if a < ms.len() {
                assert(r[a] == ms[a]);
            }
        }
        assert forall|a: int, b: int|
            0 <= a < b < r.len() implies !(#[trigger] r[a].stem == #[trigger] r[b].stem && r[a].image_type == r[b].image_type) by {
            assert(r[a] == ms[a]);
            if b < ms.len() {
                assert(r[b] == ms[b]);
            } else {
                assert(!(ms[a].stem == stem && ms[a].image_type == ty));
            }
        }
        assert forall|a: int| 0 <= a < r.len() implies (#[trigger] r[a]).directory == dir && r[a].keys.len() > 0 by {
            if a < ms.len() {
                assert(r[a] == ms[a]);
            }
        }
    }
}

fn kind_label_exec(kind: RefKind) -> (s: &'static str)
    requires
        !(kind is KeyAll),
    ensures
        s@ == kind_label(kind),
{
    match kind {
        RefKind::NoteL => "NoteImage#L",
        RefKind::KeyD => "KeyImage#D",
        _ => "KeyImage#",
    }
}

/// Checks each reference of `refs` (section `si` of `secs`, of the given kind).
fn check_refs(
    missing: &mut Vec<MissingFile>,
    refs: &Vec<ImageRef>,
    dir: &str,
    keys: u32,
    kind: RefKind,
    Ghost(secs): Ghost<Seq<SectionSpec>>,
    Ghost(si): Ghost<int>,
)
    requires
        !(kind is KeyAll),
        0 <= si < secs.len(),
        secs[si].keys == keys,
        refs_of(secs[si], kind) == refs_view(refs@),
        missing_ok(missing_view(old(missing)@), secs, dir@),
    ensures
        missing_ok(missing_view(final(missing)@), secs, dir@),
        exists|f: Seq<bool>|
            f.len() == refs@.len() && missing_view(final(missing)@) == #[trigger] after_probes(
                missing_view(old(missing)@),
                kind_probes(refs_of(secs[si], kind), keys, kind),
                dir@,
                f,
            ),
{
    let ghost start = missing_view(missing@);
    let ghost probes = kind_probes(refs_of(secs[si], kind), keys, kind);
    let ghost mut fs: Seq<bool> = seq![];
    let label = kind_label_exec(kind);
    let mut j: usize = 0;
    while j < refs.len()
        invariant
            j <= refs@.len(),
            !(kind is KeyAll),
            0 <= si < secs.len(),
            secs[si].keys == keys,
            refs_of(secs[si], kind) == refs_view(refs@),
            probes == kind_probes(refs_of(secs[si], kind), keys, kind),
            label@ == kind_label(kind),
            missing_ok(missing_view(missing@), secs, dir@),
            fs.len() == j,
            missing_view(missing@) == after_probes(start, probes.take(j as int), dir@, fs),
        decreases refs@.len() - j,
    {
        let ghost before = missing_view(missing@);
        assert(refs_of(secs[si], kind)[j as int].name == refs@[j as int].name@);
        assert(refers(secs, refs@[j as int].name@, label@, keys));
        check(missing, refs[j].name.as_str(), dir, keys, label);
        proof {
            let b = choose|b: bool|
                missing_view(missing@) == #[trigger] after_probe(before, (refs@[j as int].name@, keys, label@), dir@, b);
            if !b {
                lemma_record_keeps_ok(before, secs, dir@, refs@[j as int].name@, keys, label@);
            }
            let fs2 = fs.push(b);
            assert(probes.take(j + 1).drop_last() =~= probes.take(j as int));
            assert(fs2.drop_last() =~= fs);
            assert(probes.take(j + 1).last() == (refs@[j as int].name@, keys, label@));
            fs = fs2;
        }
        j += 1;
    }
    assert(probes.take(j as int) =~= probes);
}

/// Lists the images that the `[Mania]` sections of `skin_ini` refer to and that are
/// not found in its directory, each stem and kind once, with the key counts of the
/// sections that refer to it.
///
/// Each reference is probed in turn (see [`skin_probes`]); which image files exist is the
/// file system's answer, and the list is what [`after_probes`] makes of the answers. When
/// the answers agree for each stem, [`lemma_validation_consistent`] states the list in
/// terms of the sections alone.
pub fn validate_skin_files(skin_ini: &SkinIni) -> (missing: Vec<MissingFile>)
    ensures
        missing_ok(missing_view(missing@), sections_view(skin_ini.mania_sections@), skin_ini.directory@),
        exists|found: Seq<bool>|
            found.len() == skin_probes(sections_view(skin_ini.mania_sections@)).len() && missing_view(missing@)
                == #[trigger] after_probes(
                seq![],
                skin_probes(sections_view(skin_ini.mania_sections@)),
                skin_ini.directory@,
                found,
            ),
{
    let ghost secs = sections_view(skin_ini.mania_sections@);
    let ghost mut fs: Seq<bool> = seq![];
    let mut missing: Vec<MissingFile> = Vec::new();
    let dir = skin_ini.directory.as_str();
    assert(missing_view(missing@) =~= Seq::<MissingSpec>::empty());
    assert(skin_probes(secs.take(0)) =~= Seq::<Probe>::empty());
    let mut i: usize = 0;
    while i < skin_ini.mania_sections.len()
        invariant
            i <= skin_ini.mania_sections@.len(),
            secs == sections_view(skin_ini.mania_sections@),
            dir@ == skin_ini.directory@,
            missing_ok(missing_view(missing@), secs, dir@),
            fs.len() == skin_probes(secs.take(i as int)).len(),
            missing_view(missing@) == after_probes(seq![], skin_probes(secs.take(i as int)), dir@, fs),
        decreases skin_ini.mania_sections@.len() - i,
    {
        let section = &skin_ini.mania_sections[i];
        assert(secs[i as int] == section@);
        let ghost m0 = missing_view(missing@);
        check_refs(&mut missing, &section.note_image_ls, dir, section.keys, RefKind::NoteL, Ghost(secs), Ghost(i as int));
        let ghost m1 = missing_view(missing@);
        check_refs(&mut missing, &section.key_image_ds, dir, section.keys, RefKind::KeyD, Ghost(secs), Ghost(i as int));
        let ghost m2 = missing_view(missing@);
        check_refs(&mut missing, &section.key_images, dir, section.keys, RefKind::Key, Ghost(secs), Ghost(i as int));
        proof {
            let s = secs[i as int];
            let k1 = kind_probes(s.note_image_ls, s.keys, RefKind::NoteL);
            let k2 = kind_probes(s.key_image_ds, s.keys, RefKind::KeyD);
            let k3 = kind_probes(s.key_images, s.keys, RefKind::Key);
            assert(refs_of(s, RefKind::NoteL) == s.note_image_ls);
            assert(refs_of(s, RefKind::KeyD) == s.key_image_ds);
            assert(refs_of(s, RefKind::Key) == s.key_images);
            let f1 = choose|f: Seq<bool>|
                f.len() == section.note_image_ls@.len() && m1 == #[trigger] after_probes(m0, k1, dir@, f);
            let f2 = choose|f: Seq<bool>|
                f.len() == section.key_image_ds@.len() && m2 == #[trigger] after_probes(m1, k2, dir@, f);
            let f3 = choose|f: Seq<bool>|
                f.len() == section.key_images@.len() && missing_view(missing@) == #[trigger] after_probes(m2, k3, dir@, f);
            let p0 = skin_probes(secs.take(i as int));
            lemma_after_probes_concat(seq![], p0, k1, dir@, fs, f1);
            lemma_after_probes_concat(seq![], p0 + k1, k2, dir@, fs + f1, f2);
            lemma_after_probes_concat(seq![], p0 + k1 + k2, k3, dir@, fs + f1 + f2, f3);
            assert(secs.take(i + 1).drop_last() =~= secs.take(i as int));
            assert(skin_probes(secs.take(i + 1)) =~= p0 + k1 + k2 + k3);
            fs = fs + f1 + f2 + f3;
        }
        i += 1;
    }
    assert(secs.take(i as int) =~= secs);
    missing
}


/// The parent of a path (`Path::parent`), when it has one.
pub uninterp spec fn parent_of(path: Seq<char>) -> Option<Seq<char>>;

/// `Path::parent` of `path`, as text.
///
/// Trusted: the result is named `parent_of(path)`; where the last component starts is
/// left to the platform's `Path`.
#[verifier::external_body]
fn path_parent(path: &str) -> (r: Option<String>)
    ensures
        match r {
            Some(p) => parent_of(path@) == Some(p@),
            None => parent_of(path@) is None,
        },
{
    std::path::Path::new(path).parent().map(|p| p.to_string_lossy().into_owned())
}

/// The directory of a skin.ini at `path`: its parent, or `.` when it has none.
pub open spec fn ini_directory(path: Seq<char>) -> Seq<char> {
    match parent_of(path) {
        Some(d) => d,
        None => "."@,
    }
}

/// The skin.ini at `path` with text `content`: its directory and its `[Mania]` sections;
/// `None` when scanning the text would slice a string inside a character.
pub fn parse_skin_ini_text(path: &str, content: &str) -> (r: Option<SkinIni>)
    ensures
        r is None <==> sections_scan_panics(lines(content@)),
        r matches Some(ini) ==> ini.path@ == path@ && ini.directory@ == ini_directory(path@)
            && sections_view(ini.mania_sections@) == mania_sections(lines(content@)),
{
    let ls = split_lines(content);
    if !sections_scan_is_safe(&ls) {
        return None;
    }
    let mania_sections = parse_mania_sections(&ls);
    let mut p = String::new();
    push_str(&mut p, path);
    let directory = match path_parent(path) {
        Some(d) => d,
        None => {
            let mut d = String::new();
            push_str(&mut d, ".");
            d
        },
    };
    assert(p@ =~= path@);
    Some(SkinIni { path: p, directory, mania_sections })
}



/// Key counts written `4k, 7k` (each followed by `k`, separated by `, `).
pub open spec fn keys_text(keys: Seq<u32>) -> Seq<char>
    decreases keys.len(),
{
    if keys.len() == 0 {
        seq![]
    } else if keys.len() == 1 {
        decimal(keys[0] as nat) + "k"@
    } else {
        keys_text(keys.drop_last()) + ", "@ + decimal(keys.last() as nat) + "k"@
    }
}

/// The report line of one missing file.
pub open spec fn missing_line(m: MissingFile) -> Seq<char> {
    "  ✗ ["@ + m.image_type@ + "] "@ + m.stem@ + " (引用自: "@ + keys_text(m.keys@) + ")"@
}

/// The validation report: one line saying that all files exist, or the number of missing
/// files followed by one line for each.
pub open spec fn missing_report(missing: Seq<MissingFile>) -> Seq<Seq<char>> {
    if missing.len() == 0 {
        seq!["所有图片文件均存在 ✓"@]
    } else {
        seq!["发现 "@ + decimal(missing.len()) + " 个缺失文件:"@] + missing.map_values(|m: MissingFile| missing_line(m))
    }
}

fn push_keys(s: &mut String, keys: &Vec<u32>)
    ensures
        final(s)@ == old(s)@ + keys_text(keys@),
{
    let mut i: usize = 0;
    let ghost o = old(s)@;
    assert(keys@.take(0) =~= Seq::<u32>::empty());
    while i < keys.len()
        invariant
            i <= keys@.len(),
            s@ == o + keys_text(keys@.take(i as int)),
        decreases keys@.len() - i,
    {
        assert(keys@.take(i + 1).drop_last() =~= keys@.take(i as int));
        if i > 0 {
            push_str(s, ", ");
        } else {
            assert(keys@.take(1) =~= seq![keys@[0]]);
        }
        push_decimal(s, keys[i] as u64);
        push_str(s, "k");
        i += 1;
    }
    assert(keys@.take(keys@.len() as int) =~= keys@);
}

/// The validation report of the missing files (see [`missing_report`]).
pub fn missing_files_report(missing: &Vec<MissingFile>) -> (r: Vec<String>)
    ensures
        strings_view(r@) == missing_report(missing@),
{
    let mut out: Vec<String> = Vec::new();
    if missing.len() == 0 {
        let mut m = String::new();
        push_str(&mut m, "所有图片文件均存在 ✓");
        out.push(m);
        assert(strings_view(out@) =~= missing_report(missing@));
        return out;
    }
    let mut head = String::new();
    push_str(&mut head, "发现 ");
    push_decimal(&mut head, missing.len() as u64);
    push_str(&mut head, " 个缺失文件:");
    out.push(head);
    let ghost first = strings_view(out@);
    let mut i: usize = 0;
    while i < missing.len()
        invariant
            i <= missing@.len(),
            first.len() == 1,
            strings_view(out@) == first + missing@.take(i as int).map_values(|m: MissingFile| missing_line(m)),
        decreases missing@.len() - i,
    {
        let m = &missing[i];
        let mut line = String::new();
        push_str(&mut line, "  ✗ [");
        push_str(&mut line, m.image_type.as_str());
        push_str(&mut line, "] ");
        push_str(&mut line, m.stem.as_str());
        push_str(&mut line, " (引用自: ");
        push_keys(&mut line, &m.keys);
        push_str(&mut line, ")");
        let ghost before = strings_view(out@);
        out.push(line);
        assert(strings_view(out@) =~= before.push(missing_line(*m)));
        assert(missing@.take(i + 1).map_values(|m: MissingFile| missing_line(m)) =~= missing@.take(i as int).map_values(
            |m: MissingFile| missing_line(m),
        ).push(missing_line(missing@[i as int])));
        i += 1;
    }
    assert(missing@.take(missing@.len() as int) =~= missing@);
    assert(strings_view(out@) =~= missing_report(missing@));
    out
}

} // verus!
