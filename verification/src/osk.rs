//! Decisions of the `.osk` (zip) repair: which archive entries are directories, how files
//! are named inside the archive and which are left out, and where the skin lies inside an
//! unpacked archive.
use vstd::prelude::*;

use crate::text::{chars_of, push_char, starts_with};

verus! {

/// The name of an archive entry names a directory: it ends with `/` or `\`.
pub open spec fn names_directory(name: Seq<char>) -> bool {
    name.len() > 0 && (name.last() == '/' || name.last() == '\\')
}

/// Whether the archive entry `name` is a directory (see [`names_directory`]).
pub fn is_directory_entry(name: &str) -> (b: bool)
    ensures
        b == names_directory(name@),
{
    let v = chars_of(name);
    let n = v.len();
    n > 0 && (v[n - 1] == '/' || v[n - 1] == '\\')
}

/// `s` with every `\` replaced by `/`.
pub open spec fn with_forward_slashes(s: Seq<char>) -> Seq<char> {
    s.map_values(|c: char| if c == '\\' { '/' } else { c })
}

/// The name under which a file at path `relative` (relative to the skin directory) is
/// stored in the archive: its separators written as `/`.
pub fn archive_name(relative: &str) -> (r: String)
    ensures
        r@ == with_forward_slashes(relative@),
{
    let v = chars_of(relative);
    let mut r = String::new();
    let mut i: usize = 0;
    while i < v.len()
        invariant
            i <= v@.len(),
            v@ == relative@,
            r@ == with_forward_slashes(v@.take(i as int)),
        decreases v@.len() - i,
    {
        let c = v[i];
        push_char(&mut r, if c == '\\' { '/' } else { c });
        assert(with_forward_slashes(v@.take(i + 1)) =~= with_forward_slashes(v@.take(i as int)).push(
            if c == '\\' { '/' } else { c },
        ));
        i += 1;
    }
    assert(v@.take(v@.len() as int) =~= v@);
    r
}

/// Files whose archive name starts with `_backup` are not packed again.
pub open spec fn left_out_of_archive(name: Seq<char>) -> bool {
    starts_with(name, "_backup"@)
}

/// Whether the file with archive name `name` is left out of the archive (see
/// [`left_out_of_archive`]).
pub fn is_left_out(name: &str) -> (b: bool)
    ensures
        b == left_out_of_archive(name@),
{
    let v = chars_of(name);
    let p = chars_of("_backup");
    proof {
        reveal_strlit("_backup");
    }
    if v.len() < p.len() {
        return false;
    }
    let mut i: usize = 0;
    while i < p.len()
        invariant
            i <= p@.len(),
            p@.len() <= v@.len(),
            v@ == name@,
            p@ == "_backup"@,
            forall|k: int| 0 <= k < i ==> #[trigger] v@[k] == p@[k],
        decreases p@.len() - i,
    {
        if v[i] != p[i] {
            assert(v@.take(p@.len() as int)[i as int] == v@[i as int]);
            return false;
        }
        i += 1;
    }
    assert(v@.take(p@.len() as int) =~= p@);
    true
}

/// An entry of the unpacked archive's top directory that may hold the skin: a directory
/// whose name does not start with `_`.
pub open spec fn may_hold_skin(e: (Seq<char>, bool)) -> bool {
    e.1 && !(e.0.len() > 0 && e.0[0] == '_')
}

/// The number of the first `n` entries that may hold the skin.
pub open spec fn skin_dir_count(entries: Seq<(Seq<char>, bool)>, n: int) -> int
    decreases n,
{
    if n <= 0 {
        0
    } else {
        skin_dir_count(entries, n - 1) + if may_hold_skin(entries[n - 1]) { 1int } else { 0int }
    }
}

/// The models of `(file name, is directory)` entries.
pub open spec fn entries_view(v: Seq<(String, bool)>) -> Seq<(Seq<char>, bool)> {
    v.map_values(|e: (String, bool)| (e.0@, e.1))
}

/// The entry of the unpacked archive's top directory in which the skin is looked for when
/// `skin.ini` is not at the top: the only entry that may hold the skin, when there is
/// exactly one.
pub fn nested_skin_dir(entries: &Vec<(String, bool)>) -> (r: Option<usize>)
    ensures
        skin_dir_count(entries_view(entries@), entries@.len() as int) == 1 <==> r is Some,
        r matches Some(i) ==> i < entries@.len() && may_hold_skin(entries_view(entries@)[i as int]),
{
    let ghost ev = entries_view(entries@);
    let mut found: Option<usize> = None;
    let mut count: usize = 0;
    let mut i: usize = 0;
    while i < entries.len()
        invariant
            i <= entries@.len(),
            ev == entries_view(entries@),
            count == skin_dir_count(ev, i as int),
            count <= i,
            count == 0 <==> found is None,
            found matches Some(k) ==> k < i && may_hold_skin(ev[k as int]),
        decreases entries@.len() - i,
    {
        let (name, is_dir) = (&entries[i].0, entries[i].1);
        assert(ev[i as int] == (name@, is_dir));
        let v = chars_of(name.as_str());
        if is_dir && !(v.len() > 0 && v[0] == '_') {
            count += 1;
            found = Some(i);
        }
        i += 1;
    }
    if count == 1 { found } else { None }
}


/// An archive entry under `scripts/` (written with either separator).
pub open spec fn in_scripts_dir(name: Seq<char>) -> bool {
    starts_with(name, "scripts/"@) || starts_with(name, "scripts\\"@)
}

/// Whether the archive entry `name` lies under `scripts/` (see [`in_scripts_dir`]); such
/// entries are replaced when the external tool is added to an archive.
pub fn is_scripts_entry(name: &str) -> (b: bool)
    ensures
        b == in_scripts_dir(name@),
{
    let v = chars_of(name);
    let p = chars_of("scripts/");
    let q = chars_of("scripts\\");
    proof {
        reveal_strlit("scripts/");
        reveal_strlit("scripts\\");
    }
    let n = v.len();
    let a = crate::text::starts_with_at(&v, 0, n, &p);
    let b = crate::text::starts_with_at(&v, 0, n, &q);
    assert(v@.subrange(0, n as int) =~= v@);
    a || b
}

} // verus!
