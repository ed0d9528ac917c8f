//! skin.ini parser for the `[Mania]` sections of an osu! skin.
//!
//! It extracts `Keys`, `ColumnWidth`, `KeyImage#`, `KeyImage#D` and `NoteImage#L`.
//! `#` is the 0-based column index, not the key count.
use vstd::prelude::*;

use crate::text::{
    chars_of, digits_end_at, equals_ci, equals_ci_at, find_char_at, index_of,
    leading_digits, lemma_index_of_bounds, lowers_to_ascii, parse_u32, parse_u32_at,
    starts_with_fold, starts_with_fold_at, string_of_range, strings_view, trim, trim_bounds, trim_start,
    trim_start_bound,
};

verus! {

/// An image reference: the column, the image stem and the line it stands on.
#[derive(Debug, Clone)]
pub struct ImageRef {
    /// Column index (0-based).
    pub column: u32,
    /// The value given in skin.ini (image stem, without path or extension).
    pub name: String,
    /// Line of the entry (0-based).
    pub line: usize,
}

/// Mathematical model of an [`ImageRef`].
pub struct RefSpec {
    pub column: u32,
    pub name: Seq<char>,
    pub line: nat,
}

impl View for ImageRef {
    type V = RefSpec;

    open spec fn view(&self) -> RefSpec {
        RefSpec { column: self.column, name: self.name@, line: self.line as nat }
    }
}

/// The models of a list of image references.
pub open spec fn refs_view(v: Seq<ImageRef>) -> Seq<RefSpec> {
    v.map_values(|r: ImageRef| r@)
}

/// One `[Mania]` section.
#[derive(Debug, Clone)]
pub struct ManiaSection {
    /// Key count, such as 4, 5, ..., 18.
    pub keys: u32,
    /// ColumnWidth (its first value; 0 when absent or invalid).
    pub column_width: u32,
    /// KeyImage# references.
    pub key_images: Vec<ImageRef>,
    /// KeyImage#D references.
    pub key_image_ds: Vec<ImageRef>,
    /// NoteImage#L references.
    pub note_image_ls: Vec<ImageRef>,
    /// First line of the section (0-based).
    pub line_start: usize,
    /// End line of the section (0-based, exclusive).
    pub line_end: usize,
}

/// Mathematical model of a [`ManiaSection`].
pub struct SectionSpec {
    pub keys: u32,
    pub column_width: u32,
    pub key_images: Seq<RefSpec>,
    pub key_image_ds: Seq<RefSpec>,
    pub note_image_ls: Seq<RefSpec>,
    pub line_start: nat,
    pub line_end: nat,
}

impl View for ManiaSection {
    type V = SectionSpec;

    open spec fn view(&self) -> SectionSpec {
        SectionSpec {
            keys: self.keys,
            column_width: self.column_width,
            key_images: refs_view(self.key_images@),
            key_image_ds: refs_view(self.key_image_ds@),
            note_image_ls: refs_view(self.note_image_ls@),
            line_start: self.line_start as nat,
            line_end: self.line_end as nat,
        }
    }
}

/// The models of a list of sections.
pub open spec fn sections_view(v: Seq<ManiaSection>) -> Seq<SectionSpec> {
    v.map_values(|s: ManiaSection| s@)
}

/// Result of parsing a skin.ini file.
#[derive(Debug, Clone)]
pub struct SkinIni {
    /// Path of the skin.ini file.
    pub path: String,
    /// Directory that holds skin.ini.
    pub directory: String,
    /// All `[Mania]` sections.
    pub mania_sections: Vec<ManiaSection>,
}

// ---------------------------------------------------------------------------
// Line-level specifications
// ---------------------------------------------------------------------------

/// Where the value of `key` starts in a `line` that matches it: `key.len()` bytes in.
/// The characters matched are ASCII (one byte each) except a leading Kelvin sign (three
/// bytes), which shifts the start two characters back; a `k` stands only first in the
/// keys looked up.
pub open spec fn key_end(line: Seq<char>, key: Seq<char>) -> int {
    if line.len() > 0 && line[0] == '\u{212A}' && key.len() >= 2 {
        key.len() - 2
    } else {
        key.len() as int
    }
}

/// `Key: value`: when the lowercased line starts with the lowercased key, the rest of the
/// line from `key.len()` bytes on, trimmed.
pub open spec fn key_value(line: Seq<char>, key: Seq<char>) -> Option<Seq<char>> {
    if starts_with_fold(line, key) {
        Some(trim(line.skip(key_end(line, key))))
    } else {
        None
    }
}

/// `<prefix><digits><suffix>: value` (the prefix matched on the lowercased line, the
/// suffix up to ASCII case, blanks allowed before the colon): the column and the trimmed
/// value.
pub open spec fn image_ref_value(line: Seq<char>, prefix: Seq<char>, suffix: Seq<char>) -> Option<
    (u32, Seq<char>),
> {
    if !starts_with_fold(line, prefix) {
        None
    } else {
        let ap = line.skip(prefix.len() as int);
        let nd = leading_digits(ap);
        if nd == 0 {
            None
        } else {
            match parse_u32(ap.take(nd as int)) {
                None => None,
                Some(col) => {
                    let an = ap.skip(nd as int);
                    if an.len() < suffix.len() + 1 {
                        None
                    } else if !equals_ci(an.take(suffix.len() as int), suffix) {
                        None
                    } else {
                        let rest = trim_start(an.skip(suffix.len() as int));
                        if rest.len() == 0 || rest[0] != ':' {
                            None
                        } else {
                            Some((col, trim(line.skip(index_of(line, ':') + 1))))
                        }
                    }
                },
            }
        }
    }
}

/// The inputs on which matching a one-character suffix would slice inside a
/// multi-byte character: right after the column digits, a character whose lowercase does
/// not begin with an ASCII character (see [`lowers_to_ascii`]).
pub open spec fn image_ref_panics(line: Seq<char>, prefix: Seq<char>, suffix: Seq<char>) -> bool {
    &&& starts_with_fold(line, prefix)
    &&& {
        let ap = line.skip(prefix.len() as int);
        let nd = leading_digits(ap);
        let an = ap.skip(nd as int);
        &&& nd > 0
        &&& parse_u32(ap.take(nd as int)) is Some
        &&& suffix.len() == 1
        &&& an.len() >= 1
        &&& !lowers_to_ascii(an[0])
    }
}

/// A section header: `[...]`.
pub open spec fn is_header(t: Seq<char>) -> bool {
    t.len() > 0 && t[0] == '[' && t.last() == ']'
}

/// The first comma-separated value of `v`.
pub open spec fn first_field(v: Seq<char>) -> Seq<char> {
    v.take(index_of(v, ','))
}

/// State of the section scanner after a number of lines.
pub struct ParseState {
    pub in_mania: bool,
    pub start: nat,
    pub keys: Option<u32>,
    pub cw: Option<u32>,
    pub ki: Seq<RefSpec>,
    pub kd: Seq<RefSpec>,
    pub nl: Seq<RefSpec>,
    pub sections: Seq<SectionSpec>,
}

pub open spec fn initial_state() -> ParseState {
    ParseState {
        in_mania: false,
        start: 0,
        keys: None,
        cw: None,
        ki: seq![],
        kd: seq![],
        nl: seq![],
        sections: seq![],
    }
}

/// Closes the current section at `end`. A section is recorded only when it had a
/// `Keys` value; either way the collected references end with the section, so that each
/// section holds the references from its own lines only.
pub open spec fn flush(st: ParseState, end: nat) -> ParseState {
    match st.keys {
        Some(k) => ParseState {
            keys: None,
            cw: None,
            ki: seq![],
            kd: seq![],
            nl: seq![],
            sections: st.sections.push(
                SectionSpec {
                    keys: k,
                    column_width: match st.cw {
                        Some(c) => c,
                        None => 0,
                    },
                    key_images: st.ki,
                    key_image_ds: st.kd,
                    note_image_ls: st.nl,
                    line_start: st.start,
                    line_end: end,
                },
            ),
            ..st
        },
        None => ParseState { cw: None, ki: seq![], kd: seq![], nl: seq![], ..st },
    }
}

/// How one line (number `i`) changes the scanner state.
pub open spec fn step(st: ParseState, i: nat, line: Seq<char>) -> ParseState {
    let t = trim(line);
    if is_header(t) {
        let st1 = if st.in_mania {
            flush(st, i)
        } else {
            st
        };
        let m = equals_ci(t, "[Mania]"@);
        ParseState {
            in_mania: m,
            start: if m {
                i
            } else {
                st1.start
            },
            ..st1
        }
    } else if !st.in_mania {
        st
    } else {
        match key_value(t, "Keys:"@) {
            Some(v) => ParseState { keys: parse_u32(v), ..st },
            None => match key_value(t, "ColumnWidth:"@) {
                Some(v) => ParseState { cw: parse_u32(trim(first_field(v))), ..st },
                None => match image_ref_value(t, "KeyImage"@, "D"@) {
                    Some(r) => ParseState {
                        kd: st.kd.push(RefSpec { column: r.0, name: r.1, line: i }),
                        ..st
                    },
                    None => match image_ref_value(t, "KeyImage"@, ""@) {
                        Some(r) => ParseState {
                            ki: st.ki.push(RefSpec { column: r.0, name: r.1, line: i }),
                            ..st
                        },
                        None => match image_ref_value(t, "NoteImage"@, "L"@) {
                            Some(r) => ParseState {
                                nl: st.nl.push(RefSpec { column: r.0, name: r.1, line: i }),
                                ..st
                            },
                            None => st,
                        },
                    },
                },
            },
        }
    }
}

/// Scanner state after the first `i` lines.
pub open spec fn parse_state(lines: Seq<Seq<char>>, i: nat) -> ParseState
    decreases i,
{
    if i == 0 || i > lines.len() {
        initial_state()
    } else {
        step(parse_state(lines, (i - 1) as nat), (i - 1) as nat, lines[i - 1])
    }
}

/// The `[Mania]` sections of a skin.ini given as lines.
pub open spec fn mania_sections(lines: Seq<Seq<char>>) -> Seq<SectionSpec> {
    let st = parse_state(lines, lines.len());
    if st.in_mania {
        flush(st, lines.len()).sections
    } else {
        st.sections
    }
}

/// Scanning this line in state `st` would slice a string inside a character.
pub open spec fn line_panics(st: ParseState, line: Seq<char>) -> bool {
    let t = trim(line);
    &&& !is_header(t)
    &&& st.in_mania
    &&& key_value(t, "Keys:"@) is None
    &&& key_value(t, "ColumnWidth:"@) is None
    &&& (image_ref_panics(t, "KeyImage"@, "D"@) || (image_ref_value(t, "KeyImage"@, "D"@) is None
        && image_ref_value(t, "KeyImage"@, ""@) is None && image_ref_panics(
        t,
        "NoteImage"@,
        "L"@,
    )))
}

/// Scanning `lines` would slice a string inside a character somewhere.
pub open spec fn sections_scan_panics(lines: Seq<Seq<char>>) -> bool {
    exists|i: int| 0 <= i < lines.len() && #[trigger] line_panics(parse_state(lines, i as nat), lines[i])
}


// ---------------------------------------------------------------------------
// Low-level helpers
// ---------------------------------------------------------------------------

/// `key_value` on `v[lo..hi]`; the value as bounds into `v`.
pub(crate) fn key_value_at(v: &Vec<char>, lo: usize, hi: usize, key: &Vec<char>) -> (r: Option<(usize, usize)>)
    requires
        lo <= hi <= v@.len(),
    ensures
        match r {
            Some((a, b)) => lo <= a <= b <= hi && key_value(v@.subrange(lo as int, hi as int), key@)
                == Some(v@.subrange(a as int, b as int)),
            None => key_value(v@.subrange(lo as int, hi as int), key@) is None,
        },
{
    if !starts_with_fold_at(v, lo, hi, key) {
        return None;
    }
    let p0 = if hi > lo && v[lo] == '\u{212A}' && key.len() >= 2 { lo + key.len() - 2 } else { lo + key.len() };
    assert(hi > lo ==> v@.subrange(lo as int, hi as int)[0] == v@[lo as int]);
    assert(v@.subrange(lo as int, hi as int).skip(key_end(v@.subrange(lo as int, hi as int), key@)) == v@.subrange(
        p0 as int,
        hi as int,
    ));
    let (a, b) = trim_bounds(v, p0, hi);
    Some((a, b))
}

/// Matches `Key: value` case-insensitively and returns the trimmed value.
///
/// The key is compared with the lowercased line (see [`key_value`]); this describes
/// `str::to_lowercase` exactly for ASCII keys in which a `k` can only stand first, such as
/// `Keys:` and `ColumnWidth:`.
pub fn try_parse_key<'a>(line: &'a str, key: &str) -> (r: Option<&'a str>)
    ensures
        match r {
            Some(x) => key_value(line@, key@) == Some(x@),
            None => key_value(line@, key@) is None,
        },
{
    let v = chars_of(line);
    let k = chars_of(key);
    assert(v@.subrange(0, v@.len() as int) == v@);
    match key_value_at(&v, 0, v.len(), &k) {
        Some((a, b)) => Some(line.substring_char(a, b)),
        None => None,
    }
}

/// Number of leading ASCII digits.
pub fn count_leading_digits(s: &str) -> (n: usize)
    ensures
        n == leading_digits(s@),
{
    let v = chars_of(s);
    assert(v@.subrange(0, v@.len() as int) == v@);
    digits_end_at(&v, 0, v.len())
}

/// `image_ref_value` on `v[lo..hi]`; the value as bounds into `v`.
fn image_ref_value_at(v: &Vec<char>, lo: usize, hi: usize, prefix: &Vec<char>, suffix: &Vec<char>) -> (r:
    Option<(u32, usize, usize)>)
    requires
        lo <= hi <= v@.len(),
        suffix@.len() <= 1,
        !image_ref_panics(v@.subrange(lo as int, hi as int), prefix@, suffix@),
    ensures
        match r {
            Some((c, a, b)) => lo <= a <= b <= hi && image_ref_value(
                v@.subrange(lo as int, hi as int),
                prefix@,
                suffix@,
            ) == Some((c, v@.subrange(a as int, b as int))),
            None => image_ref_value(v@.subrange(lo as int, hi as int), prefix@, suffix@) is None,
        },
{
    let ghost line = v@.subrange(lo as int, hi as int);
    if !starts_with_fold_at(v, lo, hi, prefix) {
        return None;
    }
    let p0 = lo + prefix.len();
    let ghost ap = line.skip(prefix@.len() as int);
    assert(ap == v@.subrange(p0 as int, hi as int));
    let d_end = digits_end_at(v, p0, hi);
    if d_end == p0 {
        return None;
    }
    assert(ap.take(d_end - p0) == v@.subrange(p0 as int, d_end as int));
    let col = match parse_u32_at(v, p0, d_end) {
        None => return None,
        Some(c) => c,
    };
    let ghost an = ap.skip(d_end - p0);
    assert(an == v@.subrange(d_end as int, hi as int));
    let k = suffix.len();
    if hi - d_end < k + 1 {
        return None;
    }
    assert(an.take(k as int) == v@.subrange(d_end as int, (d_end + k) as int));
    if !equals_ci_at(v, d_end, d_end + k, suffix) {
        return None;
    }
    assert(an.skip(k as int) == v@.subrange((d_end + k) as int, hi as int));
    let r0 = trim_start_bound(v, d_end + k, hi);
    if r0 >= hi || v[r0] != ':' {
        assert(r0 < hi ==> v@.subrange(r0 as int, hi as int)[0] == v@[r0 as int]);
        return None;
    }
    assert(v@.subrange(r0 as int, hi as int)[0] == v@[r0 as int]);
    let c = find_char_at(v, lo, hi, ':');
    proof {
        lemma_index_of_bounds(line, ':');
        assert(line[r0 - lo] == ':');
    }
    assert(line.skip(index_of(line, ':') + 1) == v@.subrange(c + 1, hi as int));
    let (a, b) = trim_bounds(v, c + 1, hi);
    Some((col, a, b))
}

/// Matches `<prefix><digits><suffix>: value` (case-insensitive) and returns the
/// column and the trimmed value.
fn try_parse_image_ref(line: &str, prefix: &str, suffix: &str) -> (r: Option<(u32, String)>)
    requires
        suffix@.len() <= 1,
        !image_ref_panics(line@, prefix@, suffix@),
    ensures
        match r {
            Some((c, n)) => image_ref_value(line@, prefix@, suffix@) == Some((c, n@)),
            None => image_ref_value(line@, prefix@, suffix@) is None,
        },
{
    let v = chars_of(line);
    let p = chars_of(prefix);
    let x = chars_of(suffix);
    assert(v@.subrange(0, v@.len() as int) == v@);
    match image_ref_value_at(&v, 0, v.len(), &p, &x) {
        Some((c, a, b)) => Some((c, string_of_range(&v, a, b))),
        None => None,
    }
}


// ---------------------------------------------------------------------------
// Section scanner
// ---------------------------------------------------------------------------

proof fn lemma_refs_push(v: Seq<ImageRef>, r: ImageRef)
    ensures
        refs_view(v.push(r)) == refs_view(v).push(r@),
{
    assert(refs_view(v.push(r)) =~= refs_view(v).push(r@));
}

proof fn lemma_sections_push(v: Seq<ManiaSection>, s: ManiaSection)
    ensures
        sections_view(v.push(s)) == sections_view(v).push(s@),
{
    assert(sections_view(v.push(s)) =~= sections_view(v).push(s@));
}

/// Whether scanning `lines` can go through without slicing inside a character;
/// the callers of [`parse_mania_sections`] test this first.
pub fn sections_scan_is_safe(lines: &Vec<String>) -> (b: bool)
    ensures
        b == !sections_scan_panics(strings_view(lines@)),
{
    let ghost lv = strings_view(lines@);
    let mut i: usize = 0;
    let mut st = SectionScanner::new();
    while i < lines.len()
        invariant
            i <= lines@.len(),
            lv == strings_view(lines@),
            st.view_state() == parse_state(lv, i as nat),
            st.wf(),
            forall|j: int| 0 <= j < i ==> !#[trigger] line_panics(parse_state(lv, j as nat), lv[j]),
        decreases lines@.len() - i,
    {
        let v = chars_of(lines[i].as_str());
        assert(v@ == lv[i as int]);
        if st.line_would_panic(&v) {
            assert(sections_scan_panics(lv)) by {
                let j = i as int;
                assert(0 <= j < lv.len() && line_panics(parse_state(lv, j as nat), lv[j]));
            }
            return false;
        }
        st.feed(&v, i);
        i += 1;
    }
    true
}

/// The scanner's running state.
struct SectionScanner {
    in_mania: bool,
    section_start: usize,
    keys: Option<u32>,
    column_width: Option<u32>,
    key_images: Vec<ImageRef>,
    key_image_ds: Vec<ImageRef>,
    note_image_ls: Vec<ImageRef>,
    sections: Vec<ManiaSection>,
    lit_mania: Vec<char>,
    lit_keys: Vec<char>,
    lit_cw: Vec<char>,
    lit_key_image: Vec<char>,
    lit_note_image: Vec<char>,
    lit_d: Vec<char>,
    lit_l: Vec<char>,
    lit_empty: Vec<char>,
}

impl SectionScanner {
    spec fn view_state(&self) -> ParseState {
        ParseState {
            in_mania: self.in_mania,
            start: self.section_start as nat,
            keys: self.keys,
            cw: self.column_width,
            ki: refs_view(self.key_images@),
            kd: refs_view(self.key_image_ds@),
            nl: refs_view(self.note_image_ls@),
            sections: sections_view(self.sections@),
        }
    }

    spec fn wf(&self) -> bool {
        &&& self.lit_mania@ == "[Mania]"@
        &&& self.lit_keys@ == "Keys:"@
        &&& self.lit_cw@ == "ColumnWidth:"@
        &&& self.lit_key_image@ == "KeyImage"@
        &&& self.lit_note_image@ == "NoteImage"@
        &&& self.lit_d@ == "D"@
        &&& self.lit_l@ == "L"@
        &&& self.lit_empty@ == ""@
        &&& self.lit_d@.len() == 1
        &&& self.lit_l@.len() == 1
        &&& self.lit_empty@.len() == 0
    }

    fn new() -> (s: Self)
        ensures
            s.view_state() == initial_state(),
            s.wf(),
    {
        let s = SectionScanner {
            in_mania: false,
            section_start: 0,
            keys: None,
            column_width: None,
            key_images: Vec::new(),
            key_image_ds: Vec::new(),
            note_image_ls: Vec::new(),
            sections: Vec::new(),
            lit_mania: chars_of("[Mania]"),
            lit_keys: chars_of("Keys:"),
            lit_cw: chars_of("ColumnWidth:"),
            lit_key_image: chars_of("KeyImage"),
            lit_note_image: chars_of("NoteImage"),
            lit_d: chars_of("D"),
            lit_l: chars_of("L"),
            lit_empty: chars_of(""),
        };
        proof {
            reveal_strlit("D");
            reveal_strlit("L");
            reveal_strlit("");
            assert(refs_view(Seq::<ImageRef>::empty()) =~= Seq::<RefSpec>::empty());
            assert(sections_view(Seq::<ManiaSection>::empty()) =~= Seq::<SectionSpec>::empty());
        }
        s
    }

    /// Closes the current section at line `end`.
    fn flush(&mut self, end: usize)
        requires
            old(self).wf(),
        ensures
            final(self).wf(),
            final(self).view_state() == flush(old(self).view_state(), end as nat),
    {
        match self.keys {
            Some(k) => {
                let mut ki: Vec<ImageRef> = Vec::new();
                std::mem::swap(&mut ki, &mut self.key_images);
                let mut kd: Vec<ImageRef> = Vec::new();
                std::mem::swap(&mut kd, &mut self.key_image_ds);
                let mut nl: Vec<ImageRef> = Vec::new();
                std::mem::swap(&mut nl, &mut self.note_image_ls);
                let cw = match self.column_width {
                    Some(c) => c,
                    None => 0,
                };
                let sec = ManiaSection {
                    keys: k,
                    column_width: cw,
                    key_images: ki,
                    key_image_ds: kd,
                    note_image_ls: nl,
                    line_start: self.section_start,
                    line_end: end,
                };
                proof {
                    lemma_sections_push(self.sections@, sec);
                    assert(refs_view(Seq::<ImageRef>::empty()) =~= Seq::<RefSpec>::empty());
                }
                self.sections.push(sec);
                self.keys = None;
            },
            None => {
                self.key_images = Vec::new();
                self.key_image_ds = Vec::new();
                self.note_image_ls = Vec::new();
                proof {
                    assert(refs_view(Seq::<ImageRef>::empty()) =~= Seq::<RefSpec>::empty());
                }
            },
        }
        self.column_width = None;
    }

    /// Whether scanning line `v` in the current state would slice inside a character.
    fn line_would_panic(&self, v: &Vec<char>) -> (b: bool)
        requires
            self.wf(),
        ensures
            b == line_panics(self.view_state(), v@),
    {
        let (a, b) = trim_bounds(v, 0, v.len());
        assert(v@.subrange(0, v@.len() as int) == v@);
        let ghost t = v@.subrange(a as int, b as int);
        if b > a && v[a] == '[' && v[b - 1] == ']' {
            return false;
        }
        if !self.in_mania {
            return false;
        }
        if key_value_at(v, a, b, &self.lit_keys).is_some() {
            return false;
        }
        if key_value_at(v, a, b, &self.lit_cw).is_some() {
            return false;
        }
        if ref_panics_at(v, a, b, &self.lit_key_image, &self.lit_d) {
            return true;
        }
        if image_ref_value_at(v, a, b, &self.lit_key_image, &self.lit_d).is_some() {
            return false;
        }
        if image_ref_value_at(v, a, b, &self.lit_key_image, &self.lit_empty).is_some() {
            return false;
        }
        ref_panics_at(v, a, b, &self.lit_note_image, &self.lit_l)
    }

    /// Scans line number `i`, whose characters are `v`.
    fn feed(&mut self, v: &Vec<char>, i: usize)
        requires
            old(self).wf(),
            !line_panics(old(self).view_state(), v@),
        ensures
            final(self).wf(),
            final(self).view_state() == step(old(self).view_state(), i as nat, v@),
    {
        let (a, b) = trim_bounds(v, 0, v.len());
        assert(v@.subrange(0, v@.len() as int) == v@);
        let ghost t = v@.subrange(a as int, b as int);
        if b > a && v[a] == '[' && v[b - 1] == ']' {
            if self.in_mania {
                self.flush(i);
            }
            let m = equals_ci_at(v, a, b, &self.lit_mania);
            self.in_mania = m;
            if m {
                self.section_start = i;
            }
            return;
        }
        assert(!is_header(t));
        if !self.in_mania {
            return;
        }
        if let Some((va, vb)) = key_value_at(v, a, b, &self.lit_keys) {
            self.keys = parse_u32_at(v, va, vb);
            return;
        }
        if let Some((va, vb)) = key_value_at(v, a, b, &self.lit_cw) {
            let f = find_char_at(v, va, vb, ',');
            assert(first_field(v@.subrange(va as int, vb as int)) == v@.subrange(
                va as int,
                f as int,
            ));
            let (fa, fb) = trim_bounds(v, va, f);
            self.column_width = parse_u32_at(v, fa, fb);
            return;
        }
        if let Some((c, na, nb)) = image_ref_value_at(v, a, b, &self.lit_key_image, &self.lit_d) {
            let r = ImageRef { column: c, name: string_of_range(v, na, nb), line: i };
            proof {
                lemma_refs_push(self.key_image_ds@, r);
            }
            self.key_image_ds.push(r);
            return;
        }
        if let Some((c, na, nb)) = image_ref_value_at(v, a, b, &self.lit_key_image, &self.lit_empty) {
            let r = ImageRef { column: c, name: string_of_range(v, na, nb), line: i };
            proof {
                lemma_refs_push(self.key_images@, r);
            }
            self.key_images.push(r);
            return;
        }
        if let Some((c, na, nb)) = image_ref_value_at(v, a, b, &self.lit_note_image, &self.lit_l) {
            let r = ImageRef { column: c, name: string_of_range(v, na, nb), line: i };
            proof {
                lemma_refs_push(self.note_image_ls@, r);
            }
            self.note_image_ls.push(r);
            return;
        }
    }
}

/// `image_ref_panics` on `v[lo..hi]`.
fn ref_panics_at(v: &Vec<char>, lo: usize, hi: usize, prefix: &Vec<char>, suffix: &Vec<char>) -> (b: bool)
    requires
        lo <= hi <= v@.len(),
    ensures
        b == image_ref_panics(v@.subrange(lo as int, hi as int), prefix@, suffix@),
{
    let ghost line = v@.subrange(lo as int, hi as int);
    if !starts_with_fold_at(v, lo, hi, prefix) {
        return false;
    }
    let p0 = lo + prefix.len();
    let ghost ap = line.skip(prefix@.len() as int);
    assert(ap == v@.subrange(p0 as int, hi as int));
    let d_end = digits_end_at(v, p0, hi);
    if d_end == p0 {
        return false;
    }
    assert(ap.take(d_end - p0) == v@.subrange(p0 as int, d_end as int));
    if parse_u32_at(v, p0, d_end).is_none() {
        return false;
    }
    let ghost an = ap.skip(d_end - p0);
    assert(an == v@.subrange(d_end as int, hi as int));
    if suffix.len() != 1 || d_end >= hi {
        return false;
    }
    assert(an[0] == v@[d_end as int]);
    let c = v[d_end];
    (c as u32) >= 128 && c != '\u{212A}' && c != '\u{130}'
}

/// Scans the lines of a skin.ini for `[Mania]` sections.
pub fn parse_mania_sections(lines: &Vec<String>) -> (out: Vec<ManiaSection>)
    requires
        !sections_scan_panics(strings_view(lines@)),
    ensures
        sections_view(out@) == mania_sections(strings_view(lines@)),
{
    let ghost lv = strings_view(lines@);
    let mut i: usize = 0;
    let mut st = SectionScanner::new();
    while i < lines.len()
        invariant
            i <= lines@.len(),
            lv == strings_view(lines@),
            !sections_scan_panics(lv),
            st.view_state() == parse_state(lv, i as nat),
            st.wf(),
        decreases lines@.len() - i,
    {
        let v = chars_of(lines[i].as_str());
        assert(v@ == lv[i as int]);
        assert(!line_panics(parse_state(lv, i as nat), lv[i as int])) by {
            let j = i as int;
            assert(!(0 <= j < lv.len() && line_panics(parse_state(lv, j as nat), lv[j])));
        }
        st.feed(&v, i);
        i += 1;
    }
    if st.in_mania {
        st.flush(lines.len());
    }
    st.sections
}


// ---------------------------------------------------------------------------
// Grouping helpers
// ---------------------------------------------------------------------------

/// Which image references of a section a helper looks at.
pub enum RefKind {
    /// `NoteImage#L`
    NoteL,
    /// `KeyImage#D`
    KeyD,
    /// `KeyImage#`
    Key,
    /// `KeyImage#D` followed by `KeyImage#`
    KeyAll,
}

pub open spec fn refs_of(sec: SectionSpec, kind: RefKind) -> Seq<RefSpec> {
    match kind {
        RefKind::NoteL => sec.note_image_ls,
        RefKind::KeyD => sec.key_image_ds,
        RefKind::Key => sec.key_images,
        RefKind::KeyAll => sec.key_image_ds + sec.key_images,
    }
}

/// A reference as an item: its stem with the `(keys, column_width)` of its section.
pub type RefItem = (Seq<char>, (u32, u32));

pub open spec fn ref_items(refs: Seq<RefSpec>, keys: u32, cw: u32) -> Seq<RefItem> {
    refs.map_values(|r: RefSpec| (r.name, (keys, cw)))
}

/// All references of the given kind, section after section, as items.
pub open spec fn flat_items(secs: Seq<SectionSpec>, kind: RefKind) -> Seq<RefItem>
    decreases secs.len(),
{
    if secs.len() == 0 {
        seq![]
    } else {
        flat_items(secs.drop_last(), kind) + ref_items(
            refs_of(secs.last(), kind),
            secs.last().keys,
            secs.last().column_width,
        )
    }
}

pub open spec fn item_names(items: Seq<RefItem>) -> Seq<Seq<char>> {
    items.map_values(|it: RefItem| it.0)
}

/// The elements of `s` without repetitions, in order of first occurrence.
pub open spec fn distinct(s: Seq<Seq<char>>) -> Seq<Seq<char>>
    decreases s.len(),
{
    if s.len() == 0 {
        seq![]
    } else {
        let d = distinct(s.drop_last());
        if d.contains(s.last()) {
            d
        } else {
            d.push(s.last())
        }
    }
}

/// Lexicographic order on `(keys, column_width)` pairs.
pub open spec fn pair_lt(a: (u32, u32), b: (u32, u32)) -> bool {
    a.0 < b.0 || (a.0 == b.0 && a.1 < b.1)
}

/// Strictly increasing, hence also free of repetitions.
pub open spec fn strictly_sorted(v: Seq<(u32, u32)>) -> bool {
    forall|i: int, j: int| 0 <= i < j < v.len() ==> pair_lt(#[trigger] v[i], #[trigger] v[j])
}

/// A stem together with its sorted, repetition-free `(keys, column_width)` pairs.
pub type StemGroup = (String, Vec<(u32, u32)>);

pub open spec fn group_view(g: Seq<StemGroup>) -> Seq<(Seq<char>, Seq<(u32, u32)>)> {
    g.map_values(|e: StemGroup| (e.0@, e.1@))
}

/// The stems of a grouping, in order.
pub open spec fn group_names(g: Seq<(Seq<char>, Seq<(u32, u32)>)>) -> Seq<Seq<char>> {
    g.map_values(|e: (Seq<char>, Seq<(u32, u32)>)| e.0)
}

/// `g` groups `items` by stem: one group per distinct stem in order of first
/// occurrence, each holding exactly the pairs that occur with that stem, sorted.
pub open spec fn is_grouping(g: Seq<(Seq<char>, Seq<(u32, u32)>)>, items: Seq<RefItem>) -> bool {
    &&& group_names(g) == distinct(item_names(items))
    &&& forall|i: int| 0 <= i < g.len() ==> strictly_sorted(#[trigger] g[i].1)
    &&& forall|i: int, p: (u32, u32)|
        0 <= i < g.len() ==> (#[trigger] g[i].1.contains(p) <==> items.contains((g[i].0, p)))
}

pub proof fn lemma_distinct(s: Seq<Seq<char>>)
    ensures
        forall|x: Seq<char>| #[trigger] distinct(s).contains(x) <==> s.contains(x),
        forall|i: int, j: int|
            0 <= i < j < distinct(s).len() ==> #[trigger] distinct(s)[i] != #[trigger] distinct(s)[j],
    decreases s.len(),
{
    if s.len() > 0 {
        let p = s.drop_last();
        let d = distinct(p);
        let l = s.last();
        lemma_distinct(p);
        assert(s == p.push(l));
        assert forall|x: Seq<char>| #[trigger] distinct(s).contains(x) <==> s.contains(x) by {
            if s.contains(x) {
                let k = choose|k: int| 0 <= k < s.len() && s[k] == x;
                if k < s.len() - 1 {
                    assert(p[k] == x);
                    assert(p.contains(x));
                    assert(d.contains(x));
                    if !d.contains(l) {
                        let m = choose|m: int| 0 <= m < d.len() && d[m] == x;
                        assert(d.push(l)[m] == x);
                    }
                } else {
                    assert(x == l);
                    if !d.contains(l) {
                        assert(d.push(l)[d.len() as int] == x);
                    }
                }
            }
            if distinct(s).contains(x) {
                if d.contains(l) {
                    assert(d.contains(x));
                    assert(p.contains(x));
                    let k = choose|k: int| 0 <= k < p.len() && p[k] == x;
                    assert(s[k] == x);
                } else {
                    let m = choose|m: int| 0 <= m < d.len() + 1 && d.push(l)[m] == x;
                    if m < d.len() {
                        assert(d[m] == x);
                        assert(d.contains(x));
                        let k = choose|k: int| 0 <= k < p.len() && p[k] == x;
                        assert(s[k] == x);
                    } else {
                        assert(s[s.len() - 1] == x);
                    }
                }
            }
        }
        if !d.contains(l) {
            assert forall|i: int, j: int|
                0 <= i < j < distinct(s).len() implies #[trigger] distinct(s)[i] != #[trigger] distinct(s)[j] by {
                if j == d.len() {
                    assert(distinct(s)[j] == l);
                    assert(distinct(s)[i] == d[i]);
                } else {
                    assert(distinct(s)[i] == d[i]);
                    assert(distinct(s)[j] == d[j]);
                }
            }
        }
    }
}

proof fn lemma_ref_items_push(refs: Seq<RefSpec>, keys: u32, cw: u32, j: int)
    requires
        0 <= j < refs.len(),
    ensures
        ref_items(refs, keys, cw).take(j + 1) == ref_items(refs, keys, cw).take(j).push(
            (refs[j].name, (keys, cw)),
        ),
{
    assert(ref_items(refs, keys, cw).take(j + 1) =~= ref_items(refs, keys, cw).take(j).push(
        (refs[j].name, (keys, cw)),
    ));
}

proof fn lemma_item_names_push(items: Seq<RefItem>, x: RefItem)
    ensures
        item_names(items.push(x)) == item_names(items).push(x.0),
{
    assert(item_names(items.push(x)) =~= item_names(items).push(x.0));
}

/// Adds `name` to `out` unless it is there already.
pub(crate) fn add_unique(out: &mut Vec<String>, name: &String)
    ensures
        strings_view(final(out)@) == (if strings_view(old(out)@).contains(name@) {
            strings_view(old(out)@)
        } else {
            strings_view(old(out)@).push(name@)
        }),
{
    let mut i: usize = 0;
    while i < out.len()
        invariant
            i <= out@.len(),
            out@ == old(out)@,
            forall|k: int| 0 <= k < i ==> #[trigger] strings_view(out@)[k] != name@,
        decreases out@.len() - i,
    {
        if out[i] == *name {
            assert(strings_view(out@)[i as int] == name@);
            return;
        }
        i += 1;
    }
    let ghost before = strings_view(out@);
    out.push(name.clone());
    assert(strings_view(out@) =~= before.push(name@));
}

/// Adds the stems of `refs` to `out`, keeping it repetition-free in first-occurrence order.
fn add_unique_refs(out: &mut Vec<String>, refs: &Vec<ImageRef>, Ghost(items): Ghost<Seq<RefItem>>, keys: u32, cw: u32)
    requires
        strings_view(old(out)@) == distinct(item_names(items)),
    ensures
        strings_view(final(out)@) == distinct(item_names(items + ref_items(refs_view(refs@), keys, cw))),
{
    let ghost ri = ref_items(refs_view(refs@), keys, cw);
    let mut j: usize = 0;
    while j < refs.len()
        invariant
            j <= refs@.len(),
            ri == ref_items(refs_view(refs@), keys, cw),
            strings_view(out@) == distinct(item_names(items + ri.take(j as int))),
        decreases refs@.len() - j,
    {
        let ghost pre = items + ri.take(j as int);
        proof {
            lemma_ref_items_push(refs_view(refs@), keys, cw, j as int);
            assert(items + ri.take(j + 1) == pre.push(ri[j as int]));
            lemma_item_names_push(pre, ri[j as int]);
            assert(item_names(pre.push(ri[j as int])).drop_last() == item_names(pre));
        }
        add_unique(out, &refs[j].name);
        j += 1;
    }
    assert(ri.take(refs@.len() as int) == ri);
}


proof fn lemma_flat_items_step(secs: Seq<SectionSpec>, kind: RefKind, i: int)
    requires
        0 <= i < secs.len(),
    ensures
        flat_items(secs.take(i + 1), kind) == flat_items(secs.take(i), kind) + ref_items(
            refs_of(secs[i], kind),
            secs[i].keys,
            secs[i].column_width,
        ),
{
    assert(secs.take(i + 1).drop_last() == secs.take(i));
    assert(secs.take(i + 1).last() == secs[i]);
}

proof fn lemma_ref_items_concat(a: Seq<RefSpec>, b: Seq<RefSpec>, keys: u32, cw: u32)
    ensures
        ref_items(a + b, keys, cw) == ref_items(a, keys, cw) + ref_items(b, keys, cw),
{
    assert(ref_items(a + b, keys, cw) =~= ref_items(a, keys, cw) + ref_items(b, keys, cw));
}

/// The image stems of the given kind, each once, in order of first occurrence.
fn unique_stems(sections: &[ManiaSection], kind: RefKind) -> (out: Vec<String>)
    requires
        !(kind is KeyAll),
    ensures
        strings_view(out@) == distinct(item_names(flat_items(sections_view(sections@), kind))),
{
    let ghost sv = sections_view(sections@);
    let mut out: Vec<String> = Vec::new();
    let mut i: usize = 0;
    assert(sv.take(0) == Seq::<SectionSpec>::empty());
    assert(item_names(flat_items(sv.take(0), kind)) == Seq::<Seq<char>>::empty());
    assert(strings_view(out@) == Seq::<Seq<char>>::empty());
    while i < sections.len()
        invariant
            i <= sections@.len(),
            sv == sections_view(sections@),
            !(kind is KeyAll),
            strings_view(out@) == distinct(item_names(flat_items(sv.take(i as int), kind))),
        decreases sections@.len() - i,
    {
        let sec = &sections[i];
        proof {
            lemma_flat_items_step(sv, kind, i as int);
        }
        match kind {
            RefKind::NoteL => add_unique_refs(&mut out, &sec.note_image_ls, Ghost(flat_items(sv.take(i as int), kind)), sec.keys, sec.column_width),
            RefKind::KeyD => add_unique_refs(&mut out, &sec.key_image_ds, Ghost(flat_items(sv.take(i as int), kind)), sec.keys, sec.column_width),
            _ => add_unique_refs(&mut out, &sec.key_images, Ghost(flat_items(sv.take(i as int), kind)), sec.keys, sec.column_width),
        }
        i += 1;
    }
    assert(sv.take(sections@.len() as int) == sv);
    out
}

/// All distinct `NoteImage#L` stems, across all sections, in order of first occurrence.
pub fn unique_note_image_l_stems(sections: &[ManiaSection]) -> (out: Vec<String>)
    ensures
        strings_view(out@) == distinct(item_names(flat_items(sections_view(sections@), RefKind::NoteL))),
{
    unique_stems(sections, RefKind::NoteL)
}

/// All distinct `KeyImage#D` stems, across all sections, in order of first occurrence.
pub fn unique_key_image_d_stems(sections: &[ManiaSection]) -> (out: Vec<String>)
    ensures
        strings_view(out@) == distinct(item_names(flat_items(sections_view(sections@), RefKind::KeyD))),
{
    unique_stems(sections, RefKind::KeyD)
}

/// All distinct `KeyImage#` stems, across all sections, in order of first occurrence.
pub fn unique_key_image_stems(sections: &[ManiaSection]) -> (out: Vec<String>)
    ensures
        strings_view(out@) == distinct(item_names(flat_items(sections_view(sections@), RefKind::Key))),
{
    unique_stems(sections, RefKind::Key)
}


/// Inserts `p` into the strictly increasing `v` unless it is there already.
fn insert_sorted(v: &mut Vec<(u32, u32)>, p: (u32, u32))
    requires
        strictly_sorted(old(v)@),
    ensures
        strictly_sorted(final(v)@),
        forall|q: (u32, u32)| #[trigger] final(v)@.contains(q) <==> (old(v)@.contains(q) || q == p),
{
    let mut i: usize = 0;
    while i < v.len() && pair_lt_exec(v[i], p)
        invariant
            i <= v@.len(),
            v@ == old(v)@,
            forall|k: int| 0 <= k < i ==> pair_lt(#[trigger] v@[k], p),
        decreases v@.len() - i,
    {
        i += 1;
    }
    if i < v.len() && v[i].0 == p.0 && v[i].1 == p.1 {
        return;
    }
    let ghost old_v = v@;
    proof {
        if i < old_v.len() {
            assert(!pair_lt(old_v[i as int], p));
            assert(old_v[i as int] != p);
            assert(pair_lt(p, old_v[i as int]));
        }
    }
    v.insert(i, p);
    assert forall|a: int, b: int| 0 <= a < b < v@.len() implies pair_lt(#[trigger] v@[a], #[trigger] v@[b]) by {
        if b < i {
        } else if a < i && b == i {
        } else if a < i {
            assert(v@[b] == old_v[b - 1]);
            assert(pair_lt(old_v[a], old_v[b - 1]));
        } else if a == i {
            assert(v@[b] == old_v[b - 1]);
            assert(pair_lt(p, old_v[i as int]));
            if b - 1 > i {
                assert(pair_lt(old_v[i as int], old_v[b - 1]));
            }
        } else {
            assert(v@[a] == old_v[a - 1]);
            assert(v@[b] == old_v[b - 1]);
        }
    }
    assert forall|q: (u32, u32)| #[trigger] v@.contains(q) <==> (old_v.contains(q) || q == p) by {
        if v@.contains(q) {
            let k = choose|k: int| 0 <= k < v@.len() && v@[k] == q;
            if k < i {
                assert(old_v[k] == q);
            } else if k > i {
                assert(old_v[k - 1] == q);
            }
        }
        if old_v.contains(q) {
            let k = choose|k: int| 0 <= k < old_v.len() && old_v[k] == q;
            if k < i {
                assert(v@[k] == q);
            } else {
                assert(v@[k + 1] == q);
            }
        }
        if q == p {
            assert(v@[i as int] == q);
        }
    }
}

fn pair_lt_exec(a: (u32, u32), b: (u32, u32)) -> (r: bool)
    ensures
        r == pair_lt(a, b),
{
    a.0 < b.0 || (a.0 == b.0 && a.1 < b.1)
}

proof fn lemma_items_contains_name(items: Seq<RefItem>, x: RefItem)
    requires
        items.contains(x),
    ensures
        item_names(items).contains(x.0),
{
    let k = choose|k: int| 0 <= k < items.len() && items[k] == x;
    assert(item_names(items)[k] == x.0);
}

proof fn lemma_group_names(g: Seq<StemGroup>)
    ensures
        group_names(group_view(g)).len() == g.len(),
        forall|i: int| 0 <= i < g.len() ==> #[trigger] group_names(group_view(g))[i] == g[i].0@,
{
}

/// Records the item `(name, p)` in `groups`.
fn add_to_groups(groups: &mut Vec<StemGroup>, name: &String, p: (u32, u32), Ghost(items): Ghost<Seq<RefItem>>)
    requires
        is_grouping(group_view(old(groups)@), items),
    ensures
        is_grouping(group_view(final(groups)@), items.push((name@, p))),
{
    let ghost x: RefItem = (name@, p);
    let ghost names = item_names(items);
    let ghost gv0 = group_view(groups@);
    proof {
        lemma_distinct(names);
        lemma_item_names_push(items, x);
        lemma_group_names(groups@);
    }
    let mut k: usize = 0;
    while k < groups.len() && groups[k].0 != *name
        invariant
            k <= groups@.len(),
            groups@ == old(groups)@,
            forall|j: int| 0 <= j < k ==> #[trigger] groups@[j].0@ != name@,
        decreases groups@.len() - k,
    {
        k += 1;
    }
    let ghost gn = group_names(gv0);
    if k < groups.len() {
        assert(gn[k as int] == name@);
        assert(distinct(names).contains(name@));
        assert(distinct(names.push(name@)) == distinct(names)) by {
            assert(names.push(name@).drop_last() == names);
        }
        let (gname, mut pairs) = groups.remove(k);
        proof {
            assert(gv0[k as int].1 == pairs@);
            assert(strictly_sorted(gv0[k as int].1));
        }
        insert_sorted(&mut pairs, p);
        groups.insert(k, (gname, pairs));
        let ghost gv1 = group_view(groups@);
        proof {
            assert(groups@ == old(groups)@.update(k as int, groups@[k as int]));
            assert(group_names(gv1) =~= gn);
            assert forall|i: int| 0 <= i < gv1.len() implies strictly_sorted(#[trigger] gv1[i].1) by {
                if i != k {
                    assert(gv1[i] == gv0[i]);
                }
            }
            assert forall|i: int, q: (u32, u32)|
                0 <= i < gv1.len() implies (#[trigger] gv1[i].1.contains(q) <==> items.push(x).contains((gv1[i].0, q))) by {
                assert(items.push(x).contains((gv1[i].0, q)) <==> (items.contains((gv1[i].0, q)) || (gv1[i].0, q) == x)) by {
                    if items.push(x).contains((gv1[i].0, q)) {
                        let m = choose|m: int| 0 <= m < items.len() + 1 && items.push(x)[m] == (gv1[i].0, q);
                        if m < items.len() {
                            assert(items[m] == (gv1[i].0, q));
                        }
                    }
                    if items.contains((gv1[i].0, q)) {
                        let m = choose|m: int| 0 <= m < items.len() && items[m] == (gv1[i].0, q);
                        assert(items.push(x)[m] == (gv1[i].0, q));
                    }
                    if (gv1[i].0, q) == x {
                        assert(items.push(x)[items.len() as int] == x);
                    }
                }
                if i != k {
                    assert(gv1[i] == gv0[i]);
                    assert(gn[i] != gn[k as int]);
                }
            }
        }
    } else {
        assert(!distinct(names).contains(name@)) by {
            if distinct(names).contains(name@) {
                let j = choose|j: int| 0 <= j < gn.len() && gn[j] == name@;
                assert(groups@[j].0@ == name@);
            }
        }
        assert(distinct(names.push(name@)) == distinct(names).push(name@)) by {
            assert(names.push(name@).drop_last() == names);
        }
        let mut pairs: Vec<(u32, u32)> = Vec::new();
        pairs.push(p);
        let ghost old_g = groups@;
        groups.push((name.clone(), pairs));
        let ghost gv1 = group_view(groups@);
        proof {
            assert(gv1 == gv0.push((name@, seq![p])));
            assert(group_names(gv1) =~= gn.push(name@));
            assert forall|i: int| 0 <= i < gv1.len() implies strictly_sorted(#[trigger] gv1[i].1) by {
                if i < gv0.len() {
                    assert(gv1[i] == gv0[i]);
                }
            }
            assert forall|i: int, q: (u32, u32)|
                0 <= i < gv1.len() implies (#[trigger] gv1[i].1.contains(q) <==> items.push(x).contains((gv1[i].0, q))) by {
                assert(items.push(x).contains((gv1[i].0, q)) <==> (items.contains((gv1[i].0, q)) || (gv1[i].0, q) == x)) by {
                    if items.push(x).contains((gv1[i].0, q)) {
                        let m = choose|m: int| 0 <= m < items.len() + 1 && items.push(x)[m] == (gv1[i].0, q);
                        if m < items.len() {
                            assert(items[m] == (gv1[i].0, q));
                        }
                    }
                    if items.contains((gv1[i].0, q)) {
                        let m = choose|m: int| 0 <= m < items.len() && items[m] == (gv1[i].0, q);
                        assert(items.push(x)[m] == (gv1[i].0, q));
                    }
                    if (gv1[i].0, q) == x {
                        assert(items.push(x)[items.len() as int] == x);
                    }
                }
                if i < gv0.len() {
                    assert(gv1[i] == gv0[i]);
                    assert(gv0[i].0 != name@) by {
                        assert(old_g[i].0@ == gv0[i].0);
                    }
                } else {
                    assert(gv1[i].0 == name@);
                    if items.contains((name@, q)) {
                        lemma_items_contains_name(items, (name@, q));
                    }
                    if gv1[i].1.contains(q) {
                        assert(gv1[i].1 == seq![p]);
                        assert(q == p);
                    }
                    if q == p {
                        assert(gv1[i].1[0] == q);
                    }
                }
            }
        }
    }
}


/// Records every reference of `refs`, with the section's `(keys, cw)`, in `groups`.
fn add_refs_to_groups(
    groups: &mut Vec<StemGroup>,
    refs: &Vec<ImageRef>,
    Ghost(items): Ghost<Seq<RefItem>>,
    keys: u32,
    cw: u32,
)
    requires
        is_grouping(group_view(old(groups)@), items),
    ensures
        is_grouping(group_view(final(groups)@), items + ref_items(refs_view(refs@), keys, cw)),
{
    let ghost ri = ref_items(refs_view(refs@), keys, cw);
    let mut j: usize = 0;
    assert(items + ri.take(0) == items);
    while j < refs.len()
        invariant
            j <= refs@.len(),
            ri == ref_items(refs_view(refs@), keys, cw),
            is_grouping(group_view(groups@), items + ri.take(j as int)),
        decreases refs@.len() - j,
    {
        proof {
            lemma_ref_items_push(refs_view(refs@), keys, cw, j as int);
            assert(items + ri.take(j + 1) == (items + ri.take(j as int)).push((refs@[j as int].name@, (keys, cw))));
        }
        add_to_groups(groups, &refs[j].name, (keys, cw), Ghost(items + ri.take(j as int)));
        j += 1;
    }
    assert(ri.take(refs@.len() as int) == ri);
}

/// Groups the references of the given kind by stem.
fn group_by_stem(sections: &[ManiaSection], kind: RefKind) -> (out: Vec<StemGroup>)
    ensures
        is_grouping(group_view(out@), flat_items(sections_view(sections@), kind)),
{
    let ghost sv = sections_view(sections@);
    let mut out: Vec<StemGroup> = Vec::new();
    let mut i: usize = 0;
    proof {
        assert(sv.take(0) == Seq::<SectionSpec>::empty());
        let e = flat_items(sv.take(0), kind);
        assert(e == Seq::<RefItem>::empty());
        assert(item_names(e) == Seq::<Seq<char>>::empty());
        assert(group_names(group_view(out@)) == Seq::<Seq<char>>::empty());
    }
    while i < sections.len()
        invariant
            i <= sections@.len(),
            sv == sections_view(sections@),
            is_grouping(group_view(out@), flat_items(sv.take(i as int), kind)),
        decreases sections@.len() - i,
    {
        let sec = &sections[i];
        let ghost before = flat_items(sv.take(i as int), kind);
        proof {
            lemma_flat_items_step(sv, kind, i as int);
        }
        match kind {
            RefKind::NoteL => add_refs_to_groups(&mut out, &sec.note_image_ls, Ghost(before), sec.keys, sec.column_width),
            RefKind::KeyD => add_refs_to_groups(&mut out, &sec.key_image_ds, Ghost(before), sec.keys, sec.column_width),
            RefKind::Key => add_refs_to_groups(&mut out, &sec.key_images, Ghost(before), sec.keys, sec.column_width),
            RefKind::KeyAll => {
                add_refs_to_groups(&mut out, &sec.key_image_ds, Ghost(before), sec.keys, sec.column_width);
                let ghost mid = before + ref_items(refs_view(sec.key_image_ds@), sec.keys, sec.column_width);
                add_refs_to_groups(&mut out, &sec.key_images, Ghost(mid), sec.keys, sec.column_width);
                proof {
                    lemma_ref_items_concat(refs_view(sec.key_image_ds@), refs_view(sec.key_images@), sec.keys, sec.column_width);
                    assert(mid + ref_items(refs_view(sec.key_images@), sec.keys, sec.column_width) == before + ref_items(
                        refs_view(sec.key_image_ds@) + refs_view(sec.key_images@), sec.keys, sec.column_width));
                }
            },
        }
        i += 1;
    }
    assert(sv.take(sections@.len() as int) == sv);
    out
}

/// `NoteImage#L` references grouped by stem: each stem once, in order of first
/// occurrence, with the sorted, repetition-free `(keys, column_width)` pairs of the
/// sections that reference it.
pub fn group_note_image_l_by_stem(sections: &[ManiaSection]) -> (out: Vec<StemGroup>)
    ensures
        is_grouping(group_view(out@), flat_items(sections_view(sections@), RefKind::NoteL)),
{
    group_by_stem(sections, RefKind::NoteL)
}

/// `KeyImage#D` references grouped by stem (see [`group_note_image_l_by_stem`]).
pub fn group_key_image_d_by_stem(sections: &[ManiaSection]) -> (out: Vec<StemGroup>)
    ensures
        is_grouping(group_view(out@), flat_items(sections_view(sections@), RefKind::KeyD)),
{
    group_by_stem(sections, RefKind::KeyD)
}

/// `KeyImage#` and `KeyImage#D` references grouped together by stem: a stem used by
/// both kinds forms one group.
pub fn group_key_images_by_stem(sections: &[ManiaSection]) -> (out: Vec<StemGroup>)
    ensures
        is_grouping(group_view(out@), flat_items(sections_view(sections@), RefKind::KeyAll)),
{
    group_by_stem(sections, RefKind::KeyAll)
}

} // verus!
