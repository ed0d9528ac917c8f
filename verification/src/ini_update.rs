//! In-place edits of image entries in the `[Mania]` sections of a skin.ini text.
use vstd::prelude::*;

use crate::skin_ini::{is_header, key_value, key_value_at};
use crate::text::{
    chars_of, decimal, equals_ci, equals_ci_at, find_char_at, index_of, join_lines,
    join_with_newlines, lines, parse_u32, parse_u32_at, push_decimal, push_str, split_lines,
    starts_with_fold, starts_with_fold_at, string_of_range, strings_view, trim, trim_bounds,
};

verus! {

/// Which entry of a section an edit rewrites.
#[derive(Clone, Copy, PartialEq, Eq, Debug)]
pub enum IniEntry {
    /// `NoteImage<col>L`
    NoteL,
    /// `KeyImage<col>` (not `KeyImage<col>D`)
    Key,
    /// `KeyImage<col>D`
    KeyD,
}

/// Whether the trimmed line `t` is the entry for column `col`: the lowercased line starts
/// with the lowercased entry name (see [`starts_with_fold`]).
pub open spec fn entry_matches(t: Seq<char>, col: nat, entry: IniEntry) -> bool {
    match entry {
        IniEntry::NoteL => starts_with_fold(t, "noteimage"@ + decimal(col) + "l"@),
        IniEntry::KeyD => starts_with_fold(t, "keyimage"@ + decimal(col) + "d:"@),
        IniEntry::Key => starts_with_fold(t, "keyimage"@ + decimal(col) + ":"@) && !starts_with_fold(
            t,
            "keyimage"@ + decimal(col) + "d:"@,
        ),
    }
}

/// Scanner state: inside a `[Mania]` section, and that section's `Keys` so far.
pub open spec fn edit_step(st: (bool, Option<u32>), line: Seq<char>) -> (bool, Option<u32>) {
    let t = trim(line);
    let st1 = if is_header(t) {
        (equals_ci(t, "[Mania]"@), None)
    } else {
        st
    };
    if st1.0 {
        match key_value(t, "Keys:"@) {
            Some(v) => (st1.0, parse_u32(v)),
            None => st1,
        }
    } else {
        st1
    }
}

/// State after the first `i` lines.
pub open spec fn edit_state(ls: Seq<Seq<char>>, i: nat) -> (bool, Option<u32>)
    decreases i,
{
    if i == 0 || i > ls.len() {
        (false, None)
    } else {
        edit_step(edit_state(ls, (i - 1) as nat), ls[i - 1])
    }
}

/// Line `i` is the entry to rewrite: it lies in a `[Mania]` section whose `Keys`
/// (as read up to and including this line) is `keys`, matches the entry, and has a colon.
pub open spec fn rewrites(ls: Seq<Seq<char>>, i: int, keys: u32, col: u32, entry: IniEntry) -> bool {
    let st = edit_state(ls, (i + 1) as nat);
    &&& st.0
    &&& st.1 == Some(keys)
    &&& entry_matches(trim(ls[i]), col as nat, entry)
    &&& ls[i].contains(':')
}

/// Line `i` after the edit: up to and including its first colon, a blank, the new value.
pub open spec fn edited_line(
    ls: Seq<Seq<char>>,
    i: int,
    keys: u32,
    col: u32,
    entry: IniEntry,
    value: Seq<char>,
) -> Seq<char> {
    if rewrites(ls, i, keys, col, entry) {
        ls[i].take(index_of(ls[i], ':') + 1) + " "@ + value
    } else {
        ls[i]
    }
}

pub open spec fn edited_lines(
    ls: Seq<Seq<char>>,
    keys: u32,
    col: u32,
    entry: IniEntry,
    value: Seq<char>,
) -> Seq<Seq<char>> {
    Seq::new(ls.len(), |i: int| edited_line(ls, i, keys, col, entry, value))
}

/// The error message when no line was rewritten.
pub open spec fn not_found_message(keys: u32, col: u32, entry: IniEntry) -> Seq<char> {
    "未在 "@ + decimal(keys as nat) + match entry {
        IniEntry::NoteL => "k 小节中找到 NoteImage"@ + decimal(col as nat) + "L 行"@,
        IniEntry::Key => "k 小节中找到 KeyImage#"@ + decimal(col as nat) + " 行"@,
        IniEntry::KeyD => "k 小节中找到 KeyImage#D"@ + decimal(col as nat) + " 行"@,
    }
}

/// The result of an edit of `content`: the text with every matching line rewritten,
/// its lines joined by `'\n'`, or the error when no line matched.
pub open spec fn edit_result(
    content: Seq<char>,
    keys: u32,
    col: u32,
    entry: IniEntry,
    value: Seq<char>,
) -> Result<Seq<char>, Seq<char>> {
    let ls = lines(content);
    if exists|i: int| 0 <= i < ls.len() && #[trigger] rewrites(ls, i, keys, col, entry) {
        Ok(join_lines(edited_lines(ls, keys, col, entry, value)))
    } else {
        Err(not_found_message(keys, col, entry))
    }
}

pub open spec fn result_view(r: Result<String, String>) -> Result<Seq<char>, Seq<char>> {
    match r {
        Ok(s) => Ok(s@),
        Err(e) => Err(e@),
    }
}

/// The pattern that `entry_matches` compares with, as characters.
fn entry_pattern(col: u32, entry: IniEntry, with_d: bool) -> (p: Vec<char>)
    ensures
        p@ == (match entry {
            IniEntry::NoteL => "noteimage"@ + decimal(col as nat) + "l"@,
            _ => if with_d {
                "keyimage"@ + decimal(col as nat) + "d:"@
            } else {
                "keyimage"@ + decimal(col as nat) + ":"@
            },
        }),
{
    let mut s = String::new();
    match entry {
        IniEntry::NoteL => {
            push_str(&mut s, "noteimage");
            push_decimal(&mut s, col as u64);
            push_str(&mut s, "l");
        },
        _ => {
            push_str(&mut s, "keyimage");
            push_decimal(&mut s, col as u64);
            if with_d {
                push_str(&mut s, "d:");
            } else {
                push_str(&mut s, ":");
            }
        },
    }
    chars_of(s.as_str())
}

fn not_found_error(keys: u32, col: u32, entry: IniEntry) -> (e: String)
    ensures
        e@ == not_found_message(keys, col, entry),
{
    let mut s = String::new();
    push_str(&mut s, "未在 ");
    push_decimal(&mut s, keys as u64);
    match entry {
        IniEntry::NoteL => {
            push_str(&mut s, "k 小节中找到 NoteImage");
            push_decimal(&mut s, col as u64);
            push_str(&mut s, "L 行");
        },
        IniEntry::Key => {
            push_str(&mut s, "k 小节中找到 KeyImage#");
            push_decimal(&mut s, col as u64);
            push_str(&mut s, " 行");
        },
        IniEntry::KeyD => {
            push_str(&mut s, "k 小节中找到 KeyImage#D");
            push_decimal(&mut s, col as u64);
            push_str(&mut s, " 行");
        },
    }
    s
}

/// Rewrites the given entry of the `[Mania]` sections with `Keys: keys` in `content`.
pub fn edit_mania_entry(content: &str, keys: u32, col: u32, entry: IniEntry, new_value: &str) -> (r: Result<String, String>)
    ensures
        result_view(r) == edit_result(content@, keys, col, entry, new_value@),
{
    let lns = split_lines(content);
    let ghost ls = strings_view(lns@);
    let mania = chars_of("[Mania]");
    let keys_key = chars_of("Keys:");
    let pat = entry_pattern(col, entry, false);
    let pat_d = entry_pattern(col, entry, true);
    let mut new_lines: Vec<String> = Vec::new();
    let mut in_target = false;
    let mut section_keys: Option<u32> = None;
    let mut found = false;
    let mut i: usize = 0;
    while i < lns.len()
        invariant
            i <= lns@.len(),
            ls == strings_view(lns@),
            ls == lines(content@),
            mania@ == "[Mania]"@,
            keys_key@ == "Keys:"@,
            pat@ == (match entry {
                IniEntry::NoteL => "noteimage"@ + decimal(col as nat) + "l"@,
                _ => "keyimage"@ + decimal(col as nat) + ":"@,
            }),
            pat_d@ == (match entry {
                IniEntry::NoteL => "noteimage"@ + decimal(col as nat) + "l"@,
                _ => "keyimage"@ + decimal(col as nat) + "d:"@,
            }),
            edit_state(ls, i as nat) == (in_target, section_keys),
            new_lines@.len() == i,
            forall|k: int| 0 <= k < i ==> #[trigger] new_lines@[k]@ == edited_line(ls, k, keys, col, entry, new_value@),
            found <==> exists|k: int| 0 <= k < i && #[trigger] rewrites(ls, k, keys, col, entry),
        decreases lns@.len() - i,
    {
        let v = chars_of(lns[i].as_str());
        assert(v@ == ls[i as int]);
        let (a, b) = trim_bounds(&v, 0, v.len());
        assert(v@.subrange(0, v@.len() as int) == v@);
        let ghost t = v@.subrange(a as int, b as int);
        if b > a && v[a] == '[' && v[b - 1] == ']' {
            assert(is_header(t)) by {
                assert(t[0] == v@[a as int]);
                assert(t.last() == v@[b - 1]);
            }
            in_target = equals_ci_at(&v, a, b, &mania);
            section_keys = None;
        } else {
            assert(!is_header(t)) by {
                if t.len() > 0 {
                    assert(t[0] == v@[a as int]);
                    assert(t.last() == v@[b - 1]);
                }
            }
        }
        let mut replaced = false;
        if in_target {
            match key_value_at(&v, a, b, &keys_key) {
                Some((ka, kb)) => {
                    section_keys = parse_u32_at(&v, ka, kb);
                },
                None => {},
            }
            assert(edit_state(ls, (i + 1) as nat) == (in_target, section_keys));
            let keys_ok = match section_keys {
                Some(k) => k == keys,
                None => false,
            };
            if keys_ok {
                let matched = match entry {
                    IniEntry::NoteL => starts_with_fold_at(&v, a, b, &pat),
                    IniEntry::KeyD => starts_with_fold_at(&v, a, b, &pat_d),
                    IniEntry::Key => starts_with_fold_at(&v, a, b, &pat) && !starts_with_fold_at(&v, a, b, &pat_d),
                };
                assert(matched == entry_matches(t, col as nat, entry));
                if matched {
                    let c = find_char_at(&v, 0, v.len(), ':');
                    proof {
                        lemma_contains_index_of(v@, ':');
                    }
                    if c < v.len() {
                        let mut line = string_of_range(&v, 0, c + 1);
                        push_str(&mut line, " ");
                        push_str(&mut line, new_value);
                        assert(rewrites(ls, i as int, keys, col, entry));
                        assert(v@.subrange(0, c + 1) == ls[i as int].take(c + 1));
                        new_lines.push(line);
                        found = true;
                        replaced = true;
                    }
                }
            }
        } else {
            assert(edit_state(ls, (i + 1) as nat) == (in_target, section_keys));
        }
        if !replaced {
            assert(!rewrites(ls, i as int, keys, col, entry));
            new_lines.push(lns[i].clone());
        }
        i += 1;
    }
    let ghost el = edited_lines(ls, keys, col, entry, new_value@);
    if found {
        assert(strings_view(new_lines@) =~= el);
        let out = join_with_newlines(&new_lines);
        Ok(out)
    } else {
        Err(not_found_error(keys, col, entry))
    }
}

proof fn lemma_contains_index_of(s: Seq<char>, c: char)
    ensures
        s.contains(c) <==> index_of(s, c) < s.len(),
{
    crate::text::lemma_index_of_bounds(s, c);
    if s.contains(c) {
        let k = choose|k: int| 0 <= k < s.len() && s[k] == c;
        assert(!(index_of(s, c) >= s.len()) || s[k] != c);
    }
}

/// Rewrites the value of `NoteImage<col>L` in the `[Mania]` sections with `Keys: keys`.
pub fn update_note_image_l_in_ini(content: &str, keys: u32, col: u32, new_value: &str) -> (r: Result<String, String>)
    ensures
        result_view(r) == edit_result(content@, keys, col, IniEntry::NoteL, new_value@),
{
    edit_mania_entry(content, keys, col, IniEntry::NoteL, new_value)
}

/// Rewrites the value of `KeyImage<col>D` (`is_d`) or `KeyImage<col>` in the
/// `[Mania]` sections with `Keys: keys`.
pub fn update_key_image_in_ini(content: &str, keys: u32, col: u32, is_d: bool, new_value: &str) -> (r: Result<String, String>)
    ensures
        result_view(r) == edit_result(
            content@,
            keys,
            col,
            if is_d { IniEntry::KeyD } else { IniEntry::Key },
            new_value@,
        ),
{
    let entry = if is_d { IniEntry::KeyD } else { IniEntry::Key };
    edit_mania_entry(content, keys, col, entry, new_value)
}

} // verus!
