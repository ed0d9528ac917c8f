//! Key counts of the `[Mania]` sections of a skin.ini, for key-count discovery.
use vstd::prelude::*;

use crate::skin_ini::is_header;
use crate::text::{
    chars_of, decimal, equals_ci, equals_ci_at, parse_u32, parse_u32_at, push_decimal, push_str,
    split_lines, starts_with, starts_with_at, strings_view, trim, trim_bounds, lines,
};

verus! {

/// One `[Mania]` section that declares `Keys`.
#[derive(Debug, Clone)]
pub struct ManiaKeyConfig {
    pub keys: u32,
    /// First line of the section (0-based).
    pub line_start: usize,
}

/// Outcome of a key-count lookup.
#[derive(Debug)]
pub struct KeyFinderResult {
    pub success: bool,
    pub message: String,
    /// The distinct key counts, ascending.
    pub keys: Vec<u32>,
    pub configs: Vec<ManiaKeyConfig>,
}

/// State of the key scanner: in a `[Mania]` section, its `Keys`, its first line,
/// and the configurations found so far as `(keys, line_start)`.
pub struct KeyScan {
    pub in_mania: bool,
    pub keys: Option<u32>,
    pub start: nat,
    pub configs: Seq<(u32, nat)>,
}

/// The `Keys` value of a trimmed line: after `Keys:` or `keys:` (exactly these two
/// spellings), trimmed and read as a `u32`.
pub open spec fn keys_line_value(t: Seq<char>) -> Option<u32> {
    if starts_with(t, "Keys:"@) || starts_with(t, "keys:"@) {
        parse_u32(trim(t.skip(5)))
    } else {
        None
    }
}

pub open spec fn close_key_section(st: KeyScan) -> Seq<(u32, nat)> {
    if st.in_mania && st.keys is Some {
        st.configs.push((st.keys->0, st.start))
    } else {
        st.configs
    }
}

pub open spec fn key_step(st: KeyScan, i: nat, line: Seq<char>) -> KeyScan {
    let t = trim(line);
    if is_header(t) {
        let m = equals_ci(t, "[Mania]"@);
        KeyScan {
            in_mania: m,
            keys: None,
            start: if m { i } else { st.start },
            configs: close_key_section(st),
        }
    } else if st.in_mania && keys_line_value(t) is Some {
        KeyScan { keys: keys_line_value(t), ..st }
    } else {
        st
    }
}

pub open spec fn key_scan(lines: Seq<Seq<char>>, i: nat) -> KeyScan
    decreases i,
{
    if i == 0 || i > lines.len() {
        KeyScan { in_mania: false, keys: None, start: 0, configs: seq![] }
    } else {
        key_step(key_scan(lines, (i - 1) as nat), (i - 1) as nat, lines[i - 1])
    }
}

/// The `(keys, line_start)` of every `[Mania]` section of `text` that has a valid `Keys`.
pub open spec fn key_configs(text: Seq<char>) -> Seq<(u32, nat)> {
    let ls = lines(text);
    close_key_section(key_scan(ls, ls.len()))
}

pub open spec fn configs_view(v: Seq<ManiaKeyConfig>) -> Seq<(u32, nat)> {
    v.map_values(|c: ManiaKeyConfig| (c.keys, c.line_start as nat))
}

fn keys_line_value_at(v: &Vec<char>, lo: usize, hi: usize) -> (r: Option<u32>)
    requires
        lo <= hi <= v@.len(),
    ensures
        r == keys_line_value(v@.subrange(lo as int, hi as int)),
{
    let ghost t = v@.subrange(lo as int, hi as int);
    let p1 = chars_of("Keys:");
    let p2 = chars_of("keys:");
    proof {
        reveal_strlit("Keys:");
        reveal_strlit("keys:");
    }
    if starts_with_at(v, lo, hi, &p1) || starts_with_at(v, lo, hi, &p2) {
        assert(t.len() >= 5);
        let (a, b) = trim_bounds(v, lo + 5, hi);
        assert(t.skip(5) == v@.subrange(lo + 5, hi as int));
        parse_u32_at(v, a, b)
    } else {
        None
    }
}

proof fn lemma_configs_push(v: Seq<ManiaKeyConfig>, c: ManiaKeyConfig)
    ensures
        configs_view(v.push(c)) == configs_view(v).push((c.keys, c.line_start as nat)),
{
    assert(configs_view(v.push(c)) =~= configs_view(v).push((c.keys, c.line_start as nat)));
}

/// Reads the key counts of all `[Mania]` sections of a skin.ini text.
pub fn parse_mania_key_configs(content: &str) -> (configs: Vec<ManiaKeyConfig>)
    ensures
        configs_view(configs@) == key_configs(content@),
{
    let lns = split_lines(content);
    let ghost lv = strings_view(lns@);
    let mut configs: Vec<ManiaKeyConfig> = Vec::new();
    let mut in_mania = false;
    let mut current_keys: Option<u32> = None;
    let mut section_start: usize = 0;
    let mania = chars_of("[Mania]");
    let mut i: usize = 0;
    while i < lns.len()
        invariant
            i <= lns@.len(),
            lv == strings_view(lns@),
            lv == lines(content@),
            mania@ == "[Mania]"@,
            ({
                let st = key_scan(lv, i as nat);
                &&& st.in_mania == in_mania
                &&& st.keys == current_keys
                &&& st.start == section_start
                &&& st.configs == configs_view(configs@)
            }),
            section_start <= i,
        decreases lns@.len() - i,
    {
        let v = chars_of(lns[i].as_str());
        assert(v@ == lv[i as int]);
        let (a, b) = trim_bounds(&v, 0, v.len());
        assert(v@.subrange(0, v@.len() as int) == v@);
        let ghost t = v@.subrange(a as int, b as int);
        if b > a && v[a] == '[' && v[b - 1] == ']' {
            assert(is_header(t)) by {
                assert(t[0] == v@[a as int]);
                assert(t.last() == v@[b - 1]);
            }
            if in_mania {
                if let Some(k) = current_keys {
                    let ghost before = configs@;
                    configs.push(ManiaKeyConfig { keys: k, line_start: section_start });
                    proof {
                        lemma_configs_push(before, ManiaKeyConfig { keys: k, line_start: section_start });
                    }
                }
            }
            in_mania = equals_ci_at(&v, a, b, &mania);
            current_keys = None;
            if in_mania {
                section_start = i;
            }
        } else {
            assert(!is_header(t)) by {
                if t.len() > 0 {
                    assert(t[0] == v@[a as int]);
                    assert(t.last() == v@[b - 1]);
                }
            }
            if in_mania {
                let kv = keys_line_value_at(&v, a, b);
                if kv.is_some() {
                    current_keys = kv;
                }
            }
        }
        i += 1;
    }
    if in_mania {
        if let Some(k) = current_keys {
            let ghost before = configs@;
            configs.push(ManiaKeyConfig { keys: k, line_start: section_start });
            proof {
                lemma_configs_push(before, ManiaKeyConfig { keys: k, line_start: section_start });
            }
        }
    }
    configs
}


/// Inserts `k` into the strictly increasing `v` unless it is there already.
pub(crate) fn insert_sorted_u32(v: &mut Vec<u32>, k: u32)
    requires
        forall|a: int, b: int| 0 <= a < b < old(v)@.len() ==> #[trigger] old(v)@[a] < #[trigger] old(v)@[b],
    ensures
        forall|a: int, b: int| 0 <= a < b < final(v)@.len() ==> #[trigger] final(v)@[a] < #[trigger] final(v)@[b],
        forall|q: u32| #[trigger] final(v)@.contains(q) <==> (old(v)@.contains(q) || q == k),
{
    let mut i: usize = 0;
    while i < v.len() && v[i] < k
        invariant
            i <= v@.len(),
            v@ == old(v)@,
            forall|j: int| 0 <= j < i ==> #[trigger] v@[j] < k,
        decreases v@.len() - i,
    {
        i += 1;
    }
    if i < v.len() && v[i] == k {
        return;
    }
    let ghost o = v@;
    v.insert(i, k);
    assert forall|a: int, b: int| 0 <= a < b < v@.len() implies #[trigger] v@[a] < #[trigger] v@[b] by {
        if b < i {
        } else if a < i && b == i {
        } else if a < i {
            assert(v@[b] == o[b - 1]);
        } else if a == i {
            assert(v@[b] == o[b - 1]);
            assert(o[i as int] >= k);
            if b - 1 > i {
                assert(o[i as int] < o[b - 1]);
            }
        } else {
            assert(v@[a] == o[a - 1]);
            assert(v@[b] == o[b - 1]);
        }
    }
    assert forall|q: u32| #[trigger] v@.contains(q) <==> (o.contains(q) || q == k) by {
        if v@.contains(q) {
            let j = choose|j: int| 0 <= j < v@.len() && v@[j] == q;
            if j < i {
                assert(o[j] == q);
            } else if j > i {
                assert(o[j - 1] == q);
            }
        }
        if o.contains(q) {
            let j = choose|j: int| 0 <= j < o.len() && o[j] == q;
            if j < i {
                assert(v@[j] == q);
            } else {
                assert(v@[j + 1] == q);
            }
        }
        if q == k {
            assert(v@[i as int] == q);
        }
    }
}

/// The message of a successful lookup: how many `[Mania]` configurations were found.
pub open spec fn found_message(n: nat) -> Seq<char> {
    "找到 "@ + decimal(n) + " 个 [Mania] 配置"@
}

/// Key-count lookup on the text of a skin.ini: the configurations, and their distinct
/// key counts in ascending order.
pub fn find_keys_in_text(content: &str) -> (r: KeyFinderResult)
    ensures
        r.success,
        configs_view(r.configs@) == key_configs(content@),
        r.message@ == found_message(r.configs@.len() as nat),
        forall|a: int, b: int| 0 <= a < b < r.keys@.len() ==> #[trigger] r.keys@[a] < #[trigger] r.keys@[b],
        forall|k: u32| #[trigger] r.keys@.contains(k) <==> exists|i: int|
            0 <= i < r.configs@.len() && #[trigger] r.configs@[i].keys == k,
{
    let configs = parse_mania_key_configs(content);
    let mut keys: Vec<u32> = Vec::new();
    let mut i: usize = 0;
    while i < configs.len()
        invariant
            i <= configs@.len(),
            forall|a: int, b: int| 0 <= a < b < keys@.len() ==> #[trigger] keys@[a] < #[trigger] keys@[b],
            forall|k: u32| #[trigger] keys@.contains(k) <==> exists|j: int|
                0 <= j < i && #[trigger] configs@[j].keys == k,
        decreases configs@.len() - i,
    {
        insert_sorted_u32(&mut keys, configs[i].keys);
        assert forall|k: u32| #[trigger] keys@.contains(k) <==> exists|j: int|
            0 <= j < i + 1 && #[trigger] configs@[j].keys == k by {
            if keys@.contains(k) && k != configs@[i as int].keys {
                let j = choose|j: int| 0 <= j < i && #[trigger] configs@[j].keys == k;
                assert(0 <= j < i + 1 && configs@[j].keys == k);
            }
            if exists|j: int| 0 <= j < i + 1 && #[trigger] configs@[j].keys == k {
                let j = choose|j: int| 0 <= j < i + 1 && #[trigger] configs@[j].keys == k;
                if j < i {
                    assert(exists|j2: int| 0 <= j2 < i && #[trigger] configs@[j2].keys == k);
                }
            }
        }
        i += 1;
    }
    let mut message = String::new();
    push_str(&mut message, "找到 ");
    push_decimal(&mut message, configs.len() as u64);
    push_str(&mut message, " 个 [Mania] 配置");
    KeyFinderResult { success: true, message, keys, configs }
}

} // verus!
