//! Preset images: decoding the data URLs of built-in and user presets, and finding the
//! image files of skin-local presets.
use vstd::prelude::*;

use crate::image::{Image, ImageSpec, decode_image, image_decoded};
use crate::skin_files::{first_found, first_found_index, lemma_first_found_index, joined_path, path_exists, path_join};
use crate::text::{chars_of, index_of, push_str, string_of_range, strings_view};

verus! {

/// What the standard base64 engine decodes from `text`, or the text of its error.
pub uninterp spec fn base64_decoded(text: Seq<char>) -> Result<Seq<u8>, Seq<char>>;

/// Decodes standard base64 (`base64::engine::general_purpose::STANDARD`).
///
/// Trusted: the bytes, or the error's text, are named `base64_decoded(text)`; the
/// alphabet and padding rules are the crate's.
#[verifier::external_body]
fn base64_decode(text: &str) -> (r: Result<Vec<u8>, String>)
    ensures
        match r {
            Ok(b) => base64_decoded(text@) == Ok::<Seq<u8>, Seq<char>>(b@),
            Err(e) => base64_decoded(text@) == Err::<Seq<u8>, Seq<char>>(e@),
        },
{
    base64::Engine::decode(&base64::engine::general_purpose::STANDARD, text).map_err(|e| e.to_string())
}

/// The second comma-separated field of `url` (`split(',').nth(1)`), if there is one.
pub open spec fn data_url_payload(url: Seq<char>) -> Option<Seq<char>> {
    let c = index_of(url, ',');
    if c >= url.len() {
        None
    } else {
        let rest = url.skip(c + 1);
        Some(rest.take(index_of(rest, ',')))
    }
}

/// The image of a data URL, or the error text.
pub open spec fn data_url_image(url: Seq<char>) -> Result<ImageSpec, Seq<char>> {
    match data_url_payload(url) {
        None => Err("无效的 data URL"@),
        Some(b64) => match base64_decoded(b64) {
            Err(e) => Err("base64 解码失败: "@ + e),
            Ok(bytes) => match image_decoded(bytes) {
                Err(e) => Err("图片解码失败: "@ + e),
                Ok(img) => Ok(img),
            },
        },
    }
}

/// Decodes the image of a `data:image/...;base64,...` URL.
pub fn decode_data_url(url: &str) -> (r: Result<Image, String>)
    ensures
        match r {
            Ok(img) => data_url_image(url@) == Ok::<ImageSpec, Seq<char>>(img@),
            Err(e) => data_url_image(url@) == Err::<ImageSpec, Seq<char>>(e@),
        },
{
    let v = chars_of(url);
    let n = v.len();
    let c = crate::text::find_char_at(&v, 0, n, ',');
    assert(v@.subrange(0, n as int) == v@);
    if c >= n {
        let mut e = String::new();
        push_str(&mut e, "无效的 data URL");
        return Err(e);
    }
    let c2 = crate::text::find_char_at(&v, c + 1, n, ',');
    assert(v@.subrange(c + 1, n as int) == v@.skip(c + 1));
    let b64 = string_of_range(&v, c + 1, c2);
    assert(b64@ == v@.skip(c + 1).take(c2 - (c + 1)));
    match base64_decode(b64.as_str()) {
        Err(e) => {
            let mut m = String::new();
            push_str(&mut m, "base64 解码失败: ");
            push_str(&mut m, e.as_str());
            Err(m)
        },
        Ok(bytes) => match decode_image(bytes.as_slice()) {
            Err(e) => {
                let mut m = String::new();
                push_str(&mut m, "图片解码失败: ");
                push_str(&mut m, e.as_str());
                Err(m)
            },
            Ok(img) => Ok(img),
        },
    }
}

/// The extensions tried for a preset image, in order.
pub open spec fn preset_exts() -> Seq<Seq<char>> {
    seq!["png"@, "jpg"@, "jpeg"@, "bmp"@, "webp"@, "gif"@]
}

/// The paths tried for the preset image `name`: `presets/<name>.<ext>` under the skin
/// directory for each extension, then `<name>.<ext>` in the skin directory.
pub open spec fn preset_candidates(skin_dir: Seq<char>, name: Seq<char>) -> Seq<Seq<char>> {
    Seq::new(12, |i: int| if i < 6 {
        joined_path(joined_path(skin_dir, "presets"@), name + "."@ + preset_exts()[i])
    } else {
        joined_path(skin_dir, name + "."@ + preset_exts()[i - 6])
    })
}

fn preset_ext(i: usize) -> (e: &'static str)
    requires
        i < 6,
    ensures
        e@ == preset_exts()[i as int],
{
    if i == 0 { "png" } else if i == 1 { "jpg" } else if i == 2 { "jpeg" } else if i == 3 { "bmp" } else if i == 4 { "webp" } else { "gif" }
}

/// The first existing preset image file for `name` (see [`preset_candidates`]).
///
/// The candidates are probed in order until one exists; which exist is the file system's
/// answer, and [`first_found`] gives the result for the answers.
pub fn find_preset_image_file(skin_dir: &str, name: &str) -> (r: Option<String>)
    ensures
        r matches Some(p) ==> exists|k: int| 0 <= k < 12 && p@ == #[trigger] preset_candidates(skin_dir@, name@)[k],
{
    let presets_dir = path_join(skin_dir, "presets");
    let mut paths: Vec<String> = Vec::new();
    let mut found: Vec<bool> = Vec::new();
    let mut hit = false;
    let mut i: usize = 0;
    while i < 12 && !hit
        invariant
            i <= 12,
            presets_dir@ == joined_path(skin_dir@, "presets"@),
            paths@.len() == i,
            found@.len() == i,
            forall|k: int| 0 <= k < i ==> (#[trigger] paths@[k])@ == preset_candidates(skin_dir@, name@)[k],
        decreases 12 - i,
    {
        let mut file = String::new();
        push_str(&mut file, name);
        push_str(&mut file, ".");
        push_str(&mut file, preset_ext(if i < 6 { i } else { i - 6 }));
        let p = if i < 6 {
            path_join(presets_dir.as_str(), file.as_str())
        } else {
            path_join(skin_dir, file.as_str())
        };
        assert(p@ == preset_candidates(skin_dir@, name@)[i as int]);
        hit = path_exists(p.as_str());
        paths.push(p);
        found.push(hit);
        i += 1;
    }
    let r = first_found(&paths, &found);
    proof {
        if r is Some {
            let k = choose|k: int|
                0 <= k < paths@.len() && k < found@.len() && found@[k] && r->0@ == (#[trigger] paths@[k])@
                    && forall|t: int| 0 <= t < k ==> !#[trigger] found@[t];
            assert(r->0@ == preset_candidates(skin_dir@, name@)[k]);
        }
    }
    r
}


/// The paths tried when the toolbox resolves the preset `name`: for `png`, `jpg` and `jpeg`
/// in turn, `presets/<name>.<ext>` under the skin directory, then `<name>.<ext>` in it.
pub open spec fn toolbox_preset_candidates(skin_dir: Seq<char>, name: Seq<char>) -> Seq<Seq<char>> {
    Seq::new(6, |i: int| if i % 2 == 0 {
        joined_path(joined_path(skin_dir, "presets"@), name + "."@ + preset_exts()[i / 2])
    } else {
        joined_path(skin_dir, name + "."@ + preset_exts()[i / 2])
    })
}

/// The image source for the preset `name` once the candidate `paths` have been probed:
/// the path of the first probe that came back `true`, or the name itself when none did.
pub fn preset_source_from(name: &str, paths: &Vec<String>, found: &Vec<bool>) -> (r: String)
    ensures
        ({
            let n = if paths@.len() < found@.len() { paths@.len() as int } else { found@.len() as int };
            let k = first_found_index(found@, n);
            &&& k >= 0 ==> r@ == paths@[k]@
            &&& k < 0 ==> r@ == name@
        }),
{
    match first_found(paths, found) {
        Some(p) => p,
        None => {
            let mut r = String::new();
            push_str(&mut r, name);
            r
        },
    }
}

/// The image source the toolbox uses for the preset `name`: the first existing path of
/// [`toolbox_preset_candidates`], else the name itself.
///
/// The candidates are probed in order until one exists; which exist is the file system's
/// answer, and [`preset_source_from`] gives the result for the answers.
pub fn resolve_preset_source(skin_dir: &str, name: &str) -> (r: String)
    ensures
        r@ == name@ || exists|k: int| 0 <= k < 6 && r@ == #[trigger] toolbox_preset_candidates(skin_dir@, name@)[k],
{
    let presets_dir = path_join(skin_dir, "presets");
    let mut paths: Vec<String> = Vec::new();
    let mut found: Vec<bool> = Vec::new();
    let mut hit = false;
    let mut i: usize = 0;
    while i < 6 && !hit
        invariant
            i <= 6,
            presets_dir@ == joined_path(skin_dir@, "presets"@),
            paths@.len() == i,
            found@.len() == i,
            forall|k: int| 0 <= k < i ==> (#[trigger] paths@[k])@ == toolbox_preset_candidates(skin_dir@, name@)[k],
        decreases 6 - i,
    {
        let mut file = String::new();
        push_str(&mut file, name);
        push_str(&mut file, ".");
        push_str(&mut file, preset_ext(i / 2));
        let p = if i % 2 == 0 {
            path_join(presets_dir.as_str(), file.as_str())
        } else {
            path_join(skin_dir, file.as_str())
        };
        assert(p@ == toolbox_preset_candidates(skin_dir@, name@)[i as int]);
        hit = path_exists(p.as_str());
        paths.push(p);
        found.push(hit);
        i += 1;
    }
    let r = preset_source_from(name, &paths, &found);
    proof {
        let k = first_found_index(found@, paths@.len() as int);
        lemma_first_found_index(found@, paths@.len() as int);
        if k >= 0 {
            assert(r@ == toolbox_preset_candidates(skin_dir@, name@)[k]);
        }
    }
    r
}

} // verus!
