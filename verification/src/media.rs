//! Which files are photos and videos: the lower-case extension of a path,
//! and the lists of extensions that are handled.
use vstd::prelude::*;
use crate::text::{chars_of, str_eq, string_of, to_lowercase, lowercase, all_ascii, ascii_lower};
use crate::triage::last_dot_before;

verus! {

broadcast use vstd::string::group_string_axioms;

/// A segment of a path that names something (not empty, not `.`).
pub open spec fn named(seg: Seq<char>) -> bool {
    seg.len() > 0 && seg != seq!['.']
}

/// Reading the first `k` characters of a path: the last complete segment
/// that names something, and the segment being read.
pub open spec fn scan_path(p: Seq<char>, k: int) -> (Option<Seq<char>>, Seq<char>)
    decreases k,
{
    if k <= 0 {
        (None, Seq::empty())
    } else {
        let (last, cur) = scan_path(p, k - 1);
        if p[k - 1] == '/' {
            (if named(cur) { Some(cur) } else { last }, Seq::empty())
        } else {
            (last, cur.push(p[k - 1]))
        }
    }
}

/// The last component of a `/`-separated path, as `Path::file_name` gives
/// it: empty and `.` segments are skipped, and `..` has no name.
pub open spec fn file_name(p: Seq<char>) -> Option<Seq<char>> {
    let (last, cur) = scan_path(p, p.len() as int);
    let seg = if named(cur) { Some(cur) } else { last };
    match seg {
        Some(s) => if s == seq!['.', '.'] { None } else { Some(s) },
        None => None,
    }
}

/// The extension of a file name, as `Path::extension` gives it: what
/// follows the last `.`, unless that `.` opens the name.
pub open spec fn extension(name: Seq<char>) -> Option<Seq<char>> {
    match last_dot_before(name, name.len() as int) {
        Some(i) => if i > 0 { Some(name.skip(i + 1)) } else { None },
        None => None,
    }
}

/// The lower-case extension of a path, or nothing.
pub open spec fn ext_of(p: Seq<char>) -> Seq<char> {
    match file_name(p) {
        Some(f) => match extension(f) {
            Some(e) => lowercase(e),
            None => Seq::empty(),
        },
        None => Seq::empty(),
    }
}

/// The extension of a path, as written.
pub open spec fn path_extension(p: Seq<char>) -> Option<Seq<char>> {
    match file_name(p) {
        Some(f) => extension(f),
        None => None,
    }
}

/// The last component of a path, when it has one.
pub fn file_name_of(p: &str) -> (r: Option<String>)
    ensures
        r matches Some(s) ==> file_name(p@) == Some(s@),
        r is None ==> file_name(p@) is None,
{
    let cs = chars_of(p);
    let mut last: Option<Vec<char>> = None;
    let mut cur: Vec<char> = Vec::new();
    let mut k: usize = 0;
    while k < cs.len()
        invariant
            cs@ == p@,
            k <= cs.len(),
            (match last { Some(v) => Some(v@), None => None::<Seq<char>> }, cur@) == scan_path(p@, k as int),
        decreases cs.len() - k,
    {
        if cs[k] == '/' {
            if is_named(&cur) {
                last = Some(cur);
            }
            cur = Vec::new();
        } else {
            cur.push(cs[k]);
        }
        k = k + 1;
    }
    let seg = if is_named(&cur) { Some(cur) } else { last };
    match seg {
        Some(s) => {
            if s.len() == 2 && s[0] == '.' && s[1] == '.' {
                assert(s@ =~= seq!['.', '.']);
                None
            } else {
                assert(s@ != seq!['.', '.']);
                Some(string_of(&s))
            }
        },
        None => None,
    }
}

fn is_named(seg: &Vec<char>) -> (r: bool)
    ensures
        r == named(seg@),
{
    if seg.len() == 0 {
        false
    } else if seg.len() == 1 && seg[0] == '.' {
        assert(seg@ =~= seq!['.']);
        false
    } else {
        assert(seg@ != seq!['.']);
        true
    }
}

/// `ext_of`: the lower-case extension of a path, or an empty string.
pub fn ext_of_path(p: &str) -> (r: String)
    ensures
        r@ == ext_of(p@),
        path_extension(p@) matches Some(e) ==> (all_ascii(e) ==> r@ == e.map_values(
            |c: char| ascii_lower(c),
        )),
        path_extension(p@) is None ==> r@.len() == 0,
{
    match file_name_of(p) {
        None => String::new(),
        Some(f) => {
            let cs = chars_of(f.as_str());
            let mut k: usize = cs.len();
            while k > 0 && cs[k - 1] != '.'
                invariant
                    cs@ == f@,
                    k <= cs.len(),
                    last_dot_before(cs@, cs.len() as int) == last_dot_before(cs@, k as int),
                decreases k,
            {
                k = k - 1;
            }
            if k <= 1 {
                String::new()
            } else {
                let mut e: Vec<char> = Vec::new();
                let mut i: usize = k;
                while i < cs.len()
                    invariant
                        1 < k <= i <= cs.len(),
                        e@ == cs@.subrange(k as int, i as int),
                    decreases cs.len() - i,
                {
                    e.push(cs[i]);
                    i = i + 1;
                    assert(e@ =~= cs@.subrange(k as int, i as int));
                }
                assert(e@ =~= cs@.skip(k as int));
                let es = string_of(&e);
                to_lowercase(es.as_str())
            }
        },
    }
}

// ---------- the extensions handled ----------

pub open spec fn is_image_ext(e: Seq<char>) -> bool {
    ||| e == "jpg"@
    ||| e == "jpeg"@
    ||| e == "png"@
    ||| e == "heic"@
    ||| e == "heif"@
    ||| e == "webp"@
    ||| e == "gif"@
    ||| e == "tif"@
    ||| e == "tiff"@
    ||| e == "bmp"@
    ||| e == "dng"@
    ||| e == "cr2"@
    ||| e == "cr3"@
    ||| e == "nef"@
    ||| e == "arw"@
    ||| e == "orf"@
    ||| e == "rw2"@
}

pub open spec fn is_video_ext(e: Seq<char>) -> bool {
    ||| e == "mp4"@
    ||| e == "mov"@
    ||| e == "m4v"@
    ||| e == "3gp"@
    ||| e == "avi"@
    ||| e == "mkv"@
    ||| e == "webm"@
    ||| e == "mts"@
    ||| e == "m2ts"@
}

/// Videos of the MP4/QuickTime family, whose date is read in the `mvhd` atom.
pub open spec fn is_mp4_like_ext(e: Seq<char>) -> bool {
    ||| e == "mp4"@
    ||| e == "mov"@
    ||| e == "m4v"@
    ||| e == "3gp"@
}

pub open spec fn is_media_ext(e: Seq<char>) -> bool {
    is_image_ext(e) || is_video_ext(e)
}

/// Is the extension that of a photo?
pub fn is_image(ext: &str) -> (r: bool)
    ensures
        r == is_image_ext(ext@),
{
    str_eq(ext, "jpg") || str_eq(ext, "jpeg") || str_eq(ext, "png") || str_eq(ext, "heic")
        || str_eq(ext, "heif") || str_eq(ext, "webp") || str_eq(ext, "gif") || str_eq(ext, "tif")
        || str_eq(ext, "tiff") || str_eq(ext, "bmp") || str_eq(ext, "dng") || str_eq(ext, "cr2")
        || str_eq(ext, "cr3") || str_eq(ext, "nef") || str_eq(ext, "arw") || str_eq(ext, "orf")
        || str_eq(ext, "rw2")
}

fn is_video(ext: &str) -> (r: bool)
    ensures
        r == is_video_ext(ext@),
{
    str_eq(ext, "mp4") || str_eq(ext, "mov") || str_eq(ext, "m4v") || str_eq(ext, "3gp")
        || str_eq(ext, "avi") || str_eq(ext, "mkv") || str_eq(ext, "webm") || str_eq(ext, "mts")
        || str_eq(ext, "m2ts")
}

/// Is the extension that of a photo or a video?
pub fn is_media(ext: &str) -> (r: bool)
    ensures
        r == is_media_ext(ext@),
{
    is_image(ext) || is_video(ext)
}

/// Is the extension that of a video whose date the `mvhd` atom holds?
pub fn is_mp4_like(ext: &str) -> (r: bool)
    ensures
        r == is_mp4_like_ext(ext@),
{
    str_eq(ext, "mp4") || str_eq(ext, "mov") || str_eq(ext, "m4v") || str_eq(ext, "3gp")
}

} // verus!
