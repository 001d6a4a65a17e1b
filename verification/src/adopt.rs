//! The index is only a cache: files found in the library but missing from
//! it are adopted (those of the triage folder, and those that follow the
//! chosen folder structure), and files already managed are left out of the
//! scan of the sources, so that a loose folder dropped inside the library
//! can still be filed in place.
use vstd::prelude::*;
use crate::library::{Index, index_has};
use crate::media::{ext_of, ext_of_path, is_media, is_media_ext};
use crate::naming::{NameFormat, follows_structure, managed, join, string_views, review_dir_str, suit_structure, is_managed_rel};
use crate::text::{chars_of, string_of, append_chars};
use crate::triage::review_prefix;

verus! {

broadcast use vstd::string::group_string_axioms;

/// A name that starts with a dot: hidden, never scanned nor adopted.
pub open spec fn hidden(name: Seq<char>) -> bool {
    name.len() > 0 && name[0] == '.'
}

pub fn is_hidden(name: &str) -> (r: bool)
    ensures
        r == hidden(name@),
{
    let cs = chars_of(name);
    cs.len() > 0 && cs[0] == '.'
}

/// The path in the index of a file of the triage folder.
pub open spec fn review_rel(name: Seq<char>) -> Seq<char> {
    review_prefix() + name
}

/// A file of the triage folder is adopted when it is a visible photo or
/// video that the index does not hold.
pub open spec fn review_adoptable(name: Seq<char>, idx: Seq<crate::library::IndexEntry>) -> bool {
    !hidden(name) && is_media_ext(ext_of(name)) && !index_has(idx, review_rel(name))
}

/// The path in the index of a file of the triage folder named `name`, when
/// it is to be adopted.
pub fn review_adoption(name: &str, index: &Index) -> (r: Option<String>)
    ensures
        r is Some <==> review_adoptable(name@, index.spec_entries()),
        r matches Some(rel) ==> rel@ == review_rel(name@),
{
    if is_hidden(name) || !is_media(ext_of_path(name).as_str()) {
        return None;
    }
    let mut v = chars_of(review_dir_str());
    v.push('/');
    append_chars(&mut v, chars_of(name).as_slice());
    assert(v@ =~= review_rel(name@));
    let rel = string_of(&v);
    if index.contains(rel.as_str()) {
        None
    } else {
        Some(rel)
    }
}

/// Backslashes written as slashes.
pub open spec fn slashed(s: Seq<char>) -> Seq<char> {
    s.map_values(|c: char| if c == '\\' { '/' } else { c })
}

/// The path in the index of a file given by its components relative to
/// the library: joined by slashes, backslashes written as slashes.
pub open spec fn rel_of(comps: Seq<Seq<char>>) -> Seq<char> {
    slashed(join(comps, "/"@))
}

pub fn rel_of_components(comps: &Vec<String>) -> (r: String)
    ensures
        r@ == rel_of(string_views(comps@)),
{
    let mut parts: Vec<Vec<char>> = Vec::new();
    let mut i: usize = 0;
    while i < comps.len()
        invariant
            i <= comps.len(),
            crate::naming::views(parts@) == string_views(comps@).take(i as int),
        decreases comps.len() - i,
    {
        let ghost before = crate::naming::views(parts@);
        let p = chars_of(comps[i].as_str());
        parts.push(p);
        assert(crate::naming::views(parts@) =~= before.push(comps@[i as int]@));
        assert(string_views(comps@).take(i + 1) =~= string_views(comps@).take(i as int).push(comps@[i as int]@));
        i = i + 1;
    }
    assert(string_views(comps@).take(i as int) =~= string_views(comps@));
    let joined = crate::naming::join_chars(&parts, chars_of("/").as_slice());
    let mut out: Vec<char> = Vec::new();
    let mut k: usize = 0;
    while k < joined.len()
        invariant
            k <= joined.len(),
            out@ == slashed(joined@.take(k as int)),
        decreases joined.len() - k,
    {
        let c = joined[k];
        out.push(if c == '\\' { '/' } else { c });
        assert(out@ =~= slashed(joined@.take(k + 1)));
        k = k + 1;
    }
    assert(joined@.take(k as int) =~= joined@);
    string_of(&out)
}

/// A file of the rest of the library is adopted when it is a photo or a
/// video that follows the chosen folder structure and that the index does
/// not hold.
pub open spec fn library_adoptable(comps: Seq<Seq<char>>, idx: Seq<crate::library::IndexEntry>, fmt: NameFormat) -> bool {
    &&& comps.len() > 0
    &&& is_media_ext(ext_of(comps.last()))
    &&& follows_structure(comps, fmt)
    &&& !index_has(idx, rel_of(comps))
}

/// The path in the index of a file of the library, given by its components
/// relative to the library, when it is to be adopted.
pub fn library_adoption(comps: &Vec<String>, index: &Index, fmt: &NameFormat) -> (r: Option<String>)
    ensures
        r is Some <==> library_adoptable(string_views(comps@), index.spec_entries(), *fmt),
        r matches Some(rel) ==> rel@ == rel_of(string_views(comps@)),
{
    if comps.len() == 0 {
        return None;
    }
    assert(string_views(comps@).last() == comps@[comps.len() - 1]@);
    if !is_media(ext_of_path(comps[comps.len() - 1].as_str()).as_str()) {
        return None;
    }
    if !suit_structure(comps, fmt) {
        return None;
    }
    let rel = rel_of_components(comps);
    if index.contains(rel.as_str()) {
        None
    } else {
        Some(rel)
    }
}

/// A source file inside the library is left out of the scan when the index
/// holds it, when it follows the chosen folder structure, or when it lies
/// under the triage folder or under `year/month/`.
pub open spec fn left_out(comps: Seq<Seq<char>>, idx: Seq<crate::library::IndexEntry>, fmt: NameFormat) -> bool {
    index_has(idx, rel_of(comps)) || follows_structure(comps, fmt) || managed(comps)
}

/// Whether a source file inside the library, given by its components
/// relative to the library, is left out of the scan.
pub fn left_out_of_scan(comps: &Vec<String>, index: &Index, fmt: &NameFormat) -> (r: bool)
    ensures
        r == left_out(string_views(comps@), index.spec_entries(), *fmt),
{
    let rel = rel_of_components(comps);
    index.contains(rel.as_str()) || suit_structure(comps, fmt) || is_managed_rel(comps)
}

} // verus!
