//! The triage folder: files without any reliable date go there under their
//! original name, with " 2", " 3"… before the extension when that name is
//! already used.
use vstd::prelude::*;
use crate::naming::{review_dir, review_dir_str};
use crate::place::{injective, first_free, first_free_at, lemma_first_free, lemma_first_free_unique, lemma_tried_bound};
use crate::strmap::{StrMap, Table};
use crate::text::{dec, dec_chars, chars_of, string_of, append_chars, lemma_dec_injective};

verus! {

broadcast use vstd::string::group_string_axioms;

/// The position of the last `.` among the first `k` characters.
pub open spec fn last_dot_before(s: Seq<char>, k: int) -> Option<int>
    decreases k,
{
    if k <= 0 {
        None
    } else if s[k - 1] == '.' {
        Some(k - 1)
    } else {
        last_dot_before(s, k - 1)
    }
}

/// The name without its last `.` and what follows.
pub open spec fn stem_of(s: Seq<char>) -> Seq<char> {
    match last_dot_before(s, s.len() as int) {
        Some(i) => s.take(i),
        None => s,
    }
}

/// The last `.` of the name and what follows, or nothing.
pub open spec fn dot_ext_of(s: Seq<char>) -> Seq<char> {
    match last_dot_before(s, s.len() as int) {
        Some(i) => s.skip(i),
        None => Seq::empty(),
    }
}

/// `à vérifier/`
pub open spec fn review_prefix() -> Seq<char> {
    review_dir() + seq!['/']
}

/// The path of a file in the triage folder under its own name.
pub open spec fn review_path(name: Seq<char>) -> Seq<char> {
    review_prefix() + name
}

/// The path of a file in the triage folder with number `j` after its stem.
pub open spec fn review_numbered(name: Seq<char>) -> spec_fn(nat) -> Seq<char> {
    |j: nat| review_prefix() + stem_of(name) + seq![' '] + dec(j) + dot_ext_of(name)
}

/// Where a file without a reliable date goes, given the paths that are
/// blocked: its own name if free, else the first free number from 2 on.
pub open spec fn review_pick(name: Seq<char>, blocked: Set<Seq<char>>) -> Seq<char> {
    if !blocked.contains(review_path(name)) {
        review_path(name)
    } else {
        review_numbered(name)(first_free(review_numbered(name), 2, blocked))
    }
}

proof fn lemma_middle(p: Seq<char>, a: Seq<char>, b: Seq<char>, q: Seq<char>)
    requires
        p + a + q == p + b + q,
    ensures
        a == b,
{
    let x = p + a + q;
    assert(x.len() == (p + b + q).len());
    assert(a.len() == b.len());
    assert(a =~= x.subrange(p.len() as int, (p.len() + a.len()) as int));
    assert(b =~= (p + b + q).subrange(p.len() as int, (p.len() + b.len()) as int));
}

pub proof fn lemma_review_numbered_injective(name: Seq<char>)
    ensures
        injective(review_numbered(name)),
{
    let p = review_prefix() + stem_of(name) + seq![' '];
    let q = dot_ext_of(name);
    assert forall|a: nat, b: nat| #[trigger]
        review_numbered(name)(a) == #[trigger] review_numbered(name)(b) implies a == b by {
        lemma_middle(p, dec(a), dec(b), q);
        lemma_dec_injective(a, b);
    }
}

/// The picked path is never a blocked one.
pub proof fn lemma_review_pick_is_free(name: Seq<char>, blocked: Set<Seq<char>>)
    requires
        blocked.finite(),
    ensures
        !blocked.contains(review_pick(name, blocked)),
{
    lemma_review_numbered_injective(name);
    lemma_first_free(review_numbered(name), 2, blocked);
}

/// Splits a name at its last `.`.
pub fn split_at_last_dot(name: &Vec<char>) -> (r: (Vec<char>, Vec<char>))
    ensures
        r.0@ == stem_of(name@),
        r.1@ == dot_ext_of(name@),
{
    let mut k: usize = name.len();
    while k > 0 && name[k - 1] != '.'
        invariant
            k <= name.len(),
            last_dot_before(name@, name.len() as int) == last_dot_before(name@, k as int),
        decreases k,
    {
        k = k - 1;
    }
    let mut stem: Vec<char> = Vec::new();
    let mut ext: Vec<char> = Vec::new();
    if k == 0 {
        append_chars(&mut stem, name.as_slice());
        assert(stem@ =~= name@);
        assert(ext@ =~= Seq::<char>::empty());
    } else {
        let mut i: usize = 0;
        while i < name.len()
            invariant
                0 < k <= name.len(),
                i <= name.len(),
                stem@ == name@.take(if i < k - 1 { i as int } else { (k - 1) as int }),
                ext@ == (if i < k - 1 { Seq::<char>::empty() } else { name@.subrange((k - 1) as int, i as int) }),
            decreases name.len() - i,
        {
            if i < k - 1 {
                stem.push(name[i]);
                assert(stem@ =~= name@.take(i + 1));
            } else {
                ext.push(name[i]);
                assert(ext@ =~= name@.subrange((k - 1) as int, i + 1));
            }
            i = i + 1;
        }
        assert(ext@ =~= name@.skip((k - 1) as int));
    }
    (stem, ext)
}

fn review_path_of(name: &Vec<char>) -> (r: String)
    ensures
        r@ == review_path(name@),
{
    let mut v = chars_of(review_dir_str());
    v.push('/');
    append_chars(&mut v, name.as_slice());
    assert(v@ =~= review_path(name@));
    string_of(&v)
}

fn review_numbered_of(stem: &Vec<char>, ext: &Vec<char>, j: usize, Ghost(name): Ghost<Seq<char>>) -> (r: String)
    requires
        stem@ == stem_of(name),
        ext@ == dot_ext_of(name),
    ensures
        r@ == review_numbered(name)(j as nat),
{
    let mut v = chars_of(review_dir_str());
    v.push('/');
    append_chars(&mut v, stem.as_slice());
    v.push(' ');
    append_chars(&mut v, dec_chars(j as u64).as_slice());
    append_chars(&mut v, ext.as_slice());
    assert(v@ =~= review_numbered(name)(j as nat));
    string_of(&v)
}

/// The paths blocked for a file of the triage folder: those of the index,
/// those already planned there, and those present on disk.
pub open spec fn blocked_by<V>(index: Map<Seq<char>, V>, planned: Set<Seq<char>>, on_disk: Set<Seq<char>>) -> Set<Seq<char>> {
    index.dom() + planned + on_disk
}

/// Picks the path in the triage folder of a file named `name`.
pub fn pick_review_path<V>(name: &str, index: &Table<V>, planned: &StrMap<()>, on_disk: &StrMap<()>) -> (r: String)
    requires
        index.wf(),
        planned.wf(),
        on_disk.wf(),
        index@.dom().len() + planned@.dom().len() + on_disk@.dom().len() + 3 < usize::MAX,
    ensures
        r@ == review_pick(name@, blocked_by(index@, planned@.dom(), on_disk@.dom())),
{
    let ghost blocked = blocked_by(index@, planned@.dom(), on_disk@.dom());
    let chars = chars_of(name);
    let first = review_path_of(&chars);
    if !(index.contains(first.as_str()) || planned.contains(first.as_str()) || on_disk.contains(first.as_str())) {
        return first;
    }
    let (stem, ext) = split_at_last_dot(&chars);
    let ghost cand = review_numbered(name@);
    proof {
        index.lemma_finite();
        planned.lemma_finite();
        on_disk.lemma_finite();
        vstd::set_lib::lemma_len_union(index@.dom(), planned@.dom());
        vstd::set_lib::lemma_len_union(index@.dom() + planned@.dom(), on_disk@.dom());
        lemma_review_numbered_injective(name@);
    }
    let mut n: usize = 2;
    let mut to = review_numbered_of(&stem, &ext, n, Ghost(name@));
    while index.contains(to.as_str()) || planned.contains(to.as_str()) || on_disk.contains(to.as_str())
        invariant
            index.wf(),
            planned.wf(),
            on_disk.wf(),
            blocked == blocked_by(index@, planned@.dom(), on_disk@.dom()),
            blocked.finite(),
            blocked.len() + 3 < usize::MAX,
            injective(cand),
            cand == review_numbered(name@),
            stem@ == stem_of(name@),
            ext@ == dot_ext_of(name@),
            2 <= n <= 2 + blocked.len(),
            to@ == cand(n as nat),
            forall|j: nat| 2 <= j < n ==> blocked.contains(#[trigger] cand(j)),
        decreases 2 + blocked.len() - n,
    {
        proof {
            assert forall|j: nat| 2 <= j < n + 1 implies blocked.contains(#[trigger] cand(j)) by {
                if j < n {
                    assert(blocked.contains(cand(j)));
                }
            }
            lemma_tried_bound(cand, 2, (n + 1) as nat, blocked);
        }
        n = n + 1;
        to = review_numbered_of(&stem, &ext, n, Ghost(name@));
    }
    proof {
        assert(first_free_at(cand, 2, blocked, n as nat));
        lemma_first_free(cand, 2, blocked);
        lemma_first_free_unique(cand, 2, blocked, n as nat, first_free(cand, 2, blocked));
    }
    to
}

} // verus!
