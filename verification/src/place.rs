//! Finding a free name: a file takes the path its number gives it, and when
//! that path is taken, the first number after it whose path is free.
use vstd::prelude::*;
use vstd::set_lib::lemma_len_subset;
use crate::naming::{NameFormat, target, target_rel};
use crate::stamp::Stamp;
use crate::strmap::StrMap;
use crate::unique::lemma_target_injective;

verus! {

broadcast use vstd::string::group_string_axioms;

/// Distinct numbers give distinct names.
pub open spec fn injective(cand: spec_fn(nat) -> Seq<char>) -> bool {
    forall|a: nat, b: nat| #[trigger] cand(a) == #[trigger] cand(b) ==> a == b
}

/// `m` is the first number from `lo` on whose name is not taken.
pub open spec fn first_free_at(cand: spec_fn(nat) -> Seq<char>, lo: nat, taken: Set<Seq<char>>, m: nat) -> bool {
    &&& lo <= m
    &&& !taken.contains(cand(m))
    &&& forall|j: nat| lo <= j < m ==> taken.contains(#[trigger] cand(j))
}

/// The first number from `lo` on whose name is not taken.
pub open spec fn first_free(cand: spec_fn(nat) -> Seq<char>, lo: nat, taken: Set<Seq<char>>) -> nat {
    choose|m: nat| first_free_at(cand, lo, taken, m)
}

/// The names of the numbers `lo..j`.
pub open spec fn tried(cand: spec_fn(nat) -> Seq<char>, lo: nat, j: nat) -> Set<Seq<char>>
    decreases j - lo,
{
    if j <= lo {
        Set::empty()
    } else {
        tried(cand, lo, (j - 1) as nat).insert(cand((j - 1) as nat))
    }
}

pub proof fn lemma_tried(cand: spec_fn(nat) -> Seq<char>, lo: nat, j: nat)
    requires
        injective(cand),
        lo <= j,
    ensures
        tried(cand, lo, j).finite(),
        tried(cand, lo, j).len() == j - lo,
        forall|s: Seq<char>|
            #[trigger] tried(cand, lo, j).contains(s) ==> exists|i: nat| lo <= i < j && #[trigger] cand(i) == s,
    decreases j - lo,
{
    if j > lo {
        let jm = (j - 1) as nat;
        lemma_tried(cand, lo, jm);
        if tried(cand, lo, jm).contains(cand(jm)) {
            let i = choose|i: nat| lo <= i < jm && #[trigger] cand(i) == cand(jm);
            assert(cand(i) == cand(jm));
        }
        assert forall|s: Seq<char>| #[trigger] tried(cand, lo, j).contains(s) implies exists|i: nat|
            lo <= i < j && #[trigger] cand(i) == s by {
            if s != cand(jm) {
                assert(tried(cand, lo, jm).contains(s));
                let i = choose|i: nat| lo <= i < jm && #[trigger] cand(i) == s;
                assert(lo <= i < j && cand(i) == s);
            } else {
                assert(lo <= jm < j && cand(jm) == s);
            }
        }
    }
}

/// While the names of `lo..j` are all taken, there are no more of them than
/// names taken.
pub proof fn lemma_tried_bound(cand: spec_fn(nat) -> Seq<char>, lo: nat, j: nat, taken: Set<Seq<char>>)
    requires
        injective(cand),
        lo <= j,
        taken.finite(),
        forall|i: nat| lo <= i < j ==> taken.contains(#[trigger] cand(i)),
    ensures
        j - lo <= taken.len(),
{
    lemma_tried(cand, lo, j);
    assert forall|s: Seq<char>| tried(cand, lo, j).contains(s) implies taken.contains(s) by {
        let i = choose|i: nat| lo <= i < j && #[trigger] cand(i) == s;
        assert(taken.contains(cand(i)));
    }
    lemma_len_subset(tried(cand, lo, j), taken);
}

proof fn lemma_first_free_from(cand: spec_fn(nat) -> Seq<char>, lo: nat, j: nat, taken: Set<Seq<char>>)
    requires
        injective(cand),
        lo <= j,
        taken.finite(),
        forall|i: nat| lo <= i < j ==> taken.contains(#[trigger] cand(i)),
    ensures
        exists|m: nat| first_free_at(cand, lo, taken, m),
    decreases taken.len() - (j - lo),
{
    lemma_tried_bound(cand, lo, j, taken);
    if !taken.contains(cand(j)) {
        assert(first_free_at(cand, lo, taken, j));
    } else {
        assert forall|i: nat| lo <= i < j + 1 implies taken.contains(#[trigger] cand(i)) by {
            if i < j {
                assert(taken.contains(cand(i)));
            }
        }
        lemma_tried_bound(cand, lo, j + 1, taken);
        lemma_first_free_from(cand, lo, j + 1, taken);
    }
}

/// Among finitely many taken names there is always a first free number.
pub proof fn lemma_first_free(cand: spec_fn(nat) -> Seq<char>, lo: nat, taken: Set<Seq<char>>)
    requires
        injective(cand),
        taken.finite(),
    ensures
        first_free_at(cand, lo, taken, first_free(cand, lo, taken)),
        first_free(cand, lo, taken) <= lo + taken.len(),
{
    lemma_first_free_from(cand, lo, lo, taken);
    let m = first_free(cand, lo, taken);
    lemma_tried_bound(cand, lo, m, taken);
}

/// There is only one first free number.
pub proof fn lemma_first_free_unique(
    cand: spec_fn(nat) -> Seq<char>,
    lo: nat,
    taken: Set<Seq<char>>,
    a: nat,
    b: nat,
)
    requires
        first_free_at(cand, lo, taken, a),
        first_free_at(cand, lo, taken, b),
    ensures
        a == b,
{
    if a < b {
        assert(taken.contains(cand(a)));
    } else if b < a {
        assert(taken.contains(cand(b)));
    }
}

// ---------- the path of a numbered file ----------

/// Paths with the number forced into the name.
pub open spec fn numbered(ts: Stamp, ext: Seq<char>, fmt: NameFormat) -> spec_fn(nat) -> Seq<char> {
    |j: nat| target(ts, j, ext, fmt, true)
}

pub proof fn lemma_numbered_injective(ts: Stamp, ext: Seq<char>, fmt: NameFormat)
    ensures
        injective(numbered(ts, ext, fmt)),
{
    assert forall|a: nat, b: nat| #[trigger]
        numbered(ts, ext, fmt)(a) == #[trigger] numbered(ts, ext, fmt)(b) implies a == b by {
        lemma_target_injective(ts, ext, fmt, a, b);
    }
}

/// Where file number `n` of its day goes when the paths in `taken` are
/// already given out: its own path if free, else the first free path with
/// a number above `n` written into the name.
pub open spec fn pick(ts: Stamp, n: nat, ext: Seq<char>, fmt: NameFormat, taken: Set<Seq<char>>) -> Seq<char> {
    if !taken.contains(target(ts, n, ext, fmt, false)) {
        target(ts, n, ext, fmt, false)
    } else {
        target(ts, first_free(numbered(ts, ext, fmt), n + 1, taken), ext, fmt, true)
    }
}

/// The picked path is never one already given out.
pub proof fn lemma_pick_is_free(ts: Stamp, n: nat, ext: Seq<char>, fmt: NameFormat, taken: Set<Seq<char>>)
    requires
        taken.finite(),
    ensures
        !taken.contains(pick(ts, n, ext, fmt, taken)),
{
    lemma_numbered_injective(ts, ext, fmt);
    lemma_first_free(numbered(ts, ext, fmt), n + 1, taken);
}

/// Picks the path of file number `n` of its day, given the paths already
/// given out.
pub fn pick_target(ts: &Stamp, n: usize, ext: &str, fmt: &NameFormat, pris: &StrMap<()>) -> (r: String)
    requires
        ts.wf(),
        pris.wf(),
        n + pris@.dom().len() + 1 < usize::MAX,
    ensures
        r@ == pick(*ts, n as nat, ext@, *fmt, pris@.dom()),
{
    let first = target_rel(ts, n, ext, fmt, false);
    if !pris.contains(first.as_str()) {
        return first;
    }
    let ghost taken = pris@.dom();
    let ghost cand = numbered(*ts, ext@, *fmt);
    proof {
        pris.lemma_finite();
        lemma_numbered_injective(*ts, ext@, *fmt);
    }
    let mut essai: usize = n + 1;
    let mut to = target_rel(ts, essai, ext, fmt, true);
    while pris.contains(to.as_str())
        invariant
            ts.wf(),
            pris.wf(),
            taken == pris@.dom(),
            taken.finite(),
            injective(cand),
            cand == numbered(*ts, ext@, *fmt),
            n + taken.len() + 1 < usize::MAX,
            n + 1 <= essai <= n + 1 + taken.len(),
            to@ == cand(essai as nat),
            forall|j: nat| n + 1 <= j < essai ==> taken.contains(#[trigger] cand(j)),
        decreases n + 1 + taken.len() - essai,
    {
        proof {
            assert forall|j: nat| n + 1 <= j < essai + 1 implies taken.contains(#[trigger] cand(j)) by {
                if j < essai {
                    assert(taken.contains(cand(j)));
                }
            }
            lemma_tried_bound(cand, (n + 1) as nat, (essai + 1) as nat, taken);
        }
        essai = essai + 1;
        to = target_rel(ts, essai, ext, fmt, true);
    }
    proof {
        assert(first_free_at(cand, (n + 1) as nat, taken, essai as nat));
        lemma_first_free(cand, (n + 1) as nat, taken);
        lemma_first_free_unique(cand, (n + 1) as nat, taken, essai as nat, first_free(cand, (n + 1) as nat, taken));
    }
    to
}

} // verus!
