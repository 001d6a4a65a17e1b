//! The order in which the files of a day are numbered: by date and time,
//! then by original name (so that counters such as `WA0012`, `WA0013` keep
//! their order when the time is the same), then by fingerprint, and, for
//! equal keys, by their position before sorting (a stable sort).
use vstd::prelude::*;
use crate::stamp::{Stamp, stamp_lt, is_earlier};

verus! {

/// Lexicographic order on texts, character by character (the order of
/// `String`s, since UTF-8 keeps the order of code points).
pub open spec fn text_lt(a: Seq<char>, b: Seq<char>) -> bool
    decreases a.len(),
{
    if a.len() == 0 {
        b.len() > 0
    } else if b.len() == 0 {
        false
    } else if a[0] != b[0] {
        a[0] < b[0]
    } else {
        text_lt(a.drop_first(), b.drop_first())
    }
}

pub fn text_less(a: &[char], b: &[char]) -> (r: bool)
    ensures
        r == text_lt(a@, b@),
{
    let mut i: usize = 0;
    assert(a@.skip(0) =~= a@ && b@.skip(0) =~= b@);
    while i < a.len() && i < b.len() && a[i] == b[i]
        invariant
            i <= a.len(),
            i <= b.len(),
            text_lt(a@, b@) == text_lt(a@.skip(i as int), b@.skip(i as int)),
        decreases a.len() - i,
    {
        assert(a@.skip(i as int).drop_first() =~= a@.skip(i + 1));
        assert(b@.skip(i as int).drop_first() =~= b@.skip(i + 1));
        i = i + 1;
    }
    proof {
        if i < a.len() && i < b.len() {
            assert(a@.skip(i as int)[0] == a@[i as int]);
            assert(b@.skip(i as int)[0] == b@[i as int]);
        }
    }
    if i == a.len() {
        i < b.len()
    } else if i == b.len() {
        false
    } else {
        a[i] < b[i]
    }
}

/// Two different texts are ordered one way or the other.
pub proof fn lemma_text_lt_total(a: Seq<char>, b: Seq<char>)
    ensures
        a == b || text_lt(a, b) || text_lt(b, a),
    decreases a.len(),
{
    if a.len() == 0 || b.len() == 0 {
        if a.len() == 0 && b.len() == 0 {
            assert(a =~= b);
        }
    } else if a[0] != b[0] {
        assert(a[0] < b[0] || b[0] < a[0]);
    } else {
        let (a1, b1) = (a.drop_first(), b.drop_first());
        lemma_text_lt_total(a1, b1);
        if a1 == b1 {
            assert forall|i: int| 0 <= i < a.len() implies a[i] == b[i] by {
                if i > 0 {
                    assert(a[i] == a1[i - 1]);
                    assert(b[i] == b1[i - 1]);
                }
            }
            assert(a =~= b);
        }
    }
}

pub proof fn lemma_text_lt_irreflexive(a: Seq<char>)
    ensures
        !text_lt(a, a),
    decreases a.len(),
{
    if a.len() > 0 {
        lemma_text_lt_irreflexive(a.drop_first());
    }
}

/// What a file is ordered by within its day: its date, its original name,
/// its fingerprint.
pub struct SortKey {
    pub ts: Stamp,
    pub name: Vec<char>,
    pub hash: Vec<char>,
}

pub type KeyV = (Stamp, Seq<char>, Seq<char>);

impl View for SortKey {
    type V = KeyV;

    open spec fn view(&self) -> KeyV {
        (self.ts, self.name@, self.hash@)
    }
}

pub open spec fn key_views(keys: Seq<SortKey>) -> Seq<KeyV> {
    keys.map_values(|k: SortKey| k@)
}

pub open spec fn key_lt(a: KeyV, b: KeyV) -> bool {
    if a.0 != b.0 {
        stamp_lt(a.0, b.0)
    } else if a.1 != b.1 {
        text_lt(a.1, b.1)
    } else {
        text_lt(a.2, b.2)
    }
}

/// Position `i` comes before position `j`: smaller key, or equal keys and
/// an earlier position.
pub open spec fn goes_before(keys: Seq<KeyV>, i: usize, j: usize) -> bool {
    key_lt(keys[i as int], keys[j as int]) || (keys[i as int] == keys[j as int] && i <= j)
}

fn chars_equal(a: &[char], b: &[char]) -> (r: bool)
    ensures
        r == (a@ == b@),
{
    crate::naming::chars_eq(a, b)
}

fn goes_before_exec(keys: &Vec<SortKey>, i: usize, j: usize) -> (r: bool)
    requires
        i < keys.len(),
        j < keys.len(),
    ensures
        r == goes_before(key_views(keys@), i, j),
{
    let a = &keys[i];
    let b = &keys[j];
    assert(a@ == key_views(keys@)[i as int] && b@ == key_views(keys@)[j as int]);
    if a.ts != b.ts {
        is_earlier(&a.ts, &b.ts)
    } else if !chars_equal(&a.name, &b.name) {
        text_less(&a.name, &b.name)
    } else if !chars_equal(&a.hash, &b.hash) {
        text_less(&a.hash, &b.hash)
    } else {
        proof {
            lemma_text_lt_irreflexive(a.hash@);
        }
        i <= j
    }
}

/// Merges two ordered runs, taking from the left one on ties.
pub open spec fn merge(l: Seq<usize>, r: Seq<usize>, keys: Seq<KeyV>) -> Seq<usize>
    decreases l.len() + r.len(),
{
    if l.len() == 0 {
        r
    } else if r.len() == 0 {
        l
    } else if goes_before(keys, l[0], r[0]) {
        seq![l[0]] + merge(l.drop_first(), r, keys)
    } else {
        seq![r[0]] + merge(l, r.drop_first(), keys)
    }
}

/// Merge sort of positions by `goes_before`.
pub open spec fn msort(s: Seq<usize>, keys: Seq<KeyV>) -> Seq<usize>
    decreases s.len(),
{
    if s.len() <= 1 {
        s
    } else {
        let mid = s.len() / 2;
        merge(msort(s.take(mid as int), keys), msort(s.skip(mid as int), keys), keys)
    }
}

fn merge_exec(l: &Vec<usize>, r: &Vec<usize>, keys: &Vec<SortKey>) -> (out: Vec<usize>)
    requires
        forall|i: int| 0 <= i < l.len() ==> l@[i] < keys.len(),
        forall|i: int| 0 <= i < r.len() ==> r@[i] < keys.len(),
    ensures
        out@ == merge(l@, r@, key_views(keys@)),
{
    let mut out: Vec<usize> = Vec::new();
    let mut i: usize = 0;
    let mut j: usize = 0;
    assert(l@.skip(0) =~= l@ && r@.skip(0) =~= r@);
    assert(out@ + merge(l@, r@, key_views(keys@)) =~= merge(l@, r@, key_views(keys@)));
    while i < l.len() || j < r.len()
        invariant
            i <= l.len(),
            j <= r.len(),
            forall|k: int| 0 <= k < l.len() ==> l@[k] < keys.len(),
            forall|k: int| 0 <= k < r.len() ==> r@[k] < keys.len(),
            out@ + merge(l@.skip(i as int), r@.skip(j as int), key_views(keys@)) == merge(l@, r@, key_views(keys@)),
        decreases l.len() - i + r.len() - j,
    {
        let ghost ls = l@.skip(i as int);
        let ghost rs = r@.skip(j as int);
        if i < l.len() && (j == r.len() || goes_before_exec(keys, l[i], r[j])) {
            proof {
                assert(ls[0] == l@[i as int]);
                assert(ls.drop_first() =~= l@.skip(i + 1));
                if j < r.len() {
                    assert(rs[0] == r@[j as int]);
                } else {
                    assert(rs.len() == 0);
                }
            }
            out.push(l[i]);
            i = i + 1;
            proof {
                if rs.len() == 0 {
                    assert(merge(ls, rs, key_views(keys@)) == ls);
                    assert(merge(ls.drop_first(), rs, key_views(keys@)) == ls.drop_first());
                    assert(ls =~= seq![ls[0]] + ls.drop_first());
                }
            }
        } else {
            proof {
                assert(rs[0] == r@[j as int]);
                assert(rs.drop_first() =~= r@.skip(j + 1));
                if i < l.len() {
                    assert(ls[0] == l@[i as int]);
                } else {
                    assert(ls.len() == 0);
                    assert(merge(ls, rs, key_views(keys@)) == rs);
                    assert(merge(ls, rs.drop_first(), key_views(keys@)) == rs.drop_first());
                    assert(rs =~= seq![rs[0]] + rs.drop_first());
                }
            }
            out.push(r[j]);
            j = j + 1;
        }
        assert(out@ + merge(l@.skip(i as int), r@.skip(j as int), key_views(keys@)) =~= merge(
            l@,
            r@,
            key_views(keys@),
        ));
    }
    assert(l@.skip(i as int).len() == 0 && r@.skip(j as int).len() == 0);
    assert(out@ + merge(l@.skip(i as int), r@.skip(j as int), key_views(keys@)) =~= out@);
    out
}

fn merge_sort_exec(s: &Vec<usize>, keys: &Vec<SortKey>) -> (out: Vec<usize>)
    requires
        forall|i: int| 0 <= i < s.len() ==> s@[i] < keys.len(),
    ensures
        out@ == msort(s@, key_views(keys@)),
        out.len() == s.len(),
        forall|i: int| 0 <= i < out.len() ==> out@[i] < keys.len(),
    decreases s.len(),
{
    if s.len() <= 1 {
        let mut out: Vec<usize> = Vec::new();
        if s.len() == 1 {
            out.push(s[0]);
        }
        assert(out@ =~= s@);
        return out;
    }
    let mid = s.len() / 2;
    let mut left: Vec<usize> = Vec::new();
    let mut right: Vec<usize> = Vec::new();
    let mut k: usize = 0;
    while k < s.len()
        invariant
            mid <= s.len(),
            k <= s.len(),
            left@ == s@.take(if k < mid { k as int } else { mid as int }),
            k >= mid ==> right@ == s@.subrange(mid as int, k as int),
            k < mid ==> right@.len() == 0,
        decreases s.len() - k,
    {
        if k < mid {
            left.push(s[k]);
            assert(left@ =~= s@.take(k + 1));
        } else {
            right.push(s[k]);
            assert(right@ =~= s@.subrange(mid as int, k + 1));
        }
        k = k + 1;
    }
    assert(right@ =~= s@.skip(mid as int));
    let a = merge_sort_exec(&left, keys);
    let b = merge_sort_exec(&right, keys);
    proof {
        lemma_merge_in_range(a@, b@, key_views(keys@));
    }
    merge_exec(&a, &b, keys)
}

proof fn lemma_merge_in_range(l: Seq<usize>, r: Seq<usize>, keys: Seq<KeyV>)
    requires
        forall|i: int| 0 <= i < l.len() ==> l[i] < keys.len(),
        forall|i: int| 0 <= i < r.len() ==> r[i] < keys.len(),
    ensures
        forall|i: int| 0 <= i < merge(l, r, keys).len() ==> merge(l, r, keys)[i] < keys.len(),
        merge(l, r, keys).len() == l.len() + r.len(),
    decreases l.len() + r.len(),
{
    if l.len() > 0 && r.len() > 0 {
        if goes_before(keys, l[0], r[0]) {
            lemma_merge_in_range(l.drop_first(), r, keys);
        } else {
            lemma_merge_in_range(l, r.drop_first(), keys);
        }
    }
}

/// The positions `0..n`.
pub open spec fn positions(n: nat) -> Seq<usize> {
    Seq::new(n, |i: int| i as usize)
}

/// The order in which the keys are numbered: their positions, merge-sorted.
pub fn numbering_order(keys: &Vec<SortKey>) -> (out: Vec<usize>)
    ensures
        out@ == msort(positions(keys.len() as nat), key_views(keys@)),
        out.len() == keys.len(),
        forall|i: int| 0 <= i < out.len() ==> out@[i] < keys.len(),
{
    let mut s: Vec<usize> = Vec::new();
    let mut i: usize = 0;
    while i < keys.len()
        invariant
            i <= keys.len(),
            s@ == positions(i as nat),
        decreases keys.len() - i,
    {
        s.push(i);
        i = i + 1;
        assert(s@ =~= positions(i as nat));
    }
    merge_sort_exec(&s, keys)
}

// ---------- the numbering order is a sorted permutation ----------

/// Positions in order: each goes before all that follow it.
pub open spec fn sorted_by(keys: Seq<KeyV>, s: Seq<usize>) -> bool {
    forall|i: int, j: int| 0 <= i < j < s.len() ==> goes_before(keys, #[trigger] s[i], #[trigger] s[j])
}

/// No position occurs twice.
pub open spec fn no_repeat(s: Seq<usize>) -> bool {
    forall|i: int, j: int| 0 <= i < j < s.len() ==> #[trigger] s[i] != #[trigger] s[j]
}

pub proof fn lemma_key_total(a: KeyV, b: KeyV)
    ensures
        a == b || key_lt(a, b) || key_lt(b, a),
{
    crate::stamp::lemma_stamp_order_total(a.0, b.0);
    lemma_text_lt_total(a.1, b.1);
    lemma_text_lt_total(a.2, b.2);
}

pub proof fn lemma_key_lt_transitive(a: KeyV, b: KeyV, c: KeyV)
    requires
        key_lt(a, b),
        key_lt(b, c),
    ensures
        key_lt(a, c),
{
    crate::stamp::lemma_stamp_order_total(a.0, c.0);
    if a.0 == b.0 && b.0 == c.0 {
        if a.1 == b.1 && b.1 == c.1 {
            crate::library::lemma_text_lt_transitive(a.2, b.2, c.2);
        } else if a.1 == b.1 {
        } else if b.1 == c.1 {
        } else {
            crate::library::lemma_text_lt_transitive(a.1, b.1, c.1);
            if a.1 == c.1 {
                lemma_text_lt_irreflexive(a.1);
            }
        }
    } else if a.0 != b.0 && b.0 != c.0 {
        crate::stamp::lemma_stamp_lt_transitive(a.0, b.0, c.0);
    }
}

pub proof fn lemma_goes_before_transitive(keys: Seq<KeyV>, i: usize, j: usize, k: usize)
    requires
        goes_before(keys, i, j),
        goes_before(keys, j, k),
    ensures
        goes_before(keys, i, k),
{
    let (a, b, c) = (keys[i as int], keys[j as int], keys[k as int]);
    if key_lt(a, b) && key_lt(b, c) {
        lemma_key_lt_transitive(a, b, c);
    }
}

pub proof fn lemma_goes_before_total(keys: Seq<KeyV>, i: usize, j: usize)
    ensures
        goes_before(keys, i, j) || goes_before(keys, j, i),
{
    lemma_key_total(keys[i as int], keys[j as int]);
}

proof fn lemma_merge(l: Seq<usize>, r: Seq<usize>, keys: Seq<KeyV>)
    ensures
        merge(l, r, keys).len() == l.len() + r.len(),
        forall|x: usize| #[trigger] merge(l, r, keys).contains(x) <==> l.contains(x) || r.contains(x),
        sorted_by(keys, l) && sorted_by(keys, r) ==> sorted_by(keys, merge(l, r, keys)),
        no_repeat(l) && no_repeat(r) && (forall|x: usize| l.contains(x) ==> !r.contains(x)) ==> no_repeat(merge(l, r, keys)),
    decreases l.len() + r.len(),
{
    if l.len() == 0 {
        assert(merge(l, r, keys) == r);
    } else if r.len() == 0 {
        assert(merge(l, r, keys) == l);
    } else {
        let m = merge(l, r, keys);
        let takes_left = goes_before(keys, l[0], r[0]);
        let (h, l2, r2) = if takes_left {
            (l[0], l.drop_first(), r)
        } else {
            (r[0], l, r.drop_first())
        };
        let rest = merge(l2, r2, keys);
        lemma_merge(l2, r2, keys);
        assert(m == seq![h] + rest);
        assert forall|x: usize| #[trigger] m.contains(x) <==> l.contains(x) || r.contains(x) by {
            if m.contains(x) {
                let i = choose|i: int| 0 <= i < m.len() && m[i] == x;
                if i > 0 {
                    assert(rest[i - 1] == x);
                    assert(rest.contains(x));
                    if l2.contains(x) {
                        let t = choose|t: int| 0 <= t < l2.len() && l2[t] == x;
                        if takes_left {
                            assert(l[t + 1] == x);
                        } else {
                            assert(l[t] == x);
                        }
                    } else {
                        let t = choose|t: int| 0 <= t < r2.len() && r2[t] == x;
                        if takes_left {
                            assert(r[t] == x);
                        } else {
                            assert(r[t + 1] == x);
                        }
                    }
                } else {
                    if takes_left {
                        assert(l[0] == x);
                    } else {
                        assert(r[0] == x);
                    }
                }
            }
            if l.contains(x) || r.contains(x) {
                if x == h {
                    assert(m[0] == x);
                } else {
                    if l.contains(x) {
                        let t = choose|t: int| 0 <= t < l.len() && l[t] == x;
                        if takes_left {
                            assert(t > 0);
                            assert(l2[t - 1] == x);
                        } else {
                            assert(l2[t] == x);
                        }
                    } else {
                        let t = choose|t: int| 0 <= t < r.len() && r[t] == x;
                        if takes_left {
                            assert(r2[t] == x);
                        } else {
                            assert(t > 0);
                            assert(r2[t - 1] == x);
                        }
                    }
                    assert(rest.contains(x));
                    let i = choose|i: int| 0 <= i < rest.len() && rest[i] == x;
                    assert(m[i + 1] == x);
                }
            }
        }
        // every element of the rest comes after the head
        assert forall|x: usize| rest.contains(x) && sorted_by(keys, l) && sorted_by(keys, r) implies goes_before(keys, h, x) by {
            if takes_left {
                if l2.contains(x) {
                    let t = choose|t: int| 0 <= t < l2.len() && l2[t] == x;
                    assert(l[t + 1] == x);
                    assert(goes_before(keys, l[0], l[t + 1]));
                } else {
                    let t = choose|t: int| 0 <= t < r2.len() && r2[t] == x;
                    if t > 0 {
                        assert(goes_before(keys, r[0], r[t]));
                        lemma_goes_before_transitive(keys, l[0], r[0], r[t]);
                    }
                }
            } else {
                lemma_goes_before_total(keys, l[0], r[0]);
                if r2.contains(x) {
                    let t = choose|t: int| 0 <= t < r2.len() && r2[t] == x;
                    assert(r[t + 1] == x);
                    assert(goes_before(keys, r[0], r[t + 1]));
                } else {
                    let t = choose|t: int| 0 <= t < l2.len() && l2[t] == x;
                    if t > 0 {
                        assert(goes_before(keys, l[0], l[t]));
                        lemma_goes_before_transitive(keys, r[0], l[0], l[t]);
                    }
                }
            }
        }
        if sorted_by(keys, l) && sorted_by(keys, r) {
            assert(sorted_by(keys, l2)) by {
                assert forall|i: int, j: int| 0 <= i < j < l2.len() implies goes_before(keys, #[trigger] l2[i], #[trigger] l2[j]) by {
                    if takes_left {
                        assert(l2[i] == l[i + 1] && l2[j] == l[j + 1]);
                    }
                }
            }
            assert(sorted_by(keys, r2)) by {
                assert forall|i: int, j: int| 0 <= i < j < r2.len() implies goes_before(keys, #[trigger] r2[i], #[trigger] r2[j]) by {
                    if !takes_left {
                        assert(r2[i] == r[i + 1] && r2[j] == r[j + 1]);
                    }
                }
            }
            assert forall|i: int, j: int| 0 <= i < j < m.len() implies goes_before(keys, #[trigger] m[i], #[trigger] m[j]) by {
                if i == 0 {
                    assert(m[j] == rest[j - 1]);
                    assert(rest.contains(rest[j - 1]));
                } else {
                    assert(m[i] == rest[i - 1] && m[j] == rest[j - 1]);
                }
            }
        }
        if no_repeat(l) && no_repeat(r) && (forall|x: usize| l.contains(x) ==> !r.contains(x)) {
            assert(no_repeat(l2)) by {
                assert forall|i: int, j: int| 0 <= i < j < l2.len() implies #[trigger] l2[i] != #[trigger] l2[j] by {
                    if takes_left {
                        assert(l2[i] == l[i + 1] && l2[j] == l[j + 1]);
                    }
                }
            }
            assert(no_repeat(r2)) by {
                assert forall|i: int, j: int| 0 <= i < j < r2.len() implies #[trigger] r2[i] != #[trigger] r2[j] by {
                    if !takes_left {
                        assert(r2[i] == r[i + 1] && r2[j] == r[j + 1]);
                    }
                }
            }
            assert forall|x: usize| l2.contains(x) implies !r2.contains(x) by {
                let t = choose|t: int| 0 <= t < l2.len() && l2[t] == x;
                if takes_left {
                    assert(l[t + 1] == x);
                    assert(l.contains(x));
                } else {
                    assert(l[t] == x);
                    assert(l.contains(x));
                    if r2.contains(x) {
                        let u = choose|u: int| 0 <= u < r2.len() && r2[u] == x;
                        assert(r[u + 1] == x);
                        assert(r.contains(x));
                    }
                }
            }
            assert(!rest.contains(h)) by {
                if rest.contains(h) {
                    if takes_left {
                        if l2.contains(h) {
                            let t = choose|t: int| 0 <= t < l2.len() && l2[t] == h;
                            assert(l[t + 1] == l[0]);
                        } else {
                            assert(l.contains(h));
                        }
                    } else {
                        if r2.contains(h) {
                            let t = choose|t: int| 0 <= t < r2.len() && r2[t] == h;
                            assert(r[t + 1] == r[0]);
                        } else {
                            assert(r.contains(h));
                            assert(l.contains(h));
                        }
                    }
                }
            }
            assert forall|i: int, j: int| 0 <= i < j < m.len() implies #[trigger] m[i] != #[trigger] m[j] by {
                if i == 0 {
                    assert(m[j] == rest[j - 1]);
                    assert(rest.contains(rest[j - 1]));
                } else {
                    assert(m[i] == rest[i - 1] && m[j] == rest[j - 1]);
                }
            }
        }
    }
}

/// Merge sort gives back the same positions, each once if they were, in
/// the order of `goes_before`.
pub proof fn lemma_msort(s: Seq<usize>, keys: Seq<KeyV>)
    ensures
        msort(s, keys).len() == s.len(),
        forall|x: usize| #[trigger] msort(s, keys).contains(x) <==> s.contains(x),
        sorted_by(keys, msort(s, keys)),
        no_repeat(s) ==> no_repeat(msort(s, keys)),
    decreases s.len(),
{
    if s.len() <= 1 {
        assert(msort(s, keys) == s);
    } else {
        let mid = s.len() / 2;
        let a = s.take(mid as int);
        let b = s.skip(mid as int);
        lemma_msort(a, keys);
        lemma_msort(b, keys);
        lemma_merge(msort(a, keys), msort(b, keys), keys);
        assert(s =~= a + b);
        assert forall|x: usize| #[trigger] s.contains(x) <==> a.contains(x) || b.contains(x) by {
            if s.contains(x) {
                let i = choose|i: int| 0 <= i < s.len() && s[i] == x;
                if i < mid {
                    assert(a[i] == x);
                } else {
                    assert(b[i - mid] == x);
                }
            }
            if a.contains(x) {
                let i = choose|i: int| 0 <= i < a.len() && a[i] == x;
                assert(s[i] == x);
            }
            if b.contains(x) {
                let i = choose|i: int| 0 <= i < b.len() && b[i] == x;
                assert(s[i + mid] == x);
            }
        }
        if no_repeat(s) {
            assert(no_repeat(a)) by {
                assert forall|i: int, j: int| 0 <= i < j < a.len() implies #[trigger] a[i] != #[trigger] a[j] by {
                    assert(a[i] == s[i] && a[j] == s[j]);
                }
            }
            assert(no_repeat(b)) by {
                assert forall|i: int, j: int| 0 <= i < j < b.len() implies #[trigger] b[i] != #[trigger] b[j] by {
                    assert(b[i] == s[i + mid] && b[j] == s[j + mid]);
                }
            }
            assert forall|x: usize| msort(a, keys).contains(x) implies !msort(b, keys).contains(x) by {
                assert(a.contains(x));
                let i = choose|i: int| 0 <= i < a.len() && a[i] == x;
                if b.contains(x) {
                    let j = choose|j: int| 0 <= j < b.len() && b[j] == x;
                    assert(s[i] == s[j + mid]);
                }
            }
        }
    }
}

} // verus!
