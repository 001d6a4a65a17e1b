//! Distinct numbers give distinct paths: when the number is forced into the
//! file name, `target` is one-to-one in the number. This is what lets the
//! numbering of a day look for a free name and always find one.
use vstd::prelude::*;
use crate::stamp::Stamp;
use crate::naming::{
    NameFormat, join, piece, name_pieces, dir_pieces, has_numero, nom_pieces, target,
    file_name_for, month_name,
};
use crate::text::{
    dec, trim_end_marks, end_mark, is_digit, all_digits, lemma_dec_digits, lemma_dec_injective,
};

verus! {

/// A name with holes: `Some(text)` is fixed text, `None` is where the
/// number goes.
pub open spec fn fill(t: Seq<Option<Seq<char>>>, n: nat) -> Seq<Seq<char>> {
    t.map_values(|o: Option<Seq<char>>| fill_one(o, n))
}

pub open spec fn fill_one(o: Option<Seq<char>>, n: nat) -> Seq<char> {
    match o {
        Some(s) => s,
        None => dec(n),
    }
}

pub open spec fn has_hole(t: Seq<Option<Seq<char>>>) -> bool {
    exists|i: int| 0 <= i < t.len() && #[trigger] t[i] is None
}

pub open spec fn holes(t: Seq<Option<Seq<char>>>) -> nat
    decreases t.len(),
{
    if t.len() == 0 {
        0
    } else {
        holes(t.drop_last()) + if t.last() is None {
            1nat
        } else {
            0nat
        }
    }
}

pub open spec fn fixed_len(t: Seq<Option<Seq<char>>>) -> nat
    decreases t.len(),
{
    if t.len() == 0 {
        0
    } else {
        fixed_len(t.drop_last()) + match t.last() {
            Some(s) => s.len(),
            None => 0nat,
        }
    }
}

proof fn lemma_fill_drop_last(t: Seq<Option<Seq<char>>>, n: nat)
    requires
        t.len() > 0,
    ensures
        fill(t, n).drop_last() == fill(t.drop_last(), n),
        fill(t, n).last() == fill_one(t.last(), n),
{
    assert(fill(t, n).drop_last() =~= fill(t.drop_last(), n));
}

proof fn lemma_fill_take(t: Seq<Option<Seq<char>>>, n: nat, k: int)
    requires
        0 <= k <= t.len(),
    ensures
        fill(t, n).take(k) == fill(t.take(k), n),
{
    assert(fill(t, n).take(k) =~= fill(t.take(k), n));
}

proof fn lemma_fill_skip(t: Seq<Option<Seq<char>>>, n: nat, k: int)
    requires
        0 <= k <= t.len(),
    ensures
        fill(t, n).skip(k) == fill(t.skip(k), n),
{
    assert(fill(t, n).skip(k) =~= fill(t.skip(k), n));
}

/// Without holes, the number does not matter.
proof fn lemma_fill_no_hole(t: Seq<Option<Seq<char>>>, a: nat, b: nat)
    requires
        forall|i: int| 0 <= i < t.len() ==> #[trigger] t[i] is Some,
    ensures
        fill(t, a) == fill(t, b),
{
    assert(fill(t, a) =~= fill(t, b));
}

// ---------- lemmas on join ----------

/// The length of a join.
proof fn lemma_join_len(t: Seq<Option<Seq<char>>>, sep: Seq<char>, n: nat)
    requires
        t.len() >= 1,
    ensures
        join(fill(t, n), sep).len() == fixed_len(t) + holes(t) * dec(n).len() + (t.len() - 1)
            * sep.len(),
    decreases t.len(),
{
    lemma_fill_drop_last(t, n);
    let d = dec(n).len();
    if t.len() == 1 {
        assert(t.drop_last().len() == 0);
        assert(fixed_len(t.drop_last()) == 0);
        assert(holes(t.drop_last()) == 0);
        assert(join(fill(t, n), sep) == fill(t, n)[0]);
        assert(fill(t, n)[0] == fill_one(t[0], n));
        assert(t.last() == t[0]);
        if t[0] is None {
            assert(holes(t) == 1);
            assert(holes(t) * d == d);
        } else {
            assert(holes(t) == 0);
            assert(holes(t) * d == 0);
        }
    } else {
        lemma_join_len(t.drop_last(), sep, n);
        let k = holes(t.drop_last());
        let s = sep.len();
        let m = t.len();
        assert((k + 1) * d == k * d + d) by (nonlinear_arith);
        assert((m - 1) * s == (m - 2) * s + s) by (nonlinear_arith);
        assert(join(fill(t, n), sep) == join(fill(t, n).drop_last(), sep) + sep + fill(t, n).last());
        if t.last() is None {
            assert(holes(t) == k + 1);
        } else {
            assert(holes(t) == k);
        }
    }
}

/// The join of the first `k` pieces is a prefix of the join of all.
proof fn lemma_join_prefix(s: Seq<Seq<char>>, sep: Seq<char>, k: int)
    requires
        1 <= k <= s.len(),
    ensures
        join(s, sep).len() >= join(s.take(k), sep).len(),
        join(s, sep).take(join(s.take(k), sep).len() as int) == join(s.take(k), sep),
    decreases s.len(),
{
    if k == s.len() {
        assert(s.take(k) =~= s);
        assert(join(s, sep).take(join(s, sep).len() as int) =~= join(s, sep));
    } else {
        assert(s.take(k) =~= s.drop_last().take(k));
        lemma_join_prefix(s.drop_last(), sep, k);
        let a = join(s.drop_last(), sep);
        let p = join(s.take(k), sep);
        assert(join(s, sep) == a + sep + s.last());
        assert((a + sep + s.last()).take(p.len() as int) =~= a.take(p.len() as int));
    }
}

/// A join splits around any separator.
proof fn lemma_join_split(s: Seq<Seq<char>>, sep: Seq<char>, k: int)
    requires
        1 <= k < s.len(),
    ensures
        join(s, sep) == join(s.take(k), sep) + sep + join(s.skip(k), sep),
    decreases s.len(),
{
    if k == s.len() - 1 {
        assert(s.take(k) =~= s.drop_last());
        assert(s.skip(k) =~= seq![s.last()]);
    } else {
        lemma_join_split(s.drop_last(), sep, k);
        assert(s.drop_last().take(k) =~= s.take(k));
        assert(s.drop_last().skip(k) =~= s.skip(k).drop_last());
        assert(s.skip(k).last() == s.last());
        assert(join(s.skip(k), sep) == join(s.skip(k).drop_last(), sep) + sep + s.skip(k).last());
        assert(join(s, sep) =~= join(s.take(k), sep) + sep + join(s.skip(k), sep));
    }
}

/// A join ends with its last piece.
proof fn lemma_join_ends_with_last(s: Seq<Seq<char>>, sep: Seq<char>)
    requires
        s.len() >= 1,
    ensures
        join(s, sep).len() >= s.last().len(),
        join(s, sep).skip(join(s, sep).len() - s.last().len()) == s.last(),
{
    let j = join(s, sep);
    if s.len() == 1 {
        assert(j.skip(0) =~= j);
    } else {
        let a = join(s.drop_last(), sep) + sep;
        assert(j == a + s.last());
        assert((a + s.last()).skip(a.len() as int) =~= s.last());
    }
}

// ---------- trimming after a digit ----------

/// Trailing-mark trimming stops at a character that is not a mark.
proof fn lemma_trim_after(x: Seq<char>, y: Seq<char>, spaces_too: bool)
    requires
        x.len() > 0,
        !end_mark(x.last(), spaces_too),
    ensures
        trim_end_marks(x + y, spaces_too) == x + trim_end_marks(y, spaces_too),
    decreases y.len(),
{
    if y.len() == 0 {
        assert(x + y =~= x);
        assert(trim_end_marks(x, spaces_too) == x);
        assert(x + trim_end_marks(y, spaces_too) =~= x);
    } else {
        assert((x + y).last() == y.last());
        assert((x + y).drop_last() =~= x + y.drop_last());
        if end_mark(y.last(), spaces_too) {
            lemma_trim_after(x, y.drop_last(), spaces_too);
        }
    }
}

// ---------- the first and the last hole ----------

proof fn lemma_first_hole(t: Seq<Option<Seq<char>>>) -> (f: int)
    requires
        has_hole(t),
    ensures
        0 <= f < t.len(),
        t[f] is None,
        forall|j: int| 0 <= j < f ==> #[trigger] t[j] is Some,
    decreases t.len(),
{
    if t[0] is None {
        0
    } else {
        let i = choose|i: int| 0 <= i < t.len() && #[trigger] t[i] is None;
        assert(t.drop_first()[i - 1] is None);
        let g = lemma_first_hole(t.drop_first());
        assert forall|j: int| 0 <= j < g + 1 implies #[trigger] t[j] is Some by {
            if j > 0 {
                assert(t[j] == t.drop_first()[j - 1]);
            }
        }
        g + 1
    }
}

proof fn lemma_last_hole(t: Seq<Option<Seq<char>>>) -> (l: int)
    requires
        has_hole(t),
    ensures
        0 <= l < t.len(),
        t[l] is None,
        forall|j: int| l < j < t.len() ==> #[trigger] t[j] is Some,
    decreases t.len(),
{
    if t.last() is None {
        t.len() - 1
    } else {
        let i = choose|i: int| 0 <= i < t.len() && #[trigger] t[i] is None;
        assert(t.drop_last()[i] is None);
        let g = lemma_last_hole(t.drop_last());
        assert forall|j: int| g < j < t.len() implies #[trigger] t[j] is Some by {
            if j < t.len() - 1 {
                assert(t[j] == t.drop_last()[j]);
            }
        }
        g
    }
}

proof fn lemma_holes_pos(t: Seq<Option<Seq<char>>>, i: int)
    requires
        0 <= i < t.len(),
        t[i] is None,
    ensures
        holes(t) >= 1,
    decreases t.len(),
{
    if i < t.len() - 1 {
        assert(t.drop_last()[i] is None);
        lemma_holes_pos(t.drop_last(), i);
    }
}

// ---------- the core argument ----------

/// The text before the first hole, with its separator.
pub open spec fn head_text(t: Seq<Option<Seq<char>>>, sep: Seq<char>, f: int) -> Seq<char> {
    if f == 0 {
        Seq::empty()
    } else {
        join(fill(t.take(f), 0), sep) + sep
    }
}

/// The filled name starts with the text before the first hole, then the
/// number.
proof fn lemma_starts_with_number(t: Seq<Option<Seq<char>>>, sep: Seq<char>, f: int, n: nat)
    requires
        0 <= f < t.len(),
        t[f] is None,
        forall|j: int| 0 <= j < f ==> #[trigger] t[j] is Some,
    ensures
        join(fill(t, n), sep).len() >= head_text(t, sep, f).len() + dec(n).len(),
        join(fill(t, n), sep).take((head_text(t, sep, f).len() + dec(n).len()) as int) == head_text(
            t,
            sep,
            f,
        ) + dec(n),
{
    let s = fill(t, n);
    lemma_join_prefix(s, sep, f + 1);
    lemma_fill_take(t, n, f + 1);
    lemma_fill_take(t, n, f);
    let u = s.take(f + 1);
    assert(u.last() == dec(n));
    assert(u.drop_last() =~= s.take(f));
    if f == 0 {
        assert(join(u, sep) == dec(n));
        assert(head_text(t, sep, f) + dec(n) =~= dec(n));
    } else {
        assert forall|j: int| 0 <= j < t.take(f).len() implies #[trigger] t.take(f)[j] is Some by {
            assert(t.take(f)[j] == t[j]);
        }
        lemma_fill_no_hole(t.take(f), n, 0);
        assert(join(u, sep) == join(s.take(f), sep) + sep + dec(n));
        assert(join(u, sep) =~= head_text(t, sep, f) + dec(n));
    }
}

/// The text after the last hole, with its separator.
pub open spec fn tail_text(t: Seq<Option<Seq<char>>>, sep: Seq<char>, l: int) -> Seq<char> {
    if l + 1 == t.len() {
        Seq::empty()
    } else {
        sep + join(fill(t.skip(l + 1), 0), sep)
    }
}

/// The filled name is a part ending with the number, then fixed text.
proof fn lemma_ends_with_tail(t: Seq<Option<Seq<char>>>, sep: Seq<char>, l: int, n: nat)
    requires
        0 <= l < t.len(),
        t[l] is None,
        forall|j: int| l < j < t.len() ==> #[trigger] t[j] is Some,
    ensures
        join(fill(t, n), sep) == join(fill(t.take(l + 1), n), sep) + tail_text(t, sep, l),
{
    let s = fill(t, n);
    lemma_fill_take(t, n, l + 1);
    if l + 1 == t.len() {
        assert(t.take(l + 1) =~= t);
        assert(join(s, sep) + Seq::<char>::empty() =~= join(s, sep));
    } else {
        lemma_join_split(s, sep, l + 1);
        lemma_fill_skip(t, n, l + 1);
        assert forall|j: int| 0 <= j < t.skip(l + 1).len() implies #[trigger] t.skip(
            l + 1,
        )[j] is Some by {
            assert(t.skip(l + 1)[j] == t[j + l + 1]);
        }
        lemma_fill_no_hole(t.skip(l + 1), n, 0);
        assert(join(s, sep) =~= join(fill(t.take(l + 1), n), sep) + tail_text(t, sep, l));
    }
}

/// With at least one hole, distinct numbers fill a name into distinct
/// paths, whatever fixed text comes before and after it.
pub proof fn lemma_filled_injective(
    t: Seq<Option<Seq<char>>>,
    sep: Seq<char>,
    pre: Seq<char>,
    post: Seq<char>,
    a: nat,
    b: nat,
)
    requires
        has_hole(t),
        pre + trim_end_marks(join(fill(t, a), sep), true) + post == pre + trim_end_marks(
            join(fill(t, b), sep),
            true,
        ) + post,
    ensures
        a == b,
{
    let f = lemma_first_hole(t);
    let l = lemma_last_hole(t);
    let p = head_text(t, sep, f);
    let tl = tail_text(t, sep, l);
    let tt = trim_end_marks(tl, true);
    let wa = join(fill(t.take(l + 1), a), sep);
    let wb = join(fill(t.take(l + 1), b), sep);
    // Each filled name is w + tail, and w ends with a digit.
    assert forall|n: nat| #![trigger dec(n)]
        trim_end_marks(join(fill(t, n), sep), true) == join(fill(t.take(l + 1), n), sep) + tt by {
        lemma_ends_with_tail(t, sep, l, n);
        let w = join(fill(t.take(l + 1), n), sep);
        let u = fill(t.take(l + 1), n);
        lemma_fill_drop_last(t.take(l + 1), n);
        assert(u.last() == dec(n));
        lemma_join_ends_with_last(u, sep);
        lemma_dec_digits(n);
        assert(w.last() == dec(n).last());
        assert(is_digit(dec(n).last()));
        lemma_trim_after(w, tl, true);
    }
    assert(trim_end_marks(join(fill(t, a), sep), true) == wa + tt);
    assert(trim_end_marks(join(fill(t, b), sep), true) == wb + tt);
    // Cancel what comes before and after.
    let xa = pre + (wa + tt) + post;
    let xb = pre + (wb + tt) + post;
    assert(xa == xb);
    assert(xa.len() == xb.len());
    assert(wa.len() == wb.len());
    assert(wa =~= xa.subrange(pre.len() as int, (pre.len() + wa.len()) as int));
    assert(wb =~= xb.subrange(pre.len() as int, (pre.len() + wb.len()) as int));
    assert(wa == wb);
    // Equal lengths force numbers of the same length.
    lemma_ends_with_tail(t, sep, l, a);
    lemma_ends_with_tail(t, sep, l, b);
    lemma_join_len(t, sep, a);
    lemma_join_len(t, sep, b);
    lemma_holes_pos(t, f);
    let k = holes(t);
    let da = dec(a).len();
    let db = dec(b).len();
    assert(k * da == k * db);
    assert(da == db) by (nonlinear_arith)
        requires
            k >= 1,
            k * da == k * db,
    ;
    // The number itself sits right after the fixed head.
    let ta = t.take(l + 1);
    assert(ta[f] is None);
    assert forall|j: int| 0 <= j < f implies #[trigger] ta[j] is Some by {
        assert(ta[j] == t[j]);
    }
    lemma_starts_with_number(ta, sep, f, a);
    lemma_starts_with_number(ta, sep, f, b);
    assert(ta.take(f) =~= t.take(f));
    let m = (p.len() + da) as int;
    assert(wa.take(m) == p + dec(a));
    assert(wb.take(m) == p + dec(b));
    assert(dec(a) =~= (p + dec(a)).skip(p.len() as int));
    assert(dec(b) =~= (p + dec(b)).skip(p.len() as int));
    lemma_dec_injective(a, b);
}

// ---------- the format as a name with a hole ----------

/// The pieces of a name as fixed text and holes for `numero`.
pub open spec fn name_template(ts: Stamp, fmt: NameFormat, elements: Seq<String>) -> Seq<
    Option<Seq<char>>,
>
    decreases elements.len(),
{
    if elements.len() == 0 {
        Seq::empty()
    } else {
        let rest = name_template(ts, fmt, elements.drop_last());
        if elements.last()@ == "numero"@ {
            rest.push(None)
        } else {
            match piece(ts, elements.last()@, fmt, 0) {
                Some(p) => rest.push(Some(p)),
                None => rest,
            }
        }
    }
}

proof fn lemma_numero_is_no_other_element()
    ensures
        "numero"@ != "motcle"@,
        "numero"@ != "jour"@,
        "numero"@ != "mois"@,
        "numero"@ != "annee"@,
        "numero"@ != "heure"@,
{
    reveal_strlit("numero");
    reveal_strlit("motcle");
    reveal_strlit("jour");
    reveal_strlit("mois");
    reveal_strlit("annee");
    reveal_strlit("heure");
    assert("numero"@[0] != "motcle"@[0]);
    assert("numero"@[0] != "jour"@[0]);
    assert("numero"@[0] != "mois"@[0]);
    assert("numero"@[0] != "annee"@[0]);
    assert("numero"@[0] != "heure"@[0]);
}

proof fn lemma_piece_without_number(ts: Stamp, e: Seq<char>, fmt: NameFormat, a: nat, b: nat)
    requires
        e != "numero"@,
    ensures
        piece(ts, e, fmt, a) == piece(ts, e, fmt, b),
{
}

proof fn lemma_name_template(ts: Stamp, fmt: NameFormat, elements: Seq<String>, n: nat)
    ensures
        name_pieces(ts, fmt, elements, n) == fill(name_template(ts, fmt, elements), n),
        has_numero(elements) ==> has_hole(name_template(ts, fmt, elements)),
    decreases elements.len(),
{
    if elements.len() > 0 {
        let rest = elements.drop_last();
        lemma_name_template(ts, fmt, rest, n);
        let t0 = name_template(ts, fmt, rest);
        let e = elements.last()@;
        if e == "numero"@ {
            lemma_numero_is_no_other_element();
            assert(piece(ts, e, fmt, n) == Some(dec(n)));
            assert(fill(t0.push(None), n) =~= fill(t0, n).push(dec(n)));
            assert(t0.push(None)[t0.len() as int] is None);
        } else {
            lemma_piece_without_number(ts, e, fmt, n, 0);
            match piece(ts, e, fmt, 0) {
                Some(p) => {
                    assert(fill(t0.push(Some(p)), n) =~= fill(t0, n).push(p));
                },
                None => {},
            }
        }
        if has_numero(elements) {
            let i = choose|i: int| 0 <= i < elements.len() && #[trigger] elements[i]@ == "numero"@;
            if i < elements.len() - 1 {
                assert(rest[i] == elements[i]);
                assert(has_numero(rest));
                let j = choose|j: int| 0 <= j < t0.len() && #[trigger] t0[j] is None;
                let t1 = name_template(ts, fmt, elements);
                assert(t1[j] == t0[j]);
            }
        }
    } else {
        assert(fill(Seq::<Option<Seq<char>>>::empty(), n) =~= Seq::<Seq<char>>::empty());
    }
}

proof fn lemma_dirs_without_number(ts: Stamp, fmt: NameFormat, ds: Seq<String>, a: nat, b: nat)
    ensures
        dir_pieces(ts, fmt, ds, a) == dir_pieces(ts, fmt, ds, b),
    decreases ds.len(),
{
    if ds.len() > 0 {
        lemma_dirs_without_number(ts, fmt, ds.drop_last(), a, b);
        if ds.last()@ != "numero"@ {
            lemma_piece_without_number(ts, ds.last()@, fmt, a, b);
        }
    }
}

/// The name template used when the number is forced.
pub open spec fn forced_template(ts: Stamp, fmt: NameFormat) -> Seq<Option<Seq<char>>> {
    let base = name_template(ts, fmt, fmt.elements@);
    let t1 = if base.len() == 0 {
        seq![Some(dec(ts.day as nat)), Some(month_name(ts.month as int))]
    } else {
        base
    };
    if !has_numero(fmt.elements@) {
        t1.push(None)
    } else {
        t1
    }
}

proof fn lemma_forced_template(ts: Stamp, fmt: NameFormat, n: nat)
    ensures
        nom_pieces(ts, n, fmt, true) == fill(forced_template(ts, fmt), n),
        has_hole(forced_template(ts, fmt)),
{
    lemma_name_template(ts, fmt, fmt.elements@, n);
    let base = name_template(ts, fmt, fmt.elements@);
    let t1 = if base.len() == 0 {
        seq![Some(dec(ts.day as nat)), Some(month_name(ts.month as int))]
    } else {
        base
    };
    if base.len() == 0 {
        assert(fill(t1, n) =~= seq![dec(ts.day as nat), month_name(ts.month as int)]);
    }
    if !has_numero(fmt.elements@) {
        assert(fill(t1.push(None), n) =~= fill(t1, n).push(dec(n)));
        assert(t1.push(None)[t1.len() as int] is None);
    } else {
        let j = choose|j: int| 0 <= j < base.len() && #[trigger] base[j] is None;
        assert(t1[j] is None);
    }
}

/// With the number forced into the name, distinct numbers give distinct
/// paths.
pub proof fn lemma_target_injective(ts: Stamp, ext: Seq<char>, fmt: NameFormat, a: nat, b: nat)
    requires
        target(ts, a, ext, fmt, true) == target(ts, b, ext, fmt, true),
    ensures
        a == b,
{
    lemma_forced_template(ts, fmt, a);
    lemma_forced_template(ts, fmt, b);
    lemma_dirs_without_number(ts, fmt, fmt.dossiers@, a, b);
    let t = forced_template(ts, fmt);
    let dirs = dir_pieces(ts, fmt, fmt.dossiers@, a);
    let slash = "/"@;
    let pre = if dirs.len() == 0 {
        Seq::<char>::empty()
    } else {
        join(dirs, slash) + slash
    };
    let post = seq!['.'] + ext;
    assert forall|n: nat| #![trigger dec(n)]
        dir_pieces(ts, fmt, fmt.dossiers@, n) == dirs implies target(ts, n, ext, fmt, true) == pre
        + trim_end_marks(join(fill(t, n), fmt.sep()), true) + post by {
        lemma_forced_template(ts, fmt, n);
        let file = file_name_for(ts, n, ext, fmt, true);
        let v = dirs.push(file);
        assert(v.drop_last() =~= dirs);
        assert(v.last() == file);
        if dirs.len() == 0 {
            assert(join(v, slash) == file);
        } else {
            assert(join(v, slash) == join(dirs, slash) + slash + file);
        }
        assert(target(ts, n, ext, fmt, true) =~= pre + trim_end_marks(
            join(fill(t, n), fmt.sep()),
            true,
        ) + post);
    }
    assert(dec(a) == dec(a));
    assert(dec(b) == dec(b));
    lemma_filled_injective(t, fmt.sep(), pre, post, a, b);
}

} // verus!
