//! The shape of the paths that the format writes: how a relative path
//! splits at its slashes, and what the pieces of a path are made of.
use vstd::prelude::*;
use crate::naming::{
    NameFormat, piece, month_name, month_abbrev, is_month_abbrev, is_month_name, segment_matches,
    join, dir_pieces, name_pieces, nom_pieces, file_name_for, folder_tokens,
};
use crate::stamp::Stamp;
use crate::text::{dec, dec2, idec, all_digits, digits_value, trim_end_marks, lemma_dec_digits, is_digit, digit_char, digit_value};

verus! {

/// Whether `s` holds no `/`.
pub open spec fn slash_free(s: Seq<char>) -> bool {
    forall|i: int| 0 <= i < s.len() ==> #[trigger] s[i] != '/'
}

/// The folder tokens that the format knows.
pub open spec fn known_folder_token(t: Seq<char>) -> bool {
    ||| t == "annee"@
    ||| t == "mois"@
    ||| t == "jour"@
    ||| t == "heure"@
    ||| t == "motcle"@
    ||| t == "numero"@
}

/// The parts of a relative path between its slashes, as std's
/// `split('/')` gives them.
pub open spec fn segments(s: Seq<char>) -> Seq<Seq<char>>
    decreases s.len(),
{
    if s.len() == 0 {
        seq![Seq::empty()]
    } else {
        let r = segments(s.drop_last());
        if s.last() == '/' {
            r.push(Seq::empty())
        } else {
            r.update(r.len() - 1, r.last().push(s.last()))
        }
    }
}

// ---------- decimal pieces ----------

pub proof fn lemma_dec_len(n: nat)
    ensures
        n < 10 ==> dec(n).len() == 1,
        10 <= n < 100 ==> dec(n).len() == 2,
        100 <= n < 1000 ==> dec(n).len() == 3,
        1000 <= n < 10000 ==> dec(n).len() == 4,
    decreases n,
{
    if n >= 10 {
        lemma_dec_len(n / 10);
    }
}

/// `{:02}` of a number under a hundred: two digits that stand for it.
pub proof fn lemma_dec2_digits(n: nat)
    requires
        n < 100,
    ensures
        dec2(n).len() == 2,
        all_digits(dec2(n)),
        digits_value(dec2(n)) == n,
{
    lemma_dec_len(n);
    if n < 10 {
        let s = dec2(n);
        assert(is_digit(digit_char(n)) && digit_value(digit_char(n)) == n);
        assert(s.drop_last() =~= seq!['0']);
        assert(seq!['0'].drop_last() =~= Seq::<char>::empty());
        assert(digit_value('0') == 0);
        assert(digits_value(Seq::<char>::empty()) == 0);
        assert(seq!['0'].last() == '0');
        assert(digits_value(seq!['0']) == digits_value(seq!['0'].drop_last()) * 10 + digit_value('0'));
        assert(digits_value(seq!['0']) == 0);
        assert(s.last() == digit_char(n));
    } else {
        lemma_dec_digits(n);
    }
}

proof fn lemma_digits_kept(s: Seq<char>)
    requires
        s.len() > 0,
        all_digits(s),
    ensures
        trim_end_marks(s, false) == s,
        slash_free(s),
{
    assert(is_digit(s[s.len() - 1]));
}

// ---------- trimming ----------

/// Trimming the end keeps a prefix.
pub proof fn lemma_trim_prefix(s: Seq<char>, spaces_too: bool)
    ensures
        trim_end_marks(s, spaces_too).len() <= s.len(),
        trim_end_marks(s, spaces_too) == s.take(trim_end_marks(s, spaces_too).len() as int),
        slash_free(s) ==> slash_free(trim_end_marks(s, spaces_too)),
    decreases s.len(),
{
    if s.len() > 0 && crate::text::end_mark(s.last(), spaces_too) {
        lemma_trim_prefix(s.drop_last(), spaces_too);
        let t = trim_end_marks(s, spaces_too);
        assert(s.drop_last().take(t.len() as int) =~= s.take(t.len() as int));
    } else {
        assert(s.take(s.len() as int) =~= s);
    }
    let t = trim_end_marks(s, spaces_too);
    if slash_free(s) {
        assert forall|i: int| 0 <= i < t.len() implies #[trigger] t[i] != '/' by {
            assert(t[i] == s.take(t.len() as int)[i]);
        }
    }
}

/// A text that starts with something else than a dot keeps that start.
proof fn lemma_trim_keeps_first(s: Seq<char>)
    requires
        s.len() > 0,
        s[0] != '.',
    ensures
        trim_end_marks(s, false).len() > 0,
    decreases s.len(),
{
    if s.len() > 1 && crate::text::end_mark(s.last(), false) {
        assert(s.drop_last()[0] == s[0]);
        lemma_trim_keeps_first(s.drop_last());
    }
}

/// The keyword holds no `/`.
proof fn lemma_kept_slash_free(s: Seq<char>)
    ensures
        slash_free(crate::naming::keyword_chars_kept(s)),
    decreases s.len(),
{
    if s.len() > 0 {
        lemma_kept_slash_free(s.drop_last());
        let r = crate::naming::keyword_chars_kept(s.drop_last());
        if crate::naming::keyword_char_kept(s.last()) {
            assert forall|i: int| 0 <= i < r.push(s.last()).len() implies #[trigger] r.push(s.last())[i] != '/' by {
                if i < r.len() {
                    assert(r.push(s.last())[i] == r[i]);
                }
            }
        }
    }
}

proof fn lemma_keyword_slash_free(fmt: NameFormat)
    ensures
        slash_free(fmt.keyword()),
{
    lemma_kept_slash_free(crate::text::trim(fmt.motcle@));
}

// ---------- month names ----------

proof fn lemma_month_texts(m: int)
    requires
        1 <= m <= 12,
    ensures
        month_name(m).len() > 0,
        month_name(m).last() != '.',
        slash_free(month_name(m)),
        slash_free(month_abbrev(m)),
        month_abbrev(m).len() > 0,
        month_abbrev(m)[0] != '.',
{
    reveal_strlit("janvier");
    reveal_strlit("février");
    reveal_strlit("mars");
    reveal_strlit("avril");
    reveal_strlit("mai");
    reveal_strlit("juin");
    reveal_strlit("juillet");
    reveal_strlit("août");
    reveal_strlit("septembre");
    reveal_strlit("octobre");
    reveal_strlit("novembre");
    reveal_strlit("décembre");
    reveal_strlit("janv.");
    reveal_strlit("févr.");
    reveal_strlit("avr.");
    reveal_strlit("juil.");
    reveal_strlit("sept.");
    reveal_strlit("oct.");
    reveal_strlit("nov.");
    reveal_strlit("déc.");
}

// ---------- the hour piece ----------

proof fn lemma_hour_piece(h: nat, mi: nat)
    requires
        h < 100,
        mi < 100,
    ensures
        ({
            let s = dec2(h) + seq!['h'] + dec2(mi);
            let b = vstd::utf8::encode_utf8(s);
            &&& s.len() == 5
            &&& trim_end_marks(s, false) == s
            &&& slash_free(s)
            &&& b.len() == 5
            &&& b[2] == 104u8
        }),
{
    lemma_dec2_digits(h);
    lemma_dec2_digits(mi);
    let s = dec2(h) + seq!['h'] + dec2(mi);
    assert(s[2] == 'h');
    assert(s[4] == dec2(mi)[1]);
    assert(is_digit(dec2(mi)[1]));
    assert forall|i: int| 0 <= i < s.len() implies #[trigger] s[i] != '/' by {
        if i < 2 {
            assert(s[i] == dec2(h)[i] && is_digit(dec2(h)[i]));
        } else if i > 2 {
            assert(s[i] == dec2(mi)[i - 3] && is_digit(dec2(mi)[i - 3]));
        }
    }
    assert(vstd::utf8::is_ascii_chars(s)) by {
        assert forall|i: int| 0 <= i < s.len() implies '\0' <= #[trigger] s[i] <= '\u{7f}' by {
            if i < 2 {
                assert(s[i] == dec2(h)[i] && is_digit(dec2(h)[i]));
            } else if i > 2 {
                assert(s[i] == dec2(mi)[i - 3] && is_digit(dec2(mi)[i - 3]));
            }
        }
    }
    vstd::utf8::is_ascii_chars_encode_utf8(s);
    assert(vstd::utf8::encode_utf8(s)[2] == s[2] as u8);
}

// ---------- each piece is recognised ----------

pub proof fn lemma_tokens_distinct()
    ensures
        "annee"@ != "mois"@,
        "annee"@ != "jour"@,
        "annee"@ != "heure"@,
        "annee"@ != "motcle"@,
        "annee"@ != "numero"@,
        "mois"@ != "jour"@,
        "mois"@ != "heure"@,
        "mois"@ != "motcle"@,
        "mois"@ != "numero"@,
        "jour"@ != "heure"@,
        "jour"@ != "motcle"@,
        "jour"@ != "numero"@,
        "heure"@ != "motcle"@,
        "heure"@ != "numero"@,
        "motcle"@ != "numero"@,
{
    reveal_strlit("annee");
    reveal_strlit("mois");
    reveal_strlit("jour");
    reveal_strlit("heure");
    reveal_strlit("motcle");
    reveal_strlit("numero");
    assert("annee"@[0] != "mois"@[0]);
    assert("annee"@[0] != "jour"@[0]);
    assert("annee"@[0] != "heure"@[0]);
    assert("annee"@[0] != "motcle"@[0]);
    assert("annee"@[0] != "numero"@[0]);
    assert("mois"@[2] != "motcle"@[2]);
    assert("mois"@[0] != "jour"@[0]);
    assert("mois"@[0] != "heure"@[0]);
    assert("mois"@[0] != "numero"@[0]);
    assert("jour"@[0] != "heure"@[0]);
    assert("jour"@[0] != "motcle"@[0]);
    assert("jour"@[0] != "numero"@[0]);
    assert("heure"@[0] != "motcle"@[0]);
    assert("heure"@[0] != "numero"@[0]);
    assert("motcle"@[0] != "numero"@[0]);
}

/// A folder piece written for a known token, its trailing dots removed, is
/// recognised as that token's folder (given a keyword that ends otherwise
/// than with a dot, when the token is `motcle`).
pub proof fn lemma_piece_recognised(ts: Stamp, token: Seq<char>, fmt: NameFormat, n: nat)
    requires
        ts.wf(),
        1000 <= ts.year <= 9999,
        known_folder_token(token),
        token != "numero"@,
        token == "motcle"@ ==> fmt.keyword().len() > 0 && fmt.keyword().last() != '.',
    ensures
        piece(ts, token, fmt, n) matches Some(p) && segment_matches(trim_end_marks(p, false), token, fmt)
            && trim_end_marks(p, false).len() > 0 && slash_free(trim_end_marks(p, false)),
{
    lemma_tokens_distinct();
    let y = ts.year as int;
    if token == "annee"@ {
        if fmt.style_of("annee"@, "2026"@) == "26"@ {
            lemma_dec2_digits((y % 100) as nat);
            lemma_digits_kept(dec2((y % 100) as nat));
            assert(piece(ts, token, fmt, n) == Some(dec2((y % 100) as nat)));
            assert(segment_matches(dec2((y % 100) as nat), token, fmt));
        } else {
            lemma_dec_len(y as nat);
            lemma_dec_digits(y as nat);
            lemma_digits_kept(dec(y as nat));
            assert(idec(y) == dec(y as nat));
            assert(piece(ts, token, fmt, n) == Some(dec(y as nat)));
            assert(segment_matches(dec(y as nat), token, fmt));
        }
    } else if token == "mois"@ {
        let st = fmt.style_of("mois"@, "avril"@);
        let m = ts.month as int;
        lemma_month_texts(m);
        if st == "avr"@ {
            let p = month_abbrev(m);
            assert(trim_end_marks(p, false) == trim_end_marks(month_abbrev(m), false));
            assert(is_month_abbrev(trim_end_marks(p, false)));
            lemma_trim_prefix(p, false);
            lemma_trim_keeps_first(p);
        } else if st == "04"@ {
            lemma_dec2_digits(m as nat);
            lemma_digits_kept(dec2(m as nat));
        } else if st == "4"@ {
            lemma_dec_len(m as nat);
            lemma_dec_digits(m as nat);
            lemma_digits_kept(dec(m as nat));
        } else {
            let p = month_name(m);
            assert(trim_end_marks(p, false) == p);
            assert(is_month_name(p));
        }
    } else if token == "jour"@ {
        let d = ts.day as nat;
        lemma_dec_len(d);
        lemma_dec_digits(d);
        lemma_dec2_digits(d);
        lemma_digits_kept(dec(d));
        lemma_digits_kept(dec2(d));
    } else if token == "heure"@ {
        lemma_hour_piece(ts.hour as nat, ts.minute as nat);
    } else {
        assert(token == "motcle"@);
        let k = fmt.keyword();
        assert(trim_end_marks(k, false) == k);
        lemma_keyword_slash_free(fmt);
    }
}


// ---------- no slash in what is written ----------

proof fn lemma_digits_slash_free(s: Seq<char>)
    requires
        all_digits(s),
    ensures
        slash_free(s),
{
    assert forall|i: int| 0 <= i < s.len() implies #[trigger] s[i] != '/' by {
        assert(is_digit(s[i]));
    }
}

proof fn lemma_dec_slash_free(n: nat)
    ensures
        slash_free(dec(n)),
        slash_free(dec2(n)),
{
    lemma_dec_digits(n);
    lemma_digits_slash_free(dec(n));
    if n < 10 {
        lemma_dec2_digits(n);
        lemma_digits_slash_free(dec2(n));
    }
}

proof fn lemma_idec_slash_free(i: int)
    ensures
        slash_free(idec(i)),
{
    if i < 0 {
        lemma_dec_slash_free((-i) as nat);
        let s = idec(i);
        let d = dec((-i) as nat);
        assert forall|k: int| 0 <= k < s.len() implies #[trigger] s[k] != '/' by {
            if k > 0 {
                assert(s[k] == d[k - 1]);
            }
        }
    } else {
        lemma_dec_slash_free(i as nat);
    }
}

/// No piece that the format writes holds a `/`.
pub proof fn lemma_piece_slash_free(ts: Stamp, e: Seq<char>, fmt: NameFormat, n: nat)
    requires
        ts.wf(),
    ensures
        piece(ts, e, fmt, n) matches Some(p) ==> slash_free(p),
{
    lemma_tokens_distinct();
    lemma_keyword_slash_free(fmt);
    lemma_dec_slash_free(ts.day as nat);
    lemma_dec_slash_free(ts.month as nat);
    lemma_dec_slash_free(((ts.year as int) % 100) as nat);
    lemma_idec_slash_free(ts.year as int);
    lemma_dec_slash_free(n);
    lemma_month_texts(ts.month as int);
    lemma_hour_piece(ts.hour as nat, ts.minute as nat);
}

proof fn lemma_concat_slash_free(a: Seq<char>, b: Seq<char>)
    requires
        slash_free(a),
        slash_free(b),
    ensures
        slash_free(a + b),
{
    assert forall|i: int| 0 <= i < (a + b).len() implies #[trigger] (a + b)[i] != '/' by {
        if i < a.len() {
            assert((a + b)[i] == a[i]);
        } else {
            assert((a + b)[i] == b[i - a.len()]);
        }
    }
}

proof fn lemma_join_slash_free(parts: Seq<Seq<char>>, sep: Seq<char>)
    requires
        slash_free(sep),
        forall|i: int| 0 <= i < parts.len() ==> slash_free(#[trigger] parts[i]),
    ensures
        slash_free(join(parts, sep)),
    decreases parts.len(),
{
    if parts.len() == 1 {
        assert(slash_free(parts[0]));
    } else if parts.len() > 1 {
        let r = parts.drop_last();
        assert forall|i: int| 0 <= i < r.len() implies slash_free(#[trigger] r[i]) by {
            assert(r[i] == parts[i]);
        }
        lemma_join_slash_free(r, sep);
        assert(slash_free(parts[parts.len() - 1]));
        lemma_concat_slash_free(join(r, sep), sep);
        lemma_concat_slash_free(join(r, sep) + sep, parts.last());
    }
}

proof fn lemma_name_pieces_slash_free(ts: Stamp, fmt: NameFormat, elements: Seq<String>, n: nat)
    requires
        ts.wf(),
    ensures
        forall|i: int| 0 <= i < name_pieces(ts, fmt, elements, n).len()
            ==> slash_free(#[trigger] name_pieces(ts, fmt, elements, n)[i]),
    decreases elements.len(),
{
    if elements.len() > 0 {
        lemma_name_pieces_slash_free(ts, fmt, elements.drop_last(), n);
        lemma_piece_slash_free(ts, elements.last()@, fmt, n);
        let rest = name_pieces(ts, fmt, elements.drop_last(), n);
        let cur = name_pieces(ts, fmt, elements, n);
        assert forall|i: int| 0 <= i < cur.len() implies slash_free(#[trigger] cur[i]) by {
            if i < rest.len() {
                assert(cur[i] == rest[i]);
            }
        }
    }
}

proof fn lemma_sep_slash_free(fmt: NameFormat)
    ensures
        slash_free(fmt.sep()),
{
    reveal_strlit(".");
    reveal_strlit("-");
    reveal_strlit("_");
    reveal_strlit(" ");
}

/// A file name written by the format holds no `/` when its extension holds none.
pub proof fn lemma_file_name_slash_free(ts: Stamp, n: nat, ext: Seq<char>, fmt: NameFormat, force: bool)
    requires
        ts.wf(),
        slash_free(ext),
    ensures
        slash_free(file_name_for(ts, n, ext, fmt, force)),
{
    lemma_name_pieces_slash_free(ts, fmt, fmt.elements@, n);
    lemma_dec_slash_free(ts.day as nat);
    lemma_dec_slash_free(n);
    lemma_month_texts(ts.month as int);
    let p = name_pieces(ts, fmt, fmt.elements@, n);
    let p1 = if p.len() == 0 {
        seq![dec(ts.day as nat), month_name(ts.month as int)]
    } else {
        p
    };
    assert forall|i: int| 0 <= i < p1.len() implies slash_free(#[trigger] p1[i]) by {
        if p.len() == 0 {
            if i == 0 {
                assert(p1[i] == dec(ts.day as nat));
            } else {
                assert(p1[i] == month_name(ts.month as int));
            }
        }
    }
    let np = nom_pieces(ts, n, fmt, force);
    assert forall|i: int| 0 <= i < np.len() implies slash_free(#[trigger] np[i]) by {
        if i < p1.len() {
            assert(np[i] == p1[i]);
        } else {
            assert(np[i] == dec(n));
        }
    }
    lemma_sep_slash_free(fmt);
    lemma_join_slash_free(np, fmt.sep());
    lemma_trim_prefix(join(np, fmt.sep()), true);
    let stem = trim_end_marks(join(np, fmt.sep()), true);
    assert(slash_free(seq!['.']));
    lemma_concat_slash_free(stem, seq!['.']);
    lemma_concat_slash_free(stem + seq!['.'], ext);
}

// ---------- the folders ----------

/// For a format whose folder tokens are all known (with a keyword that is
/// not empty and does not end with a dot when `motcle` is one of them),
/// each token gives one folder, which is recognised as that token's.
pub proof fn lemma_dir_pieces_match(ts: Stamp, fmt: NameFormat, dossiers: Seq<String>, n: nat)
    requires
        ts.wf(),
        1000 <= ts.year <= 9999,
        forall|i: int| 0 <= i < dossiers.len() ==> known_folder_token(#[trigger] dossiers[i]@),
        forall|i: int| 0 <= i < dossiers.len() && #[trigger] dossiers[i]@ == "motcle"@
            ==> fmt.keyword().len() > 0 && fmt.keyword().last() != '.',
    ensures
        dir_pieces(ts, fmt, dossiers, n).len() == folder_tokens(dossiers).len(),
        forall|i: int| 0 <= i < folder_tokens(dossiers).len() ==> segment_matches(
            dir_pieces(ts, fmt, dossiers, n)[i],
            #[trigger] folder_tokens(dossiers)[i],
            fmt,
        ),
        forall|i: int| 0 <= i < dir_pieces(ts, fmt, dossiers, n).len()
            ==> slash_free(#[trigger] dir_pieces(ts, fmt, dossiers, n)[i]),
    decreases dossiers.len(),
{
    if dossiers.len() > 0 {
        let r = dossiers.drop_last();
        assert forall|i: int| 0 <= i < r.len() implies known_folder_token(#[trigger] r[i]@) by {
            assert(r[i] == dossiers[i]);
        }
        assert forall|i: int| 0 <= i < r.len() && #[trigger] r[i]@ == "motcle"@
            implies fmt.keyword().len() > 0 && fmt.keyword().last() != '.' by {
            assert(r[i] == dossiers[i]);
        }
        lemma_dir_pieces_match(ts, fmt, r, n);
        let d = dossiers.last()@;
        assert(known_folder_token(dossiers[dossiers.len() - 1]@));
        let rest = dir_pieces(ts, fmt, r, n);
        let cur = dir_pieces(ts, fmt, dossiers, n);
        let toks0 = folder_tokens(r);
        let toks = folder_tokens(dossiers);
        if d != "numero"@ {
            if d == "motcle"@ {
                assert(dossiers[dossiers.len() - 1]@ == "motcle"@);
            }
            lemma_piece_recognised(ts, d, fmt, n);
            let p = piece(ts, d, fmt, n)->Some_0;
            assert(cur == rest.push(trim_end_marks(p, false)));
            assert(toks == toks0.push(d));
            assert forall|i: int| 0 <= i < toks.len() implies segment_matches(
                cur[i],
                #[trigger] toks[i],
                fmt,
            ) by {
                if i < toks0.len() {
                    assert(cur[i] == rest[i]);
                    assert(toks[i] == toks0[i]);
                }
            }
            assert forall|i: int| 0 <= i < cur.len() implies slash_free(#[trigger] cur[i]) by {
                if i < rest.len() {
                    assert(cur[i] == rest[i]);
                }
            }
        }
    }
}

// ---------- splitting at the slashes ----------

proof fn lemma_segments_len(s: Seq<char>)
    ensures
        segments(s).len() >= 1,
    decreases s.len(),
{
    if s.len() > 0 {
        lemma_segments_len(s.drop_last());
    }
}

/// A text without `/` is one segment.
proof fn lemma_segments_single(b: Seq<char>)
    requires
        slash_free(b),
    ensures
        segments(b) == seq![b],
    decreases b.len(),
{
    if b.len() > 0 {
        let c = b.last();
        assert(b[b.len() - 1] != '/');
        assert forall|i: int| 0 <= i < b.drop_last().len() implies #[trigger] b.drop_last()[i] != '/' by {
            assert(b.drop_last()[i] == b[i]);
        }
        lemma_segments_single(b.drop_last());
        assert(b.drop_last().push(c) =~= b);
        assert(seq![b.drop_last()].update(0, b.drop_last().push(c)) =~= seq![b]);
    } else {
        assert(b =~= Seq::<char>::empty());
    }
}

/// After a `/`, a text without `/` adds one segment.
proof fn lemma_segments_after_slash(a: Seq<char>, b: Seq<char>)
    requires
        slash_free(b),
    ensures
        segments(a + seq!['/'] + b) == segments(a).push(b),
    decreases b.len(),
{
    let s = a + seq!['/'] + b;
    if b.len() == 0 {
        assert(s.drop_last() =~= a);
        assert(s.last() == '/');
        assert(b =~= Seq::<char>::empty());
    } else {
        let b0 = b.drop_last();
        let c = b.last();
        assert(b[b.len() - 1] != '/');
        assert forall|i: int| 0 <= i < b0.len() implies #[trigger] b0[i] != '/' by {
            assert(b0[i] == b[i]);
        }
        lemma_segments_after_slash(a, b0);
        assert(s.drop_last() =~= a + seq!['/'] + b0);
        assert(s.last() == c);
        assert(b0.push(c) =~= b);
        let r = segments(a).push(b0);
        assert(r.update(r.len() - 1, r.last().push(c)) =~= segments(a).push(b));
    }
}

/// Joined with `/`, parts without `/` split back into the same parts.
pub proof fn lemma_segments_join(parts: Seq<Seq<char>>)
    requires
        parts.len() >= 1,
        forall|i: int| 0 <= i < parts.len() ==> slash_free(#[trigger] parts[i]),
    ensures
        segments(join(parts, "/"@)) == parts,
    decreases parts.len(),
{
    reveal_strlit("/");
    if parts.len() == 1 {
        assert(slash_free(parts[0]));
        lemma_segments_single(parts[0]);
        assert(seq![parts[0]] =~= parts);
    } else {
        let r = parts.drop_last();
        assert forall|i: int| 0 <= i < r.len() implies slash_free(#[trigger] r[i]) by {
            assert(r[i] == parts[i]);
        }
        lemma_segments_join(r);
        assert(slash_free(parts[parts.len() - 1]));
        assert("/"@ =~= seq!['/']);
        lemma_segments_after_slash(join(r, "/"@), parts.last());
        assert(r.push(parts.last()) =~= parts);
    }
}

} // verus!
