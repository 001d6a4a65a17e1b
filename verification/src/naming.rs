//! Naming: where a dated file is filed in the library, according to the
//! format chosen by the user (parent folders, pieces of the file name and
//! how each is written, the separator), and whether an existing relative
//! path follows that format.
use vstd::prelude::*;
use crate::stamp::{Stamp, valid_date};
use crate::text::{
    chars_of, str_eq, trim_chars, trim_end_dots, dec_chars, dec2_chars, idec_chars,
    append_chars, is_control, string_of, all_ascii_digits, dec, dec2, idec, trim, control,
    trim_end_marks, all_digits, digits_value, lemma_dec_digits,
};

verus! {

broadcast use vstd::string::group_string_axioms;

pub open spec fn review_dir() -> Seq<char> {
    "à vérifier"@
}

/// Name of the triage folder, for files without any reliable date.
pub fn review_dir_str() -> (r: &'static str)
    ensures
        r@ == review_dir(),
{
    "à vérifier"
}

/// Format chosen by the user: parent folders, the pieces of the file name
/// in order, a free keyword, how each piece is written (`styles`, pairs of
/// a piece's name and its style, such as `("mois", "avr")`) and the
/// separator of the name.
pub struct NameFormat {
    pub elements: Vec<String>,
    pub dossiers: Vec<String>,
    pub motcle: String,
    pub styles: Vec<(String, String)>,
    pub separateur: String,
}

pub open spec fn views(v: Seq<Vec<char>>) -> Seq<Seq<char>> {
    v.map_values(|x: Vec<char>| x@)
}

pub open spec fn string_views(v: Seq<String>) -> Seq<Seq<char>> {
    v.map_values(|x: String| x@)
}

// ---------- month names ----------

/// French month names, `m` from 1 to 12.
pub open spec fn month_name(m: int) -> Seq<char> {
    if m == 1 {
        "janvier"@
    } else if m == 2 {
        "février"@
    } else if m == 3 {
        "mars"@
    } else if m == 4 {
        "avril"@
    } else if m == 5 {
        "mai"@
    } else if m == 6 {
        "juin"@
    } else if m == 7 {
        "juillet"@
    } else if m == 8 {
        "août"@
    } else if m == 9 {
        "septembre"@
    } else if m == 10 {
        "octobre"@
    } else if m == 11 {
        "novembre"@
    } else {
        "décembre"@
    }
}

/// Abbreviated French month names, `m` from 1 to 12.
pub open spec fn month_abbrev(m: int) -> Seq<char> {
    if m == 1 {
        "janv."@
    } else if m == 2 {
        "févr."@
    } else if m == 3 {
        "mars"@
    } else if m == 4 {
        "avr."@
    } else if m == 5 {
        "mai"@
    } else if m == 6 {
        "juin"@
    } else if m == 7 {
        "juil."@
    } else if m == 8 {
        "août"@
    } else if m == 9 {
        "sept."@
    } else if m == 10 {
        "oct."@
    } else if m == 11 {
        "nov."@
    } else {
        "déc."@
    }
}

/// The French name of month `m` (1 to 12).
pub fn month_name_str(m: u32) -> (r: &'static str)
    ensures
        r@ == month_name(m as int),
{
    if m == 1 {
        "janvier"
    } else if m == 2 {
        "février"
    } else if m == 3 {
        "mars"
    } else if m == 4 {
        "avril"
    } else if m == 5 {
        "mai"
    } else if m == 6 {
        "juin"
    } else if m == 7 {
        "juillet"
    } else if m == 8 {
        "août"
    } else if m == 9 {
        "septembre"
    } else if m == 10 {
        "octobre"
    } else if m == 11 {
        "novembre"
    } else {
        "décembre"
    }
}

fn month_abbrev_str(m: u32) -> (r: &'static str)
    ensures
        r@ == month_abbrev(m as int),
{
    if m == 1 {
        "janv."
    } else if m == 2 {
        "févr."
    } else if m == 3 {
        "mars"
    } else if m == 4 {
        "avr."
    } else if m == 5 {
        "mai"
    } else if m == 6 {
        "juin"
    } else if m == 7 {
        "juil."
    } else if m == 8 {
        "août"
    } else if m == 9 {
        "sept."
    } else if m == 10 {
        "oct."
    } else if m == 11 {
        "nov."
    } else {
        "déc."
    }
}

// ---------- the format ----------

/// The style given for `element`: the value of the first pair whose key is
/// `element`, else `default`.
pub open spec fn style_in(styles: Seq<(String, String)>, element: Seq<char>, default: Seq<char>) -> Seq<
    char,
>
    decreases styles.len(),
{
    if styles.len() == 0 {
        default
    } else if styles[0].0@ == element {
        styles[0].1@
    } else {
        style_in(styles.drop_first(), element, default)
    }
}

/// Whether a keyword character is kept: not `/`, `:` nor a control character.
pub open spec fn keyword_char_kept(c: char) -> bool {
    c != '/' && c != ':' && !control(c)
}

/// The characters of `s` that a keyword keeps, in order.
pub open spec fn keyword_chars_kept(s: Seq<char>) -> Seq<char>
    decreases s.len(),
{
    if s.len() == 0 {
        s
    } else if keyword_char_kept(s.last()) {
        keyword_chars_kept(s.drop_last()).push(s.last())
    } else {
        keyword_chars_kept(s.drop_last())
    }
}

impl NameFormat {
    pub open spec fn style_of(&self, element: Seq<char>, default: Seq<char>) -> Seq<char> {
        style_in(self.styles@, element, default)
    }

    /// The separator of the name's pieces: the chosen one when it is `.`,
    /// `-` or `_`, else a space.
    pub open spec fn sep(&self) -> Seq<char> {
        let s = self.separateur@;
        if s == "."@ || s == "-"@ || s == "_"@ {
            s
        } else {
            " "@
        }
    }

    /// The keyword, trimmed, without `/`, `:` and control characters.
    pub open spec fn keyword(&self) -> Seq<char> {
        keyword_chars_kept(trim(self.motcle@))
    }

    fn style<'a>(&'a self, element: &str, defaut: &'a str) -> (r: &'a str)
        ensures
            r@ == self.style_of(element@, defaut@),
    {
        let mut i: usize = 0;
        assert(self.styles@.skip(0) =~= self.styles@);
        while i < self.styles.len()
            invariant
                i <= self.styles.len(),
                style_in(self.styles@, element@, defaut@) == style_in(
                    self.styles@.skip(i as int),
                    element@,
                    defaut@,
                ),
            decreases self.styles.len() - i,
        {
            assert(self.styles@.skip(i as int).drop_first() =~= self.styles@.skip(i + 1));
            if str_eq(self.styles[i].0.as_str(), element) {
                return self.styles[i].1.as_str();
            }
            i = i + 1;
        }
        defaut
    }

    fn separateur_sur(&self) -> (r: &str)
        ensures
            r@ == self.sep(),
    {
        let s = self.separateur.as_str();
        if str_eq(s, ".") || str_eq(s, "-") || str_eq(s, "_") {
            s
        } else {
            " "
        }
    }

    fn keyword_chars(&self) -> (r: Vec<char>)
        ensures
            r@ == self.keyword(),
    {
        let t = trim_chars(&chars_of(self.motcle.as_str()));
        let mut r: Vec<char> = Vec::new();
        let mut i: usize = 0;
        while i < t.len()
            invariant
                i <= t.len(),
                r@ == keyword_chars_kept(t@.take(i as int)),
            decreases t.len() - i,
        {
            let c = t[i];
            assert(t@.take(i + 1).drop_last() =~= t@.take(i as int));
            assert(t@.take(i + 1).last() == c);
            if c != '/' && c != ':' && !is_control(c) {
                r.push(c);
            }
            i = i + 1;
        }
        assert(t@.take(i as int) =~= t@);
        r
    }
}

/// The default format: `année/mois/jour mois numéro`.
pub fn dossiers_par_defaut() -> (r: Vec<String>)
    ensures
        string_views(r@) == seq!["annee"@, "mois"@],
{
    let mut r: Vec<String> = Vec::new();
    r.push(string_of(&chars_of("annee")));
    r.push(string_of(&chars_of("mois")));
    assert(string_views(r@) =~= seq!["annee"@, "mois"@]);
    r
}

/// The default separator: a space.
pub fn separateur_par_defaut() -> (r: String)
    ensures
        r@ == " "@,
{
    string_of(&chars_of(" "))
}

impl NameFormat {
    /// Folders `annee/mois`, name `jour mois numero`, no keyword, default
    /// styles, space separator.
    pub fn default_format() -> (r: NameFormat)
        ensures
            string_views(r.elements@) == seq!["jour"@, "mois"@, "numero"@],
            string_views(r.dossiers@) == seq!["annee"@, "mois"@],
            r.motcle@ == Seq::<char>::empty(),
            r.styles@.len() == 0,
            r.separateur@ == " "@,
    {
        let mut elements: Vec<String> = Vec::new();
        elements.push(string_of(&chars_of("jour")));
        elements.push(string_of(&chars_of("mois")));
        elements.push(string_of(&chars_of("numero")));
        assert(string_views(elements@) =~= seq!["jour"@, "mois"@, "numero"@]);
        NameFormat {
            elements,
            dossiers: dossiers_par_defaut(),
            motcle: String::new(),
            styles: Vec::new(),
            separateur: separateur_par_defaut(),
        }
    }
}

impl Default for NameFormat {
    /// The default format (see `default_format`).
    fn default() -> (r: NameFormat)
        ensures
            string_views(r.elements@) == seq!["jour"@, "mois"@, "numero"@],
            string_views(r.dossiers@) == seq!["annee"@, "mois"@],
            r.motcle@ == Seq::<char>::empty(),
            r.styles@.len() == 0,
            r.separateur@ == " "@,
    {
        NameFormat::default_format()
    }
}

// ---------- pieces of a name ----------

/// The piece of a path that `element` stands for, for a file dated `ts`
/// and numbered `n`; `None` for an unknown element or an empty keyword.
pub open spec fn piece(ts: Stamp, element: Seq<char>, fmt: NameFormat, n: nat) -> Option<Seq<char>> {
    if element == "motcle"@ {
        let k = fmt.keyword();
        if k.len() == 0 {
            None
        } else {
            Some(k)
        }
    } else if element == "jour"@ {
        Some(
            if fmt.style_of("jour"@, "5"@) == "05"@ {
                dec2(ts.day as nat)
            } else {
                dec(ts.day as nat)
            },
        )
    } else if element == "mois"@ {
        let st = fmt.style_of("mois"@, "avril"@);
        Some(
            if st == "avr"@ {
                month_abbrev(ts.month as int)
            } else if st == "04"@ {
                dec2(ts.month as nat)
            } else if st == "4"@ {
                dec(ts.month as nat)
            } else {
                month_name(ts.month as int)
            },
        )
    } else if element == "annee"@ {
        Some(
            if fmt.style_of("annee"@, "2026"@) == "26"@ {
                dec2(((ts.year as int) % 100) as nat)
            } else {
                idec(ts.year as int)
            },
        )
    } else if element == "heure"@ {
        Some(dec2(ts.hour as nat) + seq!['h'] + dec2(ts.minute as nat))
    } else if element == "numero"@ {
        Some(dec(n))
    } else {
        None
    }
}

fn str_chars(s: &str) -> (r: Vec<char>)
    ensures
        r@ == s@,
{
    chars_of(s)
}

/// `morceau`: the piece that `element` stands for.
pub fn morceau(ts: &Stamp, element: &str, fmt: &NameFormat, n: usize) -> (r: Option<Vec<char>>)
    requires
        ts.wf(),
    ensures
        r matches Some(v) ==> piece(*ts, element@, *fmt, n as nat) == Some(v@),
        r is None ==> piece(*ts, element@, *fmt, n as nat) is None,
{
    if str_eq(element, "motcle") {
        let k = fmt.keyword_chars();
        if k.len() == 0 {
            None
        } else {
            Some(k)
        }
    } else if str_eq(element, "jour") {
        if str_eq(fmt.style("jour", "5"), "05") {
            Some(dec2_chars(ts.day as u64))
        } else {
            Some(dec_chars(ts.day as u64))
        }
    } else if str_eq(element, "mois") {
        let st = fmt.style("mois", "avril");
        if str_eq(st, "avr") {
            Some(str_chars(month_abbrev_str(ts.month)))
        } else if str_eq(st, "04") {
            Some(dec2_chars(ts.month as u64))
        } else if str_eq(st, "4") {
            Some(dec_chars(ts.month as u64))
        } else {
            Some(str_chars(month_name_str(ts.month)))
        }
    } else if str_eq(element, "annee") {
        if str_eq(fmt.style("annee", "2026"), "26") {
            let y = (ts.year as i64 + 400_000) as u64 % 100;
            assert(y == (ts.year as int) % 100);
            Some(dec2_chars(y))
        } else {
            Some(idec_chars(ts.year as i64))
        }
    } else if str_eq(element, "heure") {
        let mut v = dec2_chars(ts.hour as u64);
        v.push('h');
        let m = dec2_chars(ts.minute as u64);
        append_chars(&mut v, &m);
        Some(v)
    } else if str_eq(element, "numero") {
        Some(dec_chars(n as u64))
    } else {
        None
    }
}

// ---------- joining ----------

/// The pieces, separated by `sep` (std's `join`).
pub open spec fn join(s: Seq<Seq<char>>, sep: Seq<char>) -> Seq<char>
    decreases s.len(),
{
    if s.len() == 0 {
        Seq::empty()
    } else if s.len() == 1 {
        s[0]
    } else {
        join(s.drop_last(), sep) + sep + s.last()
    }
}

pub fn join_chars(parts: &Vec<Vec<char>>, sep: &[char]) -> (r: Vec<char>)
    ensures
        r@ == join(views(parts@), sep@),
{
    let mut r: Vec<char> = Vec::new();
    let mut i: usize = 0;
    while i < parts.len()
        invariant
            i <= parts.len(),
            r@ == join(views(parts@).take(i as int), sep@),
        decreases parts.len() - i,
    {
        let ghost before = r@;
        if i > 0 {
            append_chars(&mut r, sep);
        }
        append_chars(&mut r, &parts[i]);
        i = i + 1;
        proof {
            let t = views(parts@).take(i as int);
            assert(t.drop_last() =~= views(parts@).take(i - 1));
            assert(t.last() == parts@[i - 1]@);
            if i == 1 {
                assert(r@ =~= t[0]);
            } else {
                assert(r@ =~= before + sep@ + t.last());
            }
        }
    }
    assert(views(parts@).take(i as int) =~= views(parts@));
    r
}

// ---------- where a file goes ----------

/// The folders of the path: the pieces of `dossiers` (but `numero`), each
/// without trailing dots, the empty ones left out.
pub open spec fn dir_pieces(ts: Stamp, fmt: NameFormat, dossiers: Seq<String>, n: nat) -> Seq<Seq<char>>
    decreases dossiers.len(),
{
    if dossiers.len() == 0 {
        Seq::empty()
    } else {
        let rest = dir_pieces(ts, fmt, dossiers.drop_last(), n);
        let d = dossiers.last()@;
        if d == "numero"@ {
            rest
        } else {
            match piece(ts, d, fmt, n) {
                Some(p) => {
                    let t = trim_end_marks(p, false);
                    if t.len() > 0 {
                        rest.push(t)
                    } else {
                        rest
                    }
                },
                None => rest,
            }
        }
    }
}

/// The pieces of the file name, in the order of `elements`.
pub open spec fn name_pieces(ts: Stamp, fmt: NameFormat, elements: Seq<String>, n: nat) -> Seq<Seq<char>>
    decreases elements.len(),
{
    if elements.len() == 0 {
        Seq::empty()
    } else {
        let rest = name_pieces(ts, fmt, elements.drop_last(), n);
        match piece(ts, elements.last()@, fmt, n) {
            Some(p) => rest.push(p),
            None => rest,
        }
    }
}

pub open spec fn has_numero(elements: Seq<String>) -> bool {
    exists|i: int| 0 <= i < elements.len() && #[trigger] elements[i]@ == "numero"@
}

/// The pieces of the file name, with the fallback `jour mois` when no
/// element gives one, and the number appended when `force` asks for it and
/// no element is `numero`.
pub open spec fn nom_pieces(ts: Stamp, n: nat, fmt: NameFormat, force: bool) -> Seq<Seq<char>> {
    let p = name_pieces(ts, fmt, fmt.elements@, n);
    let p1 = if p.len() == 0 {
        seq![dec(ts.day as nat), month_name(ts.month as int)]
    } else {
        p
    };
    if force && !has_numero(fmt.elements@) {
        p1.push(dec(n))
    } else {
        p1
    }
}

/// The file name: the pieces joined, trailing dots and spaces removed,
/// then `.` and the extension.
pub open spec fn file_name_for(ts: Stamp, n: nat, ext: Seq<char>, fmt: NameFormat, force: bool) -> Seq<char> {
    trim_end_marks(join(nom_pieces(ts, n, fmt, force), fmt.sep()), true) + seq!['.'] + ext
}

/// Where a file dated `ts`, numbered `n`, with extension `ext` goes,
/// relative to the library's root.
pub open spec fn target(ts: Stamp, n: nat, ext: Seq<char>, fmt: NameFormat, force: bool) -> Seq<char> {
    join(dir_pieces(ts, fmt, fmt.dossiers@, n).push(file_name_for(ts, n, ext, fmt, force)), "/"@)
}

/// `target_rel`: the relative path where a file goes.
pub fn target_rel(ts: &Stamp, n: usize, ext: &str, fmt: &NameFormat, force_numero: bool) -> (r: String)
    requires
        ts.wf(),
    ensures
        r@ == target(*ts, n as nat, ext@, *fmt, force_numero),
{
    let mut chemin: Vec<Vec<char>> = Vec::new();
    let mut i: usize = 0;
    while i < fmt.dossiers.len()
        invariant
            ts.wf(),
            i <= fmt.dossiers.len(),
            views(chemin@) == dir_pieces(*ts, *fmt, fmt.dossiers@.take(i as int), n as nat),
        decreases fmt.dossiers.len() - i,
    {
        let d = fmt.dossiers[i].as_str();
        assert(fmt.dossiers@.take(i + 1).drop_last() =~= fmt.dossiers@.take(i as int));
        assert(fmt.dossiers@.take(i + 1).last() == fmt.dossiers@[i as int]);
        if !str_eq(d, "numero") {
            match morceau(ts, d, fmt, n) {
                Some(p) => {
                    let t = trim_end_dots(&p, false);
                    if t.len() > 0 {
                        let ghost before = views(chemin@);
                        chemin.push(t);
                        assert(views(chemin@) =~= before.push(t@));
                    }
                },
                None => {},
            }
        }
        i = i + 1;
    }
    assert(fmt.dossiers@.take(i as int) =~= fmt.dossiers@);
    let mut nom: Vec<Vec<char>> = Vec::new();
    let mut j: usize = 0;
    while j < fmt.elements.len()
        invariant
            ts.wf(),
            j <= fmt.elements.len(),
            views(nom@) == name_pieces(*ts, *fmt, fmt.elements@.take(j as int), n as nat),
        decreases fmt.elements.len() - j,
    {
        assert(fmt.elements@.take(j + 1).drop_last() =~= fmt.elements@.take(j as int));
        assert(fmt.elements@.take(j + 1).last() == fmt.elements@[j as int]);
        match morceau(ts, fmt.elements[j].as_str(), fmt, n) {
            Some(p) => {
                let ghost before = views(nom@);
                nom.push(p);
                assert(views(nom@) =~= before.push(p@));
            },
            None => {},
        }
        j = j + 1;
    }
    assert(fmt.elements@.take(j as int) =~= fmt.elements@);
    let ghost p0 = views(nom@);
    if nom.len() == 0 {
        nom.push(dec_chars(ts.day as u64));
        nom.push(str_chars(month_name_str(ts.month)));
        assert(views(nom@) =~= seq![dec(ts.day as nat), month_name(ts.month as int)]);
    }
    let ghost p1 = views(nom@);
    assert(p1 == (if p0.len() == 0 {
        seq![dec(ts.day as nat), month_name(ts.month as int)]
    } else {
        p0
    }));
    if force_numero && !contains_numero(&fmt.elements) {
        nom.push(dec_chars(n as u64));
        assert(views(nom@) =~= p1.push(dec(n as nat)));
    }
    assert(views(nom@) == nom_pieces(*ts, n as nat, *fmt, force_numero));
    let sep = str_chars(fmt.separateur_sur());
    let joint = join_chars(&nom, &sep);
    let mut nom_propre = trim_end_dots(&joint, true);
    nom_propre.push('.');
    append_chars(&mut nom_propre, &str_chars(ext));
    assert(nom_propre@ == file_name_for(*ts, n as nat, ext@, *fmt, force_numero));
    let ghost before = views(chemin@);
    chemin.push(nom_propre);
    assert(views(chemin@) =~= before.push(nom_propre@));
    let slash = str_chars("/");
    string_of(&join_chars(&chemin, &slash))
}

fn contains_numero(elements: &Vec<String>) -> (r: bool)
    ensures
        r == has_numero(elements@),
{
    let mut i: usize = 0;
    while i < elements.len()
        invariant
            i <= elements.len(),
            forall|k: int| 0 <= k < i ==> elements@[k]@ != "numero"@,
        decreases elements.len() - i,
    {
        if str_eq(elements[i].as_str(), "numero") {
            return true;
        }
        i = i + 1;
    }
    false
}

// ---------- recognising the structure ----------

pub fn chars_eq(a: &[char], b: &[char]) -> (r: bool)
    ensures
        r == (a@ == b@),
{
    if a.len() != b.len() {
        return false;
    }
    let mut i: usize = 0;
    while i < a.len()
        invariant
            a.len() == b.len(),
            i <= a.len(),
            forall|k: int| 0 <= k < i ==> a@[k] == b@[k],
        decreases a.len() - i,
    {
        if a[i] != b[i] {
            return false;
        }
        i = i + 1;
    }
    assert(a@ =~= b@);
    true
}

pub open spec fn is_month_name(s: Seq<char>) -> bool {
    exists|m: int| 1 <= m <= 12 && #[trigger] month_name(m) == s
}

pub open spec fn is_month_abbrev(s: Seq<char>) -> bool {
    exists|m: int| 1 <= m <= 12 && #[trigger] trim_end_marks(month_abbrev(m), false) == s
}

fn is_month_name_chars(s: &[char]) -> (r: bool)
    ensures
        r == is_month_name(s@),
{
    let mut m: u32 = 1;
    while m <= 12
        invariant
            1 <= m <= 13,
            forall|k: int| 1 <= k < m ==> #[trigger] month_name(k) != s@,
        decreases 13 - m,
    {
        if chars_eq(&str_chars(month_name_str(m)), s) {
            return true;
        }
        m = m + 1;
    }
    false
}

fn is_month_abbrev_chars(s: &[char]) -> (r: bool)
    ensures
        r == is_month_abbrev(s@),
{
    let mut m: u32 = 1;
    while m <= 12
        invariant
            1 <= m <= 13,
            forall|k: int| 1 <= k < m ==> #[trigger] trim_end_marks(month_abbrev(k), false) != s@,
        decreases 13 - m,
    {
        if chars_eq(&trim_end_dots(&str_chars(month_abbrev_str(m)), false), s) {
            return true;
        }
        m = m + 1;
    }
    false
}

/// Whether a folder name `seg` is what `token` writes, in the format's style.
pub open spec fn segment_matches(seg: Seq<char>, token: Seq<char>, fmt: NameFormat) -> bool {
    if token == "annee"@ {
        if fmt.style_of("annee"@, "2026"@) == "26"@ {
            seg.len() == 2 && all_digits(seg)
        } else {
            seg.len() == 4 && all_digits(seg)
        }
    } else if token == "mois"@ {
        let st = fmt.style_of("mois"@, "avril"@);
        if st == "avr"@ {
            is_month_abbrev(seg)
        } else if st == "04"@ || st == "4"@ {
            1 <= seg.len() <= 2 && all_digits(seg) && 1 <= digits_value(seg) <= 12
        } else {
            is_month_name(seg)
        }
    } else if token == "jour"@ {
        1 <= seg.len() <= 2 && all_digits(seg)
    } else if token == "heure"@ {
        let b = vstd::utf8::encode_utf8(seg);
        b.len() == 5 && b[2] == 104u8
    } else if token == "motcle"@ {
        fmt.keyword().len() > 0 && seg == fmt.keyword()
    } else {
        false
    }
}

fn small_digits_value(s: &[char]) -> (r: u32)
    requires
        s@.len() <= 2,
        all_digits(s@),
    ensures
        r == digits_value(s@),
{
    let mut v: u32 = 0;
    let mut i: usize = 0;
    while i < s.len()
        invariant
            i <= s.len() <= 2,
            all_digits(s@),
            v == digits_value(s@.take(i as int)),
            v < 100,
            i == 0 ==> v == 0,
            i == 1 ==> v < 10,
        decreases s.len() - i,
    {
        assert(s@.take(i + 1).drop_last() =~= s@.take(i as int));
        assert(s@.take(i + 1).last() == s@[i as int]);
        assert(crate::text::is_digit(s@[i as int]));
        v = v * 10 + (s[i] as u32 - '0' as u32);
        i = i + 1;
    }
    assert(s@.take(i as int) =~= s@);
    v
}

/// `segment_correspond`: whether a folder name is what `token` writes.
pub fn segment_correspond(seg: &str, token: &str, fmt: &NameFormat) -> (r: bool)
    ensures
        r == segment_matches(seg@, token@, *fmt),
{
    let cs = chars_of(seg);
    if str_eq(token, "annee") {
        if str_eq(fmt.style("annee", "2026"), "26") {
            cs.len() == 2 && all_ascii_digits(&cs)
        } else {
            cs.len() == 4 && all_ascii_digits(&cs)
        }
    } else if str_eq(token, "mois") {
        let st = fmt.style("mois", "avril");
        if str_eq(st, "avr") {
            is_month_abbrev_chars(&cs)
        } else if str_eq(st, "04") || str_eq(st, "4") {
            if 1 <= cs.len() && cs.len() <= 2 && all_ascii_digits(&cs) {
                let v = small_digits_value(&cs);
                1 <= v && v <= 12
            } else {
                false
            }
        } else {
            is_month_name_chars(&cs)
        }
    } else if str_eq(token, "jour") {
        1 <= cs.len() && cs.len() <= 2 && all_ascii_digits(&cs)
    } else if str_eq(token, "heure") {
        let b = seg.as_bytes();
        b.len() == 5 && b[2] == 104u8
    } else if str_eq(token, "motcle") {
        let k = fmt.keyword_chars();
        k.len() > 0 && chars_eq(&cs, &k)
    } else {
        false
    }
}

/// The folder tokens of a format: its `dossiers` but `numero`.
pub open spec fn folder_tokens(dossiers: Seq<String>) -> Seq<Seq<char>>
    decreases dossiers.len(),
{
    if dossiers.len() == 0 {
        Seq::empty()
    } else if dossiers.last()@ == "numero"@ {
        folder_tokens(dossiers.drop_last())
    } else {
        folder_tokens(dossiers.drop_last()).push(dossiers.last()@)
    }
}

/// Whether the components of a relative path follow the format's folders:
/// one folder per token, each written as the token writes it, then a file.
pub open spec fn follows_structure(comps: Seq<Seq<char>>, fmt: NameFormat) -> bool {
    let tokens = folder_tokens(fmt.dossiers@);
    &&& comps.len() == tokens.len() + 1
    &&& forall|i: int| 0 <= i < tokens.len() ==> segment_matches(comps[i], #[trigger] tokens[i], fmt)
}

/// `suit_structure`: whether a relative path, given by its components,
/// follows the format's folders.
pub fn suit_structure(comps: &Vec<String>, fmt: &NameFormat) -> (r: bool)
    ensures
        r == follows_structure(string_views(comps@), *fmt),
{
    let mut jetons: Vec<&str> = Vec::new();
    let mut i: usize = 0;
    while i < fmt.dossiers.len()
        invariant
            i <= fmt.dossiers.len(),
            jetons@.map_values(|t: &str| t@) == folder_tokens(fmt.dossiers@.take(i as int)),
        decreases fmt.dossiers.len() - i,
    {
        assert(fmt.dossiers@.take(i + 1).drop_last() =~= fmt.dossiers@.take(i as int));
        assert(fmt.dossiers@.take(i + 1).last() == fmt.dossiers@[i as int]);
        let d = fmt.dossiers[i].as_str();
        if !str_eq(d, "numero") {
            let ghost before = jetons@.map_values(|t: &str| t@);
            jetons.push(d);
            assert(jetons@.map_values(|t: &str| t@) =~= before.push(d@));
        }
        i = i + 1;
    }
    assert(fmt.dossiers@.take(i as int) =~= fmt.dossiers@);
    let ghost tokens = folder_tokens(fmt.dossiers@);
    assert(tokens.len() == jetons.len());
    assert(string_views(comps@).len() == comps.len());
    if comps.len() == 0 || comps.len() - 1 != jetons.len() {
        return false;
    }
    let mut k: usize = 0;
    while k < jetons.len()
        invariant
            k <= jetons.len(),
            comps.len() == jetons.len() + 1,
            tokens == folder_tokens(fmt.dossiers@),
            jetons@.map_values(|t: &str| t@) == tokens,
            forall|j: int| 0 <= j < k ==> segment_matches(comps@[j]@, #[trigger] tokens[j], *fmt),
        decreases jetons.len() - k,
    {
        assert(tokens[k as int] == jetons@[k as int]@);
        if !segment_correspond(comps[k].as_str(), jetons[k], fmt) {
            assert(string_views(comps@)[k as int] == comps@[k as int]@);
            assert(!segment_matches(string_views(comps@)[k as int], tokens[k as int], *fmt));
            return false;
        }
        k = k + 1;
    }
    assert forall|j: int| 0 <= j < tokens.len() implies segment_matches(
        string_views(comps@)[j],
        #[trigger] tokens[j],
        *fmt,
    ) by {
        assert(string_views(comps@)[j] == comps@[j]@);
    }
    true
}

/// Whether a relative path is already managed: under the triage folder, or
/// under `year/month/` (four digits, then a French month name).
pub open spec fn managed(comps: Seq<Seq<char>>) -> bool {
    ||| comps.len() > 0 && comps[0] == review_dir()
    ||| comps.len() >= 3 && comps[0].len() == 4 && all_digits(comps[0]) && is_month_name(comps[1])
}

/// `is_managed_rel`: whether a relative path (by its components) is
/// already managed.
pub fn is_managed_rel(comps: &Vec<String>) -> (r: bool)
    ensures
        r == managed(string_views(comps@)),
{
    let ghost v = string_views(comps@);
    if comps.len() > 0 {
        assert(v[0] == comps@[0]@);
        if str_eq(comps[0].as_str(), review_dir_str()) {
            return true;
        }
    }
    if comps.len() < 3 {
        return false;
    }
    assert(v[0] == comps@[0]@ && v[1] == comps@[1]@);
    let y = chars_of(comps[0].as_str());
    let year_ok = y.len() == 4 && all_ascii_digits(&y);
    let month_ok = is_month_name_chars(&chars_of(comps[1].as_str()));
    year_ok && month_ok
}

} // verus!
