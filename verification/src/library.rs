//! What the library's index records of each file, and the files of a new
//! batch once their date and fingerprint are known.
use vstd::prelude::*;
use crate::stamp::Stamp;
use crate::order::{text_lt, text_less, lemma_text_lt_irreflexive};
use crate::text::{dec, dec_chars, string_of, all_digits, is_digit, lemma_dec_digits, lemma_dec_injective};

verus! {

broadcast use vstd::string::group_string_axioms;

/// Where the date of a file comes from: its metadata (EXIF, QuickTime), its
/// name, or only the dates of the file on disk.
#[derive(Clone, Copy, Debug, PartialEq, Eq, Structural)]
pub enum TsSource {
    Meta,
    Name,
    FsDate,
}

/// What the index records of a file: its date, size, fingerprint and
/// original name.
pub struct Rec {
    pub ts: Stamp,
    pub size: u64,
    pub hash: String,
    pub original: String,
}

pub type RecView = (Stamp, u64, Seq<char>, Seq<char>);

impl View for Rec {
    type V = RecView;

    open spec fn view(&self) -> RecView {
        (self.ts, self.size, self.hash@, self.original@)
    }
}

impl Rec {
    pub fn duplicate(&self) -> (r: Rec)
        ensures
            r@ == self@,
    {
        Rec { ts: self.ts, size: self.size, hash: self.hash.clone(), original: self.original.clone() }
    }
}

/// An entry of the index: a path relative to the library's root and what
/// is recorded of the file there.
pub struct IndexEntry {
    pub rel: String,
    pub rec: Rec,
}

/// A file of the batch being filed, once analysed. `source_id` tells the
/// caller which source file it is; `name` is its file name.
pub struct NewEntry {
    pub source_id: usize,
    pub name: String,
    pub ext: String,
    pub ts: Stamp,
    pub size: u64,
    pub hash: String,
    pub source: TsSource,
}

/// The index of the library: its entries by increasing relative path (the
/// order of a `BTreeMap<String, _>`), each path once.
pub struct Index {
    entries: Vec<IndexEntry>,
}

pub open spec fn rels_increasing(e: Seq<IndexEntry>) -> bool {
    forall|i: int, j: int| 0 <= i < j < e.len() ==> text_lt(#[trigger] e[i].rel@, #[trigger] e[j].rel@)
}

pub open spec fn dates_valid(e: Seq<IndexEntry>) -> bool {
    forall|i: int| 0 <= i < e.len() ==> (#[trigger] e[i]).rec.ts.wf()
}

pub proof fn lemma_text_lt_transitive(a: Seq<char>, b: Seq<char>, c: Seq<char>)
    requires
        text_lt(a, b),
        text_lt(b, c),
    ensures
        text_lt(a, c),
    decreases a.len(),
{
    if a.len() > 0 && b.len() > 0 && c.len() > 0 && a[0] == b[0] && b[0] == c[0] {
        lemma_text_lt_transitive(a.drop_first(), b.drop_first(), c.drop_first());
    }
}

impl Index {
    pub closed spec fn spec_entries(&self) -> Seq<IndexEntry> {
        self.entries@
    }

    pub closed spec fn wf(&self) -> bool {
        rels_increasing(self.entries@) && dates_valid(self.entries@)
    }

    /// An empty index.
    pub fn empty() -> (r: Index)
        ensures
            r.wf(),
            r.spec_entries().len() == 0,
    {
        Index { entries: Vec::new() }
    }

    /// The paths are strictly increasing and the dates exist.
    pub proof fn lemma_wf(&self)
        requires
            self.wf(),
        ensures
            rels_increasing(self.spec_entries()),
            dates_valid(self.spec_entries()),
    {
    }

    /// The index with these entries, when their paths are strictly
    /// increasing and their dates exist.
    pub fn from_entries(entries: Vec<IndexEntry>) -> (r: Option<Index>)
        ensures
            r is Some <==> rels_increasing(entries@) && dates_valid(entries@),
            r matches Some(x) ==> x.wf() && x.spec_entries() == entries@,
    {
        let mut j: usize = 0;
        while j < entries.len()
            invariant
                j <= entries.len(),
                forall|a: int| 0 <= a < j ==> (#[trigger] entries@[a]).rec.ts.wf(),
            decreases entries.len() - j,
        {
            if !entries[j].rec.ts.is_valid() {
                return None;
            }
            j = j + 1;
        }
        let mut i: usize = 1;
        while i < entries.len()
            invariant
                1 <= i,
                dates_valid(entries@),
                i <= entries.len() || entries.len() == 0,
                forall|a: int, b: int|
                    0 <= a < b < i && b < entries.len() ==> text_lt(
                        #[trigger] entries@[a].rel@,
                        #[trigger] entries@[b].rel@,
                    ),
            decreases entries.len() - i,
        {
            let prev = crate::text::chars_of(entries[i - 1].rel.as_str());
            let cur = crate::text::chars_of(entries[i].rel.as_str());
            if !text_less(&prev, &cur) {
                return None;
            }
            proof {
                assert forall|a: int, b: int|
                    0 <= a < b < i + 1 && b < entries.len() implies text_lt(
                        #[trigger] entries@[a].rel@,
                        #[trigger] entries@[b].rel@,
                    ) by {
                    if b == i && a < i - 1 {
                        lemma_text_lt_transitive(
                            entries@[a].rel@,
                            entries@[i - 1].rel@,
                            entries@[b].rel@,
                        );
                    }
                }
            }
            i = i + 1;
        }
        Some(Index { entries })
    }

    pub fn entries(&self) -> (r: &Vec<IndexEntry>)
        ensures
            r@ == self.spec_entries(),
    {
        &self.entries
    }

    /// Does the index hold this relative path?
    pub fn contains(&self, rel: &str) -> (r: bool)
        ensures
            r == index_has(self.spec_entries(), rel@),
    {
        let mut i: usize = 0;
        while i < self.entries.len()
            invariant
                i <= self.entries.len(),
                forall|j: int| 0 <= j < i ==> self.entries@[j].rel@ != rel@,
            decreases self.entries.len() - i,
        {
            if crate::text::str_eq(self.entries[i].rel.as_str(), rel) {
                return true;
            }
            i = i + 1;
        }
        false
    }

    /// Records a file at a path the index does not hold yet, keeping the
    /// paths in order.
    pub fn insert(&mut self, rel: String, rec: Rec)
        requires
            old(self).wf(),
            !index_has(old(self).spec_entries(), rel@),
            rec.ts.wf(),
        ensures
            final(self).wf(),
            entry_views(final(self).spec_entries()) == entry_views(old(self).spec_entries()).insert(
                rank(old(self).spec_entries(), rel@) as int,
                (rel@, rec@),
            ),
    {
        let ghost old_entries = self.entries@;
        let cs = crate::text::chars_of(rel.as_str());
        let mut p: usize = 0;
        while p < self.entries.len()
            invariant
                self.entries@ == old_entries,
                cs@ == rel@,
                rels_increasing(old_entries),
                p <= old_entries.len(),
                forall|j: int| 0 <= j < p ==> text_lt(#[trigger] old_entries[j].rel@, rel@),
            ensures
                p <= old_entries.len(),
                forall|j: int| 0 <= j < p ==> text_lt(#[trigger] old_entries[j].rel@, rel@),
                p < old_entries.len() ==> !text_lt(old_entries[p as int].rel@, rel@),
            decreases self.entries.len() - p,
        {
            let here = crate::text::chars_of(self.entries[p].rel.as_str());
            if !text_less(here.as_slice(), cs.as_slice()) {
                break;
            }
            p = p + 1;
        }
        proof {
            if p < old_entries.len() {
                assert(old_entries[p as int].rel@ != rel@);
            }
            lemma_rank(old_entries, rel@, p as int);
        }
        let ghost rv = (rel@, rec@);
        self.entries.insert(p, IndexEntry { rel, rec });
        proof {
            assert(entry_views(self.entries@) =~= entry_views(old_entries).insert(p as int, rv));
            assert forall|i: int, j: int| 0 <= i < j < self.entries@.len() implies text_lt(#[trigger] self.entries@[i].rel@, #[trigger] self.entries@[j].rel@) by {
                let n = self.entries@;
                if j < p {
                    assert(n[i] == old_entries[i] && n[j] == old_entries[j]);
                } else if j == p {
                    assert(n[i] == old_entries[i]);
                } else if i == p {
                    assert(n[j] == old_entries[j - 1]);
                    assert(old_entries[p as int].rel@ != rel@);
                    lemma_after(old_entries, rel@, p as int, j - 1);
                } else if i < p {
                    assert(n[i] == old_entries[i] && n[j] == old_entries[j - 1]);
                } else {
                    assert(n[i] == old_entries[i - 1] && n[j] == old_entries[j - 1]);
                }
            }
        }
    }
}

/// The index holds this relative path.
pub open spec fn index_has(e: Seq<IndexEntry>, rel: Seq<char>) -> bool {
    exists|i: int| 0 <= i < e.len() && (#[trigger] e[i]).rel@ == rel
}

pub open spec fn entry_views(e: Seq<IndexEntry>) -> Seq<(Seq<char>, RecView)> {
    e.map_values(|x: IndexEntry| (x.rel@, x.rec@))
}

/// How many paths of the index come before `rel`.
pub open spec fn rank(e: Seq<IndexEntry>, rel: Seq<char>) -> nat
    decreases e.len(),
{
    if e.len() == 0 {
        0
    } else {
        rank(e.drop_last(), rel) + if text_lt(e.last().rel@, rel) { 1nat } else { 0nat }
    }
}

proof fn lemma_rank(e: Seq<IndexEntry>, rel: Seq<char>, p: int)
    requires
        rels_increasing(e),
        0 <= p <= e.len(),
        forall|j: int| 0 <= j < p ==> text_lt(#[trigger] e[j].rel@, rel),
        p < e.len() ==> !text_lt(e[p].rel@, rel) && e[p].rel@ != rel,
    ensures
        rank(e, rel) == p,
    decreases e.len(),
{
    if e.len() > 0 {
        let n = e.len() - 1;
        let d = e.drop_last();
        assert forall|i: int, j: int| 0 <= i < j < d.len() implies text_lt(#[trigger] d[i].rel@, #[trigger] d[j].rel@) by {
            assert(d[i] == e[i] && d[j] == e[j]);
        }
        if p <= n {
            assert forall|j: int| 0 <= j < p implies text_lt(#[trigger] d[j].rel@, rel) by {
                assert(d[j] == e[j]);
            }
            if p < n {
                assert(d[p] == e[p]);
            }
            lemma_rank(d, rel, p);
            if p < n {
                lemma_after(e, rel, p, n);
                lemma_text_lt_asymmetric(rel, e[n].rel@);
            }
            assert(e.last() == e[n]);
        } else {
            assert forall|j: int| 0 <= j < n implies text_lt(#[trigger] d[j].rel@, rel) by {
                assert(d[j] == e[j]);
            }
            lemma_rank(d, rel, n);
            assert(e.last() == e[n]);
        }
    }
}

/// Past the first path not before `rel` (and not `rel`), every path comes
/// after `rel`.
proof fn lemma_after(e: Seq<IndexEntry>, rel: Seq<char>, p: int, j: int)
    requires
        rels_increasing(e),
        0 <= p <= j < e.len(),
        !text_lt(e[p].rel@, rel),
        e[p].rel@ != rel,
    ensures
        text_lt(rel, e[j].rel@),
{
    crate::order::lemma_text_lt_total(e[p].rel@, rel);
    if j > p {
        assert(text_lt(e[p].rel@, e[j].rel@));
        lemma_text_lt_transitive(rel, e[p].rel@, e[j].rel@);
    }
}

proof fn lemma_text_lt_asymmetric(a: Seq<char>, b: Seq<char>)
    requires
        text_lt(a, b),
    ensures
        !text_lt(b, a),
{
    if text_lt(b, a) {
        lemma_text_lt_transitive(a, b, a);
        lemma_text_lt_irreflexive(a);
    }
}

// ---------- keys of the duplicate search ----------

/// The text that stands for a (size, fingerprint) pair: the size in
/// decimal, a colon, the fingerprint.
pub open spec fn pair_text(size: u64, hash: Seq<char>) -> Seq<char> {
    dec(size as nat) + seq![':'] + hash
}

pub proof fn lemma_pair_text_injective(a: u64, x: Seq<char>, b: u64, y: Seq<char>)
    requires
        pair_text(a, x) == pair_text(b, y),
    ensures
        a == b,
        x == y,
{
    lemma_dec_digits(a as nat);
    lemma_dec_digits(b as nat);
    let da = dec(a as nat);
    let db = dec(b as nat);
    let p = pair_text(a, x);
    if da.len() < db.len() {
        assert(p[da.len() as int] == ':');
        assert(p[da.len() as int] == db[da.len() as int]);
        assert(is_digit(db[da.len() as int]));
    } else if db.len() < da.len() {
        assert(p[db.len() as int] == ':');
        assert(p[db.len() as int] == da[db.len() as int]);
        assert(is_digit(da[db.len() as int]));
    }
    assert(da =~= p.take(da.len() as int));
    assert(db =~= p.take(db.len() as int));
    lemma_dec_injective(a as nat, b as nat);
    assert(x =~= p.skip((da.len() + 1) as int));
    assert(y =~= p.skip((db.len() + 1) as int));
}

pub fn pair_text_of(size: u64, hash: &str) -> (r: String)
    ensures
        r@ == pair_text(size, hash@),
{
    let mut v = dec_chars(size);
    v.push(':');
    let h = crate::text::chars_of(hash);
    crate::text::append_chars(&mut v, &h);
    string_of(&v)
}

} // verus!
