//! Duplicates: a new file whose size and fingerprint are those of a file
//! already in the library, or of an earlier file of the same batch, is not
//! filed again. When such a duplicate brings a reliable date (from its
//! metadata or its name) that differs from the one recorded for the filed
//! file, the recorded date is corrected.
use vstd::prelude::*;
use crate::stamp::Stamp;
use crate::library::{
    Index, IndexEntry, NewEntry, TsSource, pair_text, pair_text_of, lemma_pair_text_injective,
};
use crate::strmap::StrMap;

verus! {

broadcast use vstd::string::group_string_axioms;

pub open spec fn entry_key(e: NewEntry) -> (u64, Seq<char>) {
    (e.size, e.hash@)
}

pub open spec fn rec_key(e: IndexEntry) -> (u64, Seq<char>) {
    (e.rec.size, e.rec.hash@)
}

/// What is known before the batch: each (size, fingerprint) of the index,
/// with the position of the last entry that has it.
pub open spec fn known_before(idx: Seq<IndexEntry>) -> Map<(u64, Seq<char>), Option<usize>>
    decreases idx.len(),
{
    if idx.len() == 0 {
        Map::empty()
    } else {
        known_before(idx.drop_last()).insert(rec_key(idx.last()), Some((idx.len() - 1) as usize))
    }
}

/// What is known once the first `k` new files are seen: each of them adds
/// its (size, fingerprint), without a position, unless it is known already.
pub open spec fn known_after(idx: Seq<IndexEntry>, an: Seq<NewEntry>, k: nat) -> Map<
    (u64, Seq<char>),
    Option<usize>,
>
    decreases k,
{
    if k == 0 {
        known_before(idx)
    } else {
        let m = known_after(idx, an, (k - 1) as nat);
        let key = entry_key(an[k - 1]);
        if m.contains_key(key) {
            m
        } else {
            m.insert(key, None)
        }
    }
}

/// New file `k` is a duplicate.
pub open spec fn is_dup(idx: Seq<IndexEntry>, an: Seq<NewEntry>, k: nat) -> bool {
    known_after(idx, an, k).contains_key(entry_key(an[k as int]))
}

/// The position of the indexed file whose date new file `k` corrects.
pub open spec fn heals(idx: Seq<IndexEntry>, an: Seq<NewEntry>, k: nat) -> Option<usize>
    decreases k, 1int,
{
    if is_dup(idx, an, k) && an[k as int].source != TsSource::FsDate {
        match known_after(idx, an, k)[entry_key(an[k as int])] {
            Some(p) => if p < idx.len() && dates_after(idx, an, k)[p as int] != an[k as int].ts {
                Some(p)
            } else {
                None
            },
            None => None,
        }
    } else {
        None
    }
}

/// The dates of the indexed files once the first `k` new files are seen.
pub open spec fn dates_after(idx: Seq<IndexEntry>, an: Seq<NewEntry>, k: nat) -> Seq<Stamp>
    decreases k, 0int,
{
    if k == 0 {
        idx.map_values(|e: IndexEntry| e.rec.ts)
    } else {
        let d = dates_after(idx, an, (k - 1) as nat);
        match heals(idx, an, (k - 1) as nat) {
            Some(p) => d.update(p as int, an[k - 1].ts),
            None => d,
        }
    }
}

/// Fingerprints of the files whose date was corrected.
pub open spec fn healed_after(idx: Seq<IndexEntry>, an: Seq<NewEntry>, k: nat) -> Set<Seq<char>>
    decreases k,
{
    if k == 0 {
        Set::empty()
    } else {
        let s = healed_after(idx, an, (k - 1) as nat);
        if heals(idx, an, (k - 1) as nat) is Some {
            s.insert(an[k - 1].hash@)
        } else {
            s
        }
    }
}

pub open spec fn dups_after(idx: Seq<IndexEntry>, an: Seq<NewEntry>, k: nat) -> nat
    decreases k,
{
    if k == 0 {
        0
    } else {
        dups_after(idx, an, (k - 1) as nat) + if is_dup(idx, an, (k - 1) as nat) {
            1nat
        } else {
            0nat
        }
    }
}

pub open spec fn updated_after(idx: Seq<IndexEntry>, an: Seq<NewEntry>, k: nat) -> nat
    decreases k,
{
    if k == 0 {
        0
    } else {
        updated_after(idx, an, (k - 1) as nat) + if heals(idx, an, (k - 1) as nat) is Some {
            1nat
        } else {
            0nat
        }
    }
}

/// New files with a reliable date, in the order seen.
pub open spec fn fresh_after(idx: Seq<IndexEntry>, an: Seq<NewEntry>, k: nat) -> Seq<usize>
    decreases k,
{
    if k == 0 {
        Seq::empty()
    } else {
        let s = fresh_after(idx, an, (k - 1) as nat);
        if !is_dup(idx, an, (k - 1) as nat) && an[k - 1].source != TsSource::FsDate {
            s.push((k - 1) as usize)
        } else {
            s
        }
    }
}

/// New files without a reliable date, in the order seen.
pub open spec fn uncertain_after(idx: Seq<IndexEntry>, an: Seq<NewEntry>, k: nat) -> Seq<usize>
    decreases k,
{
    if k == 0 {
        Seq::empty()
    } else {
        let s = uncertain_after(idx, an, (k - 1) as nat);
        if !is_dup(idx, an, (k - 1) as nat) && an[k - 1].source == TsSource::FsDate {
            s.push((k - 1) as usize)
        } else {
            s
        }
    }
}

/// The outcome of the duplicate search.
pub struct Dedup {
    pub dates: Vec<Stamp>,
    pub healed: StrMap<()>,
    pub fresh: Vec<usize>,
    pub uncertain: Vec<usize>,
    pub duplicates: usize,
    pub updated: usize,
}

/// The exec map `m` stands for the spec map `k`: the text of each pair is
/// its key.
pub open spec fn stands_for(m: Map<Seq<char>, Option<usize>>, k: Map<(u64, Seq<char>), Option<usize>>) -> bool {
    forall|s: u64, h: Seq<char>|
        #![trigger pair_text(s, h)]
        (m.contains_key(pair_text(s, h)) <==> k.contains_key((s, h))) && (k.contains_key((s, h))
            ==> m[pair_text(s, h)] == k[(s, h)])
}

proof fn lemma_stands_for_insert(
    m: Map<Seq<char>, Option<usize>>,
    k: Map<(u64, Seq<char>), Option<usize>>,
    s: u64,
    h: Seq<char>,
    v: Option<usize>,
)
    requires
        stands_for(m, k),
    ensures
        stands_for(m.insert(pair_text(s, h), v), k.insert((s, h), v)),
{
    assert forall|s2: u64, h2: Seq<char>| #![trigger pair_text(s2, h2)]
        (m.insert(pair_text(s, h), v).contains_key(pair_text(s2, h2)) <==> k.insert(
            (s, h),
            v,
        ).contains_key((s2, h2))) && (k.insert((s, h), v).contains_key((s2, h2)) ==> m.insert(
            pair_text(s, h),
            v,
        )[pair_text(s2, h2)] == k.insert((s, h), v)[(s2, h2)]) by {
        if pair_text(s2, h2) == pair_text(s, h) {
            lemma_pair_text_injective(s2, h2, s, h);
        }
    }
}

/// Finds the duplicates of a batch and corrects recorded dates.
pub fn find_duplicates(index: &Index, analyzed: &Vec<NewEntry>) -> (r: Dedup)
    requires
        index.wf(),
    ensures
        r.healed.wf(),
        ({
            let idx = index.spec_entries();
            let an = analyzed@;
            let n = an.len();
            &&& r.dates@ == dates_after(idx, an, n)
            &&& r.healed@.dom() == healed_after(idx, an, n)
            &&& r.fresh@ == fresh_after(idx, an, n)
            &&& r.uncertain@ == uncertain_after(idx, an, n)
            &&& r.duplicates == dups_after(idx, an, n)
            &&& r.updated == updated_after(idx, an, n)
        }),
{
    let entries = index.entries();
    let ghost idx = index.spec_entries();
    let ghost an = analyzed@;
    let mut known: StrMap<Option<usize>> = StrMap::new();
    let mut dates: Vec<Stamp> = Vec::new();
    let mut i: usize = 0;
    while i < entries.len()
        invariant
            entries@ == idx,
            i <= entries.len(),
            known.wf(),
            stands_for(known@, known_before(idx.take(i as int))),
            dates@ == idx.take(i as int).map_values(|e: IndexEntry| e.rec.ts),
        decreases entries.len() - i,
    {
        let e = &entries[i];
        let key = pair_text_of(e.rec.size, e.rec.hash.as_str());
        proof {
            lemma_stands_for_insert(known@, known_before(idx.take(i as int)), e.rec.size, e.rec.hash@, Some(i));
            assert(idx.take(i + 1).drop_last() =~= idx.take(i as int));
        }
        known.insert(key, Some(i));
        dates.push(e.rec.ts);
        i = i + 1;
        assert(dates@ =~= idx.take(i as int).map_values(|e: IndexEntry| e.rec.ts));
    }
    assert(idx.take(i as int) =~= idx);
    let mut healed: StrMap<()> = StrMap::new();
    let mut fresh: Vec<usize> = Vec::new();
    let mut uncertain: Vec<usize> = Vec::new();
    let mut duplicates: usize = 0;
    let mut updated: usize = 0;
    let mut k: usize = 0;
    assert(healed@.dom() =~= Set::<Seq<char>>::empty());
    while k < analyzed.len()
        invariant
            entries@ == idx,
            analyzed@ == an,
            k <= analyzed.len(),
            known.wf(),
            healed.wf(),
            stands_for(known@, known_after(idx, an, k as nat)),
            dates@ == dates_after(idx, an, k as nat),
            dates@.len() == idx.len(),
            healed@.dom() == healed_after(idx, an, k as nat),
            fresh@ == fresh_after(idx, an, k as nat),
            uncertain@ == uncertain_after(idx, an, k as nat),
            duplicates == dups_after(idx, an, k as nat),
            updated == updated_after(idx, an, k as nat),
            duplicates <= k,
            updated <= k,
        decreases analyzed.len() - k,
    {
        let e = &analyzed[k];
        let key = pair_text_of(e.size, e.hash.as_str());
        let ghost km = known_after(idx, an, k as nat);
        let found = match known.get(key.as_str()) {
            Some(v) => Some(*v),
            None => None,
        };
        assert(found is Some <==> is_dup(idx, an, k as nat));
        assert(found matches Some(x) ==> x == km[entry_key(an[k as int])]);
        match found {
            None => {
                proof {
                    lemma_stands_for_insert(known@, km, e.size, e.hash@, None);
                }
                known.insert(key, None);
                if e.source == TsSource::FsDate {
                    uncertain.push(k);
                } else {
                    fresh.push(k);
                }
            },
            Some(existing) => {
                duplicates = duplicates + 1;
                match existing {
                    Some(p) => {
                        if e.source != TsSource::FsDate && p < dates.len() && dates[p] != e.ts {
                            assert(heals(idx, an, k as nat) == Some(p));
                            dates.set(p, e.ts);
                            healed.insert(e.hash.clone(), ());
                            updated = updated + 1;
                        } else {
                            assert(heals(idx, an, k as nat) is None);
                        }
                    },
                    None => {
                        assert(heals(idx, an, k as nat) is None);
                    },
                }
            },
        }
        assert(dates_after(idx, an, (k + 1) as nat) == match heals(idx, an, k as nat) {
            Some(p) => dates_after(idx, an, k as nat).update(p as int, an[k as int].ts),
            None => dates_after(idx, an, k as nat),
        });
        k = k + 1;
    }
    Dedup { dates, healed, fresh, uncertain, duplicates, updated }
}

/// The corrected dates are dates of the index or of the batch: they exist
/// when those do.
pub proof fn lemma_dates_after_valid(idx: Seq<IndexEntry>, an: Seq<NewEntry>, k: nat)
    requires
        crate::library::dates_valid(idx),
        forall|i: int| 0 <= i < an.len() ==> (#[trigger] an[i]).ts.wf(),
        k <= an.len(),
    ensures
        dates_after(idx, an, k).len() == idx.len(),
        forall|p: int| 0 <= p < idx.len() ==> (#[trigger] dates_after(idx, an, k)[p]).wf(),
    decreases k,
{
    if k > 0 {
        lemma_dates_after_valid(idx, an, (k - 1) as nat);
        assert(an[k - 1].ts.wf());
        let d = dates_after(idx, an, (k - 1) as nat);
        match heals(idx, an, (k - 1) as nat) {
            Some(p) => {
                assert(dates_after(idx, an, k) == d.update(p as int, an[k - 1].ts));
            },
            None => {
                assert(dates_after(idx, an, k) == d);
            },
        }
    } else {
        assert forall|p: int| 0 <= p < idx.len() implies (#[trigger] dates_after(idx, an, k)[p]).wf() by {
            assert(dates_after(idx, an, k)[p] == idx[p].rec.ts);
        }
    }
}

/// The new files kept, with or without a reliable date, are among those seen.
pub proof fn lemma_kept_in_range(idx: Seq<IndexEntry>, an: Seq<NewEntry>, k: nat)
    ensures
        fresh_after(idx, an, k).len() <= k,
        uncertain_after(idx, an, k).len() <= k,
        forall|i: int| 0 <= i < fresh_after(idx, an, k).len() ==> #[trigger] fresh_after(idx, an, k)[i] < k,
        forall|i: int| 0 <= i < uncertain_after(idx, an, k).len() ==> #[trigger] uncertain_after(idx, an, k)[i] < k,
    decreases k,
{
    if k > 0 {
        lemma_kept_in_range(idx, an, (k - 1) as nat);
    }
}

} // verus!
