//! A map keyed by text: buckets of a `HashMap` keyed by a hash of the text,
//! each bucket holding the entries whose keys share that hash.
use vstd::prelude::*;
use std::collections::HashMap;

verus! {

broadcast use vstd::string::group_string_axioms;

/// A hash of a text (multiply by 31, add each character's code).
pub open spec fn str_hash(s: Seq<char>) -> u64
    decreases s.len(),
{
    if s.len() == 0 {
        0
    } else {
        str_hash(s.drop_last()).wrapping_mul(31).wrapping_add(s.last() as u32 as u64)
    }
}

pub fn str_hash_of(s: &str) -> (h: u64)
    ensures
        h == str_hash(s@),
{
    let cs = crate::text::chars_of(s);
    let mut h: u64 = 0;
    let mut i: usize = 0;
    while i < cs.len()
        invariant
            i <= cs.len(),
            cs@ == s@,
            h == str_hash(cs@.take(i as int)),
        decreases cs.len() - i,
    {
        assert(cs@.take(i + 1).drop_last() =~= cs@.take(i as int));
        assert(cs@.take(i + 1).last() == cs@[i as int]);
        h = h.wrapping_mul(31).wrapping_add(cs[i] as u32 as u64);
        i = i + 1;
    }
    assert(cs@.take(i as int) =~= s@);
    h
}

/// A map from texts to values.
pub struct StrMap<V> {
    buckets: HashMap<u64, Vec<(String, V)>>,
    contents: Ghost<Map<Seq<char>, V>>,
}

impl<V> View for StrMap<V> {
    type V = Map<Seq<char>, V>;

    closed spec fn view(&self) -> Map<Seq<char>, V> {
        self.contents@
    }
}

impl<V> StrMap<V> {
    pub closed spec fn wf(&self) -> bool {
        &&& self.contents@.dom().finite()
        &&& forall|h: u64, i: int|
            #![trigger self.buckets@[h]@[i]]
            self.buckets@.contains_key(h) && 0 <= i < self.buckets@[h]@.len() ==> {
                let e = self.buckets@[h]@[i];
                &&& str_hash(e.0@) == h
                &&& self.contents@.contains_key(e.0@)
                &&& self.contents@[e.0@] == e.1
            }
        &&& forall|h: u64, i: int, j: int|
            #![trigger self.buckets@[h]@[i], self.buckets@[h]@[j]]
            self.buckets@.contains_key(h) && 0 <= i < j < self.buckets@[h]@.len()
                ==> self.buckets@[h]@[i].0@ != self.buckets@[h]@[j].0@
        &&& forall|s: Seq<char>|
            #![trigger self.contents@.contains_key(s)]
            self.contents@.contains_key(s) ==> self.buckets@.contains_key(str_hash(s)) && exists|
                i: int,
            |
                0 <= i < self.buckets@[str_hash(s)]@.len() && #[trigger] self.buckets@[str_hash(
                    s,
                )]@[i].0@ == s
    }

    /// A well-formed map holds finitely many keys.
    pub proof fn lemma_finite(&self)
        requires
            self.wf(),
        ensures
            self@.dom().finite(),
    {
    }

    pub fn new() -> (r: Self)
        ensures
            r.wf(),
            r@ == Map::<Seq<char>, V>::empty(),
    {
        StrMap { buckets: HashMap::new(), contents: Ghost(Map::empty()) }
    }

    /// The position in its bucket of the entry with key `key`.
    fn find(&self, key: &str, h: u64) -> (r: Option<usize>)
        requires
            self.wf(),
            h == str_hash(key@),
        ensures
            r matches Some(i) ==> self.buckets@.contains_key(h) && i < self.buckets@[h]@.len()
                && self.buckets@[h]@[i as int].0@ == key@,
            r is None <==> !self@.contains_key(key@),
    {
        match self.buckets.get(&h) {
            None => None,
            Some(b) => {
                let mut i: usize = 0;
                while i < b.len()
                    invariant
                        self.wf(),
                        h == str_hash(key@),
                        self.buckets@.contains_key(h),
                        *b == self.buckets@[h],
                        i <= b.len(),
                        forall|j: int| 0 <= j < i ==> b@[j].0@ != key@,
                    decreases b.len() - i,
                {
                    if crate::text::str_eq(b[i].0.as_str(), key) {
                        return Some(i);
                    }
                    i = i + 1;
                }
                None
            },
        }
    }

    pub fn contains(&self, key: &str) -> (r: bool)
        requires
            self.wf(),
        ensures
            r == self@.contains_key(key@),
    {
        let h = str_hash_of(key);
        self.find(key, h).is_some()
    }

    pub fn get(&self, key: &str) -> (r: Option<&V>)
        requires
            self.wf(),
        ensures
            r matches Some(v) ==> self@.contains_key(key@) && self@[key@] == *v,
            r is None ==> !self@.contains_key(key@),
    {
        let h = str_hash_of(key);
        match self.find(key, h) {
            None => None,
            Some(i) => {
                let b = self.buckets.get(&h).unwrap();
                Some(&b[i].1)
            },
        }
    }

    /// Sets the value of `key`, replacing the one it had.
    pub fn insert(&mut self, key: String, v: V)
        requires
            old(self).wf(),
        ensures
            final(self).wf(),
            final(self)@ == old(self)@.insert(key@, v),
    {
        let h = str_hash_of(key.as_str());
        let pos = self.find(key.as_str(), h);
        let ghost old_buckets = self.buckets@;
        let ghost k = key@;
        let mut b: Vec<(String, V)> = match self.buckets.remove(&h) {
            Some(b) => b,
            None => Vec::new(),
        };
        let ghost old_b = b@;
        proof {
            if old_buckets.contains_key(h) {
                assert(old_b == old_buckets[h]@);
            } else {
                assert(old_b.len() == 0);
            }
        }
        match pos {
            Some(i) => {
                b.set(i, (key, v));
            },
            None => {
                b.push((key, v));
            },
        }
        self.buckets.insert(h, b);
        self.contents = Ghost(self.contents@.insert(k, v));
        proof {
            assert(self.contents@.dom().finite());
            assert forall|g: u64, i: int|
                #![trigger self.buckets@[g]@[i]]
                self.buckets@.contains_key(g) && 0 <= i < self.buckets@[g]@.len() implies {
                let e = self.buckets@[g]@[i];
                &&& str_hash(e.0@) == g
                &&& self.contents@.contains_key(e.0@)
                &&& self.contents@[e.0@] == e.1
            } by {
                if g != h {
                    assert(self.buckets@[g] == old_buckets[g]);
                    let e = old_buckets[g]@[i];
                    assert(str_hash(e.0@) == g);
                    assert(e.0@ != k);
                } else {
                    let e = self.buckets@[g]@[i];
                    if e.0@ != k {
                        assert(i < old_b.len());
                        assert(e == old_b[i]);
                        assert(e == old_buckets[h]@[i]);
                    }
                }
            }
            assert forall|g: u64, i: int, j: int|
                #![trigger self.buckets@[g]@[i], self.buckets@[g]@[j]]
                self.buckets@.contains_key(g) && 0 <= i < j < self.buckets@[g]@.len()
                    implies self.buckets@[g]@[i].0@ != self.buckets@[g]@[j].0@ by {
                if g != h {
                    assert(self.buckets@[g] == old_buckets[g]);
                    assert(old_buckets[g]@[i] == self.buckets@[g]@[i]);
                    assert(old_buckets[g]@[j] == self.buckets@[g]@[j]);
                } else {
                    let bi = self.buckets@[g]@[i];
                    let bj = self.buckets@[g]@[j];
                    match pos {
                        Some(p) => {
                            if i != p && j != p {
                                assert(bi == old_buckets[h]@[i] && bj == old_buckets[h]@[j]);
                            } else if i == p {
                                assert(bj == old_buckets[h]@[j]);
                                assert(old_buckets[h]@[p as int].0@ == k);
                                assert(old_buckets[h]@[p as int] == old_buckets[h]@[p as int]);
                            } else {
                                assert(bi == old_buckets[h]@[i]);
                                assert(old_buckets[h]@[p as int].0@ == k);
                            }
                        },
                        None => {
                            if j < old_b.len() {
                                assert(bi == old_buckets[h]@[i] && bj == old_buckets[h]@[j]);
                            } else {
                                assert(bi == old_b[i]);
                                assert(bj.0@ == k);
                                if old_buckets.contains_key(h) {
                                    assert(old_buckets[h]@[i] == bi);
                                }
                            }
                        },
                    }
                }
            }
            assert forall|s: Seq<char>|
                #![trigger self.contents@.contains_key(s)]
                self.contents@.contains_key(s) implies self.buckets@.contains_key(str_hash(s))
                && exists|i: int|
                    0 <= i < self.buckets@[str_hash(s)]@.len() && #[trigger] self.buckets@[str_hash(
                        s,
                    )]@[i].0@ == s by {
                if s == k {
                    match pos {
                        Some(p) => {
                            assert(self.buckets@[h]@[p as int].0@ == s);
                        },
                        None => {
                            assert(self.buckets@[h]@[old_b.len() as int].0@ == s);
                        },
                    }
                } else {
                    assert(old(self).contents@.contains_key(s));
                    let g = str_hash(s);
                    let i = choose|i: int|
                        0 <= i < old_buckets[g]@.len() && #[trigger] old_buckets[g]@[i].0@ == s;
                    if g != h {
                        assert(self.buckets@[g]@[i].0@ == s);
                    } else {
                        match pos {
                            Some(p) => {
                                assert(i != p);
                                assert(self.buckets@[g]@[i].0@ == s);
                            },
                            None => {
                                assert(self.buckets@[g]@[i].0@ == s);
                            },
                        }
                    }
                }
            }
        }
    }

    /// Removes `key` and its value.
    pub fn remove(&mut self, key: &str)
        requires
            old(self).wf(),
        ensures
            final(self).wf(),
            final(self)@ == old(self)@.remove(key@),
    {
        let h = str_hash_of(key);
        let pos = self.find(key, h);
        match pos {
            None => {
                assert(self@ =~= old(self)@.remove(key@));
            },
            Some(p) => {
                let ghost old_buckets = self.buckets@;
                let ghost k = key@;
                let mut b = self.buckets.remove(&h).unwrap();
                let ghost old_b = b@;
                b.remove(p);
                self.buckets.insert(h, b);
                self.contents = Ghost(self.contents@.remove(k));
                proof {
                    assert(old_b == old_buckets[h]@);
                    assert forall|g: u64, i: int|
                        #![trigger self.buckets@[g]@[i]]
                        self.buckets@.contains_key(g) && 0 <= i < self.buckets@[g]@.len() implies {
                        let e = self.buckets@[g]@[i];
                        &&& str_hash(e.0@) == g
                        &&& self.contents@.contains_key(e.0@)
                        &&& self.contents@[e.0@] == e.1
                    } by {
                        if g != h {
                            assert(self.buckets@[g] == old_buckets[g]);
                            let e = old_buckets[g]@[i];
                            assert(str_hash(e.0@) == g);
                            assert(e.0@ != k);
                        } else {
                            let e = self.buckets@[g]@[i];
                            if i < p {
                                assert(e == old_b[i]);
                                assert(old_b[i].0@ != old_b[p as int].0@);
                            } else {
                                assert(e == old_b[i + 1]);
                                assert(old_b[p as int].0@ != old_b[i + 1].0@);
                            }
                        }
                    }
                    assert forall|g: u64, i: int, j: int|
                        #![trigger self.buckets@[g]@[i], self.buckets@[g]@[j]]
                        self.buckets@.contains_key(g) && 0 <= i < j < self.buckets@[g]@.len()
                            implies self.buckets@[g]@[i].0@ != self.buckets@[g]@[j].0@ by {
                        if g != h {
                            assert(self.buckets@[g] == old_buckets[g]);
                            assert(old_buckets[g]@[i] == self.buckets@[g]@[i]);
                            assert(old_buckets[g]@[j] == self.buckets@[g]@[j]);
                        } else {
                            let ii = if i < p {
                                i
                            } else {
                                i + 1
                            };
                            let jj = if j < p {
                                j
                            } else {
                                j + 1
                            };
                            assert(self.buckets@[g]@[i] == old_b[ii]);
                            assert(self.buckets@[g]@[j] == old_b[jj]);
                            assert(old_b[ii] == old_buckets[h]@[ii]);
                            assert(old_b[jj] == old_buckets[h]@[jj]);
                        }
                    }
                    assert forall|s: Seq<char>|
                        #![trigger self.contents@.contains_key(s)]
                        self.contents@.contains_key(s) implies self.buckets@.contains_key(
                            str_hash(s),
                        ) && exists|i: int|
                            0 <= i < self.buckets@[str_hash(s)]@.len()
                                && #[trigger] self.buckets@[str_hash(s)]@[i].0@ == s by {
                        assert(old(self).contents@.contains_key(s));
                        let g = str_hash(s);
                        let i = choose|i: int|
                            0 <= i < old_buckets[g]@.len() && #[trigger] old_buckets[g]@[i].0@
                                == s;
                        if g != h {
                            assert(self.buckets@[g]@[i].0@ == s);
                        } else {
                            assert(i != p);
                            if i < p {
                                assert(self.buckets@[g]@[i].0@ == s);
                            } else {
                                assert(self.buckets@[g]@[i - 1].0@ == s);
                            }
                        }
                    }
                }
            },
        }
    }
}

/// A map from texts to values that can give back all its entries.
pub struct Table<V> {
    slots: Vec<Option<(String, V)>>,
    pos: StrMap<usize>,
}

impl<V> View for Table<V> {
    type V = Map<Seq<char>, V>;

    closed spec fn view(&self) -> Map<Seq<char>, V> {
        Map::new(
            |k: Seq<char>| self.pos@.contains_key(k),
            |k: Seq<char>| self.slots@[self.pos@[k] as int]->Some_0.1,
        )
    }
}

impl<V> Table<V> {
    pub closed spec fn wf(&self) -> bool {
        &&& self.pos.wf()
        &&& forall|k: Seq<char>|
            #![trigger self.pos@.contains_key(k)]
            self.pos@.contains_key(k) ==> {
                &&& self.pos@[k] < self.slots@.len()
                &&& self.slots@[self.pos@[k] as int] is Some
                &&& self.slots@[self.pos@[k] as int]->Some_0.0@ == k
            }
        &&& forall|i: int|
            #![trigger self.slots@[i]]
            0 <= i < self.slots@.len() && self.slots@[i] is Some ==> {
                &&& self.pos@.contains_key(self.slots@[i]->Some_0.0@)
                &&& self.pos@[self.slots@[i]->Some_0.0@] == i
            }
    }

    /// A well-formed table holds finitely many keys.
    pub proof fn lemma_finite(&self)
        requires
            self.wf(),
        ensures
            self@.dom().finite(),
    {
        self.pos.lemma_finite();
        assert(self@.dom() =~= self.pos@.dom());
    }

    pub fn new() -> (r: Self)
        ensures
            r.wf(),
            r@ == Map::<Seq<char>, V>::empty(),
    {
        let r = Table { slots: Vec::new(), pos: StrMap::new() };
        assert(r@ =~= Map::<Seq<char>, V>::empty());
        r
    }

    pub fn contains(&self, key: &str) -> (r: bool)
        requires
            self.wf(),
        ensures
            r == self@.contains_key(key@),
    {
        self.pos.contains(key)
    }

    pub fn get(&self, key: &str) -> (r: Option<&V>)
        requires
            self.wf(),
        ensures
            r matches Some(v) ==> self@.contains_key(key@) && self@[key@] == *v,
            r is None ==> !self@.contains_key(key@),
    {
        match self.pos.get(key) {
            None => None,
            Some(p) => {
                let p = *p;
                match &self.slots[p] {
                    Some(e) => Some(&e.1),
                    None => None,
                }
            },
        }
    }

    /// Sets the value of `key`, replacing the one it had.
    pub fn insert(&mut self, key: String, v: V)
        requires
            old(self).wf(),
        ensures
            final(self).wf(),
            final(self)@ == old(self)@.insert(key@, v),
    {
        let ghost k = key@;
        let ghost old_slots = self.slots@;
        let ghost old_pos = self.pos@;
        let found = match self.pos.get(key.as_str()) {
            Some(p) => Some(*p),
            None => None,
        };
        match found {
            Some(p) => {
                self.slots.set(p, Some((key, v)));
                proof {
                    assert forall|i: int|
                        #![trigger self.slots@[i]]
                        0 <= i < self.slots@.len() && self.slots@[i] is Some implies {
                        &&& self.pos@.contains_key(self.slots@[i]->Some_0.0@)
                        &&& self.pos@[self.slots@[i]->Some_0.0@] == i
                    } by {
                        if i != p {
                            assert(self.slots@[i] == old_slots[i]);
                        }
                    }
                }
            },
            None => {
                let n = self.slots.len();
                let ks = key.clone();
                self.slots.push(Some((key, v)));
                self.pos.insert(ks, n);
                proof {
                    assert forall|q: Seq<char>|
                        #![trigger self.pos@.contains_key(q)]
                        self.pos@.contains_key(q) implies {
                        &&& self.pos@[q] < self.slots@.len()
                        &&& self.slots@[self.pos@[q] as int] is Some
                        &&& self.slots@[self.pos@[q] as int]->Some_0.0@ == q
                    } by {
                        if q != k {
                            assert(old_pos.contains_key(q));
                            assert(self.slots@[old_pos[q] as int] == old_slots[old_pos[q] as int]);
                        }
                    }
                    assert forall|i: int|
                        #![trigger self.slots@[i]]
                        0 <= i < self.slots@.len() && self.slots@[i] is Some implies {
                        &&& self.pos@.contains_key(self.slots@[i]->Some_0.0@)
                        &&& self.pos@[self.slots@[i]->Some_0.0@] == i
                    } by {
                        if i < n {
                            assert(self.slots@[i] == old_slots[i]);
                            assert(old_slots[i]->Some_0.0@ != k);
                        }
                    }
                }
            },
        }
        assert(self@ =~= old(self)@.insert(k, v));
    }

    /// Removes `key` and its value.
    pub fn remove(&mut self, key: &str)
        requires
            old(self).wf(),
        ensures
            final(self).wf(),
            final(self)@ == old(self)@.remove(key@),
    {
        let ghost old_slots = self.slots@;
        let ghost old_pos = self.pos@;
        let found = match self.pos.get(key) {
            Some(p) => Some(*p),
            None => None,
        };
        match found {
            Some(p) => {
                self.slots.set(p, None);
                self.pos.remove(key);
                proof {
                    assert forall|q: Seq<char>|
                        #![trigger self.pos@.contains_key(q)]
                        self.pos@.contains_key(q) implies {
                        &&& self.pos@[q] < self.slots@.len()
                        &&& self.slots@[self.pos@[q] as int] is Some
                        &&& self.slots@[self.pos@[q] as int]->Some_0.0@ == q
                    } by {
                        assert(old_pos.contains_key(q));
                        assert(old_pos[q] != p);
                    }
                    assert forall|i: int|
                        #![trigger self.slots@[i]]
                        0 <= i < self.slots@.len() && self.slots@[i] is Some implies {
                        &&& self.pos@.contains_key(self.slots@[i]->Some_0.0@)
                        &&& self.pos@[self.slots@[i]->Some_0.0@] == i
                    } by {
                        assert(i != p);
                        assert(self.slots@[i] == old_slots[i]);
                    }
                }
            },
            None => {},
        }
        assert(self@ =~= old(self)@.remove(key@));
    }

    /// All entries, each key once.
    pub fn into_entries(self) -> (r: Vec<(String, V)>)
        requires
            self.wf(),
        ensures
            forall|i: int|
                0 <= i < r.len() ==> #[trigger] self@.contains_key(r@[i].0@) && self@[r@[i].0@]
                    == r@[i].1,
            forall|i: int, j: int| 0 <= i < j < r.len() ==> r@[i].0@ != r@[j].0@,
            forall|k: Seq<char>|
                #[trigger] self@.contains_key(k) ==> exists|i: int|
                    0 <= i < r.len() && #[trigger] r@[i].0@ == k,
    {
        let ghost view = self@;
        let ghost pos = self.pos@;
        let mut rest = self.slots;
        let ghost slots = rest@;
        let ghost n = slots.len();
        let mut out: Vec<(String, V)> = Vec::new();
        let ghost mut src: Seq<int> = Seq::empty();
        while rest.len() > 0
            invariant
                rest@ == slots.take(rest.len() as int),
                n == slots.len(),
                rest.len() <= n,
                src.len() == out.len(),
                forall|i: int|
                    0 <= i < out.len() ==> rest.len() <= #[trigger] src[i] < n && slots[src[i]]
                        is Some && slots[src[i]]->Some_0 == out@[i],
                forall|i: int, j: int| 0 <= i < j < out.len() ==> src[i] > src[j],
                forall|j: int|
                    rest.len() <= j < n && #[trigger] slots[j] is Some ==> exists|i: int|
                        0 <= i < out.len() && src[i] == j,
            decreases rest.len(),
        {
            let ghost m = rest.len() as int;
            let ghost before = rest@;
            let ghost old_src = src;
            let ghost old_len = out.len() as int;
            assert(before.last() == slots[m - 1]);
            let popped = rest.pop();
            assert(popped == Some(before.last()));
            let slot = popped.unwrap();
            assert(rest@ == before.drop_last());
            assert(rest@ =~= slots.take(m - 1));
            match slot {
                Some(e) => {
                    out.push(e);
                    proof {
                        src = src.push(m - 1);
                    }
                },
                None => {},
            }
            proof {
                assert forall|j: int|
                    rest.len() <= j < n && #[trigger] slots[j] is Some implies exists|i: int|
                        0 <= i < out.len() && src[i] == j by {
                    if j == m - 1 {
                        assert(src[out.len() - 1] == j);
                    } else {
                        let i = choose|i: int| 0 <= i < old_len && old_src[i] == j;
                        assert(src[i] == j);
                    }
                }
            }
        }
        proof {
            assert forall|i: int, j: int| 0 <= i < j < out.len() implies out@[i].0@ != out@[j].0@ by {
                let a = src[i];
                let b = src[j];
                assert(slots[a] is Some && slots[b] is Some);
                assert(pos[slots[a]->Some_0.0@] == a);
                assert(pos[slots[b]->Some_0.0@] == b);
            }
            assert forall|i: int|
                0 <= i < out.len() implies #[trigger] view.contains_key(out@[i].0@) && view[out@[i].0@]
                    == out@[i].1 by {
                let a = src[i];
                assert(slots[a] is Some);
                assert(pos.contains_key(slots[a]->Some_0.0@));
            }
            assert forall|k: Seq<char>| #[trigger] view.contains_key(k) implies exists|i: int|
                0 <= i < out.len() && #[trigger] out@[i].0@ == k by {
                assert(pos.contains_key(k));
                let j = pos[k] as int;
                assert(slots[j] is Some);
                let i = choose|i: int| 0 <= i < out.len() && src[i] == j;
                assert(out@[i].0@ == k);
            }
        }
        out
    }
}

} // verus!
