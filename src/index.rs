//! The in-memory index: from each key to the offset of a record in the log.
//! Entries are kept sorted by key in byte-wise lexicographic order, one per
//! key, and found by binary search.
use core::cmp::Ordering;
use vstd::prelude::*;

verus! {

/// `a` comes before `b` in byte-wise lexicographic order, given that they
/// agree before position `i`.
pub open spec fn lex_lt_from(a: Seq<u8>, b: Seq<u8>, i: int) -> bool
    decreases a.len() - i,
{
    if i < 0 {
        false
    } else if i >= a.len() {
        i < b.len()
    } else if i >= b.len() {
        false
    } else if a[i] != b[i] {
        a[i] < b[i]
    } else {
        lex_lt_from(a, b, i + 1)
    }
}

/// `a` comes before `b` in byte-wise lexicographic order: at the first
/// position where they differ `a` has the smaller byte, or `a` is a proper
/// prefix of `b`.
pub open spec fn lex_lt(a: Seq<u8>, b: Seq<u8>) -> bool {
    lex_lt_from(a, b, 0)
}

/// No byte string comes before itself.
pub proof fn lemma_lex_irreflexive(a: Seq<u8>, i: int)
    requires
        0 <= i,
    ensures
        !lex_lt_from(a, a, i),
    decreases a.len() - i,
{
    if i < a.len() {
        lemma_lex_irreflexive(a, i + 1);
    }
}

/// The lexicographic order is transitive.
pub proof fn lemma_lex_transitive(a: Seq<u8>, b: Seq<u8>, c: Seq<u8>, i: int)
    requires
        0 <= i,
        lex_lt_from(a, b, i),
        lex_lt_from(b, c, i),
    ensures
        lex_lt_from(a, c, i),
    decreases a.len() - i,
{
    if i < a.len() && a[i] == b[i] && b[i] == c[i] {
        lemma_lex_transitive(a, b, c, i + 1);
    }
}

/// Compares two byte strings in lexicographic order.
pub fn compare_bytes(a: &[u8], b: &[u8]) -> (r: Ordering)
    ensures
        r == Ordering::Less <==> lex_lt(a@, b@),
        r == Ordering::Greater <==> lex_lt(b@, a@),
        r == Ordering::Equal <==> a@ == b@,
{
    let mut i: usize = 0;
    while i < a.len() && i < b.len()
        invariant
            i <= a@.len(),
            i <= b@.len(),
            forall|j: int| 0 <= j < i ==> a@[j] == b@[j],
            lex_lt(a@, b@) == lex_lt_from(a@, b@, i as int),
            lex_lt(b@, a@) == lex_lt_from(b@, a@, i as int),
        decreases a@.len() - i,
    {
        if a[i] < b[i] {
            return Ordering::Less;
        }
        if a[i] > b[i] {
            return Ordering::Greater;
        }
        i = i + 1;
    }
    if a.len() < b.len() {
        Ordering::Less
    } else if a.len() > b.len() {
        Ordering::Greater
    } else {
        assert(a@ =~= b@);
        proof {
            lemma_lex_irreflexive(a@, 0);
        }
        Ordering::Equal
    }
}

/// A map from keys to log offsets.
pub struct Index {
    entries: Vec<(Vec<u8>, usize)>,
    map: Ghost<Map<Seq<u8>, usize>>,
}

impl View for Index {
    type V = Map<Seq<u8>, usize>;

    closed spec fn view(&self) -> Map<Seq<u8>, usize> {
        self.map@
    }
}

impl Index {
    /// The entries are strictly sorted by key, each entry's key is in the
    /// map with the entry's offset, and each key of the map has an entry.
    pub closed spec fn wf(&self) -> bool {
        &&& forall|i: int, j: int|
            0 <= i < j < self.entries@.len() ==> lex_lt(
                #[trigger] self.entries@[i].0@,
                #[trigger] self.entries@[j].0@,
            )
        &&& forall|i: int|
            0 <= i < self.entries@.len() ==> {
                &&& #[trigger] self.map@.contains_key(self.entries@[i].0@)
                &&& self.map@[self.entries@[i].0@] == self.entries@[i].1
            }
        &&& forall|k: Seq<u8>|
            #[trigger] self.map@.contains_key(k) ==> exists|i: int|
                0 <= i < self.entries@.len() && #[trigger] self.entries@[i].0@ == k
    }

    /// An empty index.
    pub fn new() -> (r: Index)
        ensures
            r.wf(),
            r@ == Map::<Seq<u8>, usize>::empty(),
    {
        Index { entries: Vec::new(), map: Ghost(Map::empty()) }
    }

    /// Binary search for `key`: `Ok` with its position among the entries,
    /// or `Err` with the position where it would go to keep them sorted.
    fn search(&self, key: &[u8]) -> (r: Result<usize, usize>)
        requires
            self.wf(),
        ensures
            match r {
                Ok(i) => i < self.entries@.len() && self.entries@[i as int].0@ == key@,
                Err(i) => {
                    &&& i <= self.entries@.len()
                    &&& !self@.contains_key(key@)
                    &&& forall|j: int| 0 <= j < i ==> lex_lt(#[trigger] self.entries@[j].0@, key@)
                    &&& forall|j: int|
                        i <= j < self.entries@.len() ==> lex_lt(
                            key@,
                            #[trigger] self.entries@[j].0@,
                        )
                },
            },
    {
        let mut lo: usize = 0;
        let mut hi: usize = self.entries.len();
        while lo < hi
            invariant
                self.wf(),
                lo <= hi <= self.entries@.len(),
                forall|j: int| 0 <= j < lo ==> lex_lt(#[trigger] self.entries@[j].0@, key@),
                forall|j: int|
                    hi <= j < self.entries@.len() ==> lex_lt(key@, #[trigger] self.entries@[j].0@),
            decreases hi - lo,
        {
            let mid = lo + (hi - lo) / 2;
            let ghost m = self.entries@[mid as int].0@;
            match compare_bytes(self.entries[mid].0.as_slice(), key) {
                Ordering::Equal => {
                    return Ok(mid);
                },
                Ordering::Less => {
                    assert forall|j: int| 0 <= j < mid + 1 implies lex_lt(
                        #[trigger] self.entries@[j].0@,
                        key@,
                    ) by {
                        if j < mid {
                            lemma_lex_transitive(self.entries@[j].0@, m, key@, 0);
                        }
                    }
                    lo = mid + 1;
                },
                Ordering::Greater => {
                    assert forall|j: int| mid <= j < self.entries@.len() implies lex_lt(
                        key@,
                        #[trigger] self.entries@[j].0@,
                    ) by {
                        if j > mid {
                            lemma_lex_transitive(key@, m, self.entries@[j].0@, 0);
                        }
                    }
                    hi = mid;
                },
            }
        }
        proof {
            lemma_lex_irreflexive(key@, 0);
            assert forall|j: int| 0 <= j < self.entries@.len() implies #[trigger] self.entries@[j].0@
                != key@ by {
                if j < lo {
                    assert(lex_lt(self.entries@[j].0@, key@));
                } else {
                    assert(lex_lt(key@, self.entries@[j].0@));
                }
            }
        }
        Err(lo)
    }

    /// The offset stored for `key`, if any.
    pub fn get(&self, key: &[u8]) -> (r: Option<usize>)
        requires
            self.wf(),
        ensures
            r == (if self@.contains_key(key@) {
                Some(self@[key@])
            } else {
                None
            }),
    {
        match self.search(key) {
            Ok(i) => Some(self.entries[i].1),
            Err(_) => None,
        }
    }

    /// Stores `offset` for `key`, replacing what was stored for it.
    pub fn insert(&mut self, key: Vec<u8>, offset: usize)
        requires
            old(self).wf(),
        ensures
            final(self).wf(),
            final(self)@ == old(self)@.insert(key@, offset),
    {
        let ghost k = key@;
        let ghost old_entries = self.entries@;
        let ghost new_map = self.map@.insert(k, offset);
        match self.search(key.as_slice()) {
            Ok(i) => {
                self.entries.set(i, (key, offset));
                self.map = Ghost(new_map);
                let ghost e = self.entries@;
                assert forall|p: int, q: int| 0 <= p < q < e.len() implies lex_lt(
                    #[trigger] e[p].0@,
                    #[trigger] e[q].0@,
                ) by {
                    assert(lex_lt(old_entries[p].0@, old_entries[q].0@));
                }
                assert forall|p: int| 0 <= p < e.len() implies {
                    &&& #[trigger] new_map.contains_key(e[p].0@)
                    &&& new_map[e[p].0@] == e[p].1
                } by {
                    if p != i {
                        lemma_lex_irreflexive(k, 0);
                        if p < i {
                            assert(lex_lt(old_entries[p].0@, old_entries[i as int].0@));
                        } else {
                            assert(lex_lt(old_entries[i as int].0@, old_entries[p].0@));
                        }
                    }
                }
                assert forall|k2: Seq<u8>| #[trigger] new_map.contains_key(k2) implies exists|j: int|
                    0 <= j < self.entries@.len() && #[trigger] self.entries@[j].0@ == k2 by {
                    if k2 != k {
                        let j = choose|j: int|
                            0 <= j < old_entries.len() && #[trigger] old_entries[j].0@ == k2;
                        assert(self.entries@[j].0@ == k2);
                    } else {
                        assert(self.entries@[i as int].0@ == k2);
                    }
                }
            },
            Err(i) => {
                self.entries.insert(i, (key, offset));
                self.map = Ghost(new_map);
                let ghost e = self.entries@;
                proof {
                    old_entries.insert_ensures(i as int, (key, offset));
                }
                assert forall|p: int, q: int| 0 <= p < q < e.len() implies lex_lt(
                    #[trigger] e[p].0@,
                    #[trigger] e[q].0@,
                ) by {
                    if q < i {
                        assert(lex_lt(old_entries[p].0@, old_entries[q].0@));
                    } else if q == i {
                        assert(lex_lt(old_entries[p].0@, k));
                    } else if p < i {
                        assert(e[q] == old_entries[q - 1]);
                        assert(lex_lt(old_entries[p].0@, old_entries[q - 1].0@));
                    } else if p == i {
                        assert(e[q] == old_entries[q - 1]);
                        assert(lex_lt(k, old_entries[q - 1].0@));
                    } else {
                        assert(e[p] == old_entries[p - 1]);
                        assert(e[q] == old_entries[q - 1]);
                        assert(lex_lt(old_entries[p - 1].0@, old_entries[q - 1].0@));
                    }
                }
                assert forall|p: int| 0 <= p < e.len() implies {
                    &&& #[trigger] new_map.contains_key(e[p].0@)
                    &&& new_map[e[p].0@] == e[p].1
                } by {
                    if p > i {
                        assert(e[p] == old_entries[p - 1]);
                    }
                }
                assert forall|k2: Seq<u8>| #[trigger] new_map.contains_key(k2) implies exists|j: int|
                    0 <= j < e.len() && #[trigger] e[j].0@ == k2 by {
                    if k2 != k {
                        let j = choose|j: int|
                            0 <= j < old_entries.len() && #[trigger] old_entries[j].0@ == k2;
                        if j < i {
                            assert(e[j].0@ == k2);
                        } else {
                            assert(e[j + 1] == old_entries[j]);
                            assert(e[j + 1].0@ == k2);
                        }
                    } else {
                        assert(e[i as int].0@ == k2);
                    }
                }
            },
        }
        assert(self@ =~= old(self)@.insert(k, offset));
    }
}

} // verus!
