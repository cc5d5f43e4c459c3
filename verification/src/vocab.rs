use vstd::prelude::*;

verus! {

/// An association sequence of (token byte-string, rank) pairs, read as a map
/// in which a later entry for the same key overrides an earlier one.
pub open spec fn assoc_as_map(s: Seq<(Seq<u8>, int)>) -> Map<Seq<u8>, int>
    decreases s.len(),
{
    if s.len() == 0 {
        Map::empty()
    } else {
        assoc_as_map(s.drop_last()).insert(s.last().0, s.last().1)
    }
}

/// Lookup in an association sequence: the latest entry for the key wins.
pub open spec fn assoc_find(s: Seq<(Seq<u8>, int)>, k: Seq<u8>) -> Option<int>
    decreases s.len(),
{
    if s.len() == 0 {
        None
    } else if s.last().0 == k {
        Some(s.last().1)
    } else {
        assoc_find(s.drop_last(), k)
    }
}

/// Reverse lookup by rank: the latest entry carrying the rank wins.
pub open spec fn assoc_find_rank(s: Seq<(Seq<u8>, int)>, rank: int) -> Option<Seq<u8>>
    decreases s.len(),
{
    if s.len() == 0 {
        None
    } else if s.last().1 == rank {
        Some(s.last().0)
    } else {
        assoc_find_rank(s.drop_last(), rank)
    }
}

/// `assoc_find` agrees with the map reading of the association sequence.
pub proof fn lemma_assoc_find_agrees(s: Seq<(Seq<u8>, int)>, k: Seq<u8>)
    ensures
        assoc_find(s, k) == (if assoc_as_map(s).contains_key(k) {
            Some(assoc_as_map(s)[k])
        } else {
            None::<int>
        }),
    decreases s.len(),
{
    if s.len() > 0 {
        lemma_assoc_find_agrees(s.drop_last(), k);
    }
}

/// A rank found by reverse lookup is carried by some entry, hence by the map
/// unless a later entry overrode that key.
pub proof fn lemma_assoc_find_rank_some(s: Seq<(Seq<u8>, int)>, rank: int)
    ensures
        assoc_find_rank(s, rank) matches Some(k) ==> assoc_as_map(s).contains_key(k),
    decreases s.len(),
{
    if s.len() > 0 {
        lemma_assoc_find_rank_some(s.drop_last(), rank);
    }
}

/// Immutable mapping from token byte-strings to integer ranks. Lower rank
/// means higher merge priority; the rank doubles as the emitted token id.
pub struct Vocab {
    entries: Vec<(Vec<u8>, isize)>,
}

impl View for Vocab {
    type V = Map<Seq<u8>, int>;

    closed spec fn view(&self) -> Map<Seq<u8>, int> {
        assoc_as_map(self.entry_seq())
    }
}

/// Byte-string equality, byte by byte.
pub fn bytes_eq(a: &Vec<u8>, b: &Vec<u8>) -> (r: bool)
    ensures
        r == (a@ == b@),
{
    if a.len() != b.len() {
        return false;
    }
    let n = a.len();
    let mut i: usize = 0;
    while i < n
        invariant
            n == a.len() == b.len(),
            i <= n,
            forall|j: int| 0 <= j < i ==> a@[j] == b@[j],
        decreases n - i,
    {
        if a[i] != b[i] {
            return false;
        }
        i = i + 1;
    }
    proof {
        assert(a@ =~= b@);
    }
    true
}

impl Vocab {
    /// The construction order of the entries, as (key bytes, rank) pairs.
    pub closed spec fn entry_seq(&self) -> Seq<(Seq<u8>, int)> {
        self.entries@.map_values(|p: (Vec<u8>, isize)| (p.0@, p.1 as int))
    }

    /// The map reading of a vocabulary is the map reading of its entries.
    pub proof fn lemma_view(&self)
        ensures
            self@ == assoc_as_map(self.entry_seq()),
    {
    }

    pub fn new() -> (r: Vocab)
        ensures
            r@ == Map::<Seq<u8>, int>::empty(),
            r.entry_seq() == Seq::<(Seq<u8>, int)>::empty(),
    {
        let v = Vocab { entries: Vec::new() };
        proof {
            assert(v.entry_seq() =~= Seq::<(Seq<u8>, int)>::empty());
        }
        v
    }

    /// Insert a token with its rank; a duplicate key is overwritten.
    pub fn insert(&mut self, key: Vec<u8>, rank: isize)
        requires
            0 <= rank,
        ensures
            final(self)@ == old(self)@.insert(key@, rank as int),
            final(self).entry_seq() == old(self).entry_seq().push((key@, rank as int)),
    {
        let ghost pre = self.entry_seq();
        self.entries.push((key, rank));
        proof {
            assert(self.entry_seq() =~= pre.push((key@, rank as int)));
            assert(self.entry_seq().drop_last() =~= pre);
        }
    }

    pub fn len(&self) -> (r: usize)
        ensures
            r == self.entry_seq().len(),
    {
        self.entries.len()
    }

    /// The key bytes of the `i`th entry, in construction order.
    pub fn key_at(&self, i: usize) -> (r: &Vec<u8>)
        requires
            i < self.entry_seq().len(),
        ensures
            r@ == self.entry_seq()[i as int].0,
    {
        &self.entries[i].0
    }

    /// Exact lookup of a token byte-string.
    pub fn lookup(&self, key: &Vec<u8>) -> (r: Option<isize>)
        ensures
            match r {
                Some(v) => self@.contains_key(key@) && self@[key@] == v as int,
                None => !self@.contains_key(key@),
            },
    {
        let ghost s = self.entry_seq();
        let mut i: usize = self.entries.len();
        proof {
            assert(s.take(i as int) =~= s);
        }
        while i > 0
            invariant
                i <= self.entries@.len(),
                s == self.entry_seq(),
                assoc_find(s, key@) == assoc_find(s.take(i as int), key@),
            decreases i,
        {
            i = i - 1;
            proof {
                assert(s.take(i + 1).drop_last() =~= s.take(i as int));
                assert(s.take(i + 1).last() == s[i as int]);
            }
            if bytes_eq(&self.entries[i].0, key) {
                proof {
                    lemma_assoc_find_agrees(s, key@);
                }
                return Some(self.entries[i].1);
            }
        }
        proof {
            assert(s.take(0) =~= Seq::<(Seq<u8>, int)>::empty());
            lemma_assoc_find_agrees(s, key@);
        }
        None
    }

    /// Decode direction: the byte-string of a rank, if any entry carries it.
    pub fn rank_to_bytes(&self, rank: isize) -> (r: Option<Vec<u8>>)
        ensures
            match r {
                Some(b) => assoc_find_rank(self.entry_seq(), rank as int) == Some(b@)
                    && self@.contains_key(b@),
                None => assoc_find_rank(self.entry_seq(), rank as int) is None,
            },
    {
        let ghost s = self.entry_seq();
        let mut i: usize = self.entries.len();
        proof {
            assert(s.take(i as int) =~= s);
        }
        while i > 0
            invariant
                i <= self.entries@.len(),
                s == self.entry_seq(),
                assoc_find_rank(s, rank as int) == assoc_find_rank(s.take(i as int), rank as int),
            decreases i,
        {
            i = i - 1;
            proof {
                assert(s.take(i + 1).drop_last() =~= s.take(i as int));
                assert(s.take(i + 1).last() == s[i as int]);
            }
            if self.entries[i].1 == rank {
                let b = self.entries[i].0.clone();
                proof {
                    lemma_assoc_find_rank_some(s, rank as int);
                }
                return Some(b);
            }
        }
        proof {
            assert(s.take(0) =~= Seq::<(Seq<u8>, int)>::empty());
        }
        None
    }
}

} // verus!
