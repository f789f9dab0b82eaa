use vstd::prelude::*;

verus! {

/// Where the latest value of a key lives: in the segment named `file_id`, at
/// byte offset `value_pos` from the start of that segment, for `value_size`
/// bytes. The timestamp is copied from the row, for diagnostics only; it
/// never decides which row is the latest.
#[derive(Clone, Copy, Debug, PartialEq, Eq, Structural)]
pub struct ValueLocation {
    pub file_id: usize,
    pub timestamp: u64,
    pub value_pos: u64,
    pub value_size: u16,
}

/// The mapping that a sequence of (key, location) entries describes: later
/// entries overwrite earlier ones for the same key.
pub open spec fn entries_map(s: Seq<(Vec<u8>, ValueLocation)>) -> Map<Seq<u8>, ValueLocation>
    decreases s.len(),
{
    if s.len() == 0 {
        Map::empty()
    } else {
        entries_map(s.drop_last()).insert(s.last().0@, s.last().1)
    }
}

/// The in-memory index from each live key to the location of its most
/// recently appended value. Holds exactly one entry per key.
pub struct KeyDirectory {
    entries: Vec<(Vec<u8>, ValueLocation)>,
}

impl View for KeyDirectory {
    type V = Map<Seq<u8>, ValueLocation>;

    closed spec fn view(&self) -> Map<Seq<u8>, ValueLocation> {
        entries_map(self.entries@)
    }
}

proof fn lemma_entries_map_props(s: Seq<(Vec<u8>, ValueLocation)>)
    ensures
        forall|k: Seq<u8>| #[trigger]
            entries_map(s).contains_key(k) <==> exists|i: int|
                0 <= i < s.len() && #[trigger] s[i].0@ == k,
        forall|i: int|
            0 <= i < s.len() ==> entries_map(s).contains_key(#[trigger] s[i].0@),
    decreases s.len(),
{
    if s.len() > 0 {
        lemma_entries_map_props(s.drop_last());
        assert forall|i: int| 0 <= i < s.len() implies entries_map(s).contains_key(
            #[trigger] s[i].0@,
        ) by {
            if i < s.len() - 1 {
                assert(s.drop_last()[i] == s[i]);
            }
        }
        assert forall|k: Seq<u8>| #[trigger] entries_map(s).contains_key(k) implies exists|i: int|
            0 <= i < s.len() && #[trigger] s[i].0@ == k by {
            if s.last().0@ != k {
                assert(entries_map(s.drop_last()).contains_key(k));
                let i = choose|i: int|
                    0 <= i < s.drop_last().len() && #[trigger] s.drop_last()[i].0@ == k;
                assert(s.drop_last()[i] == s[i]);
                assert(s[i].0@ == k);
            } else {
                assert(s[s.len() - 1].0@ == k);
            }
        }
    }
}

/// In a sequence with pairwise distinct keys, the entry for a key is the one
/// the map holds, and the map has exactly as many keys as entries.
proof fn lemma_entries_map_unique(s: Seq<(Vec<u8>, ValueLocation)>)
    requires
        forall|i: int, j: int| 0 <= i < j < s.len() ==> s[i].0@ != s[j].0@,
    ensures
        forall|i: int|
            0 <= i < s.len() ==> entries_map(s)[#[trigger] s[i].0@] == s[i].1,
        entries_map(s).dom().len() == s.len(),
        entries_map(s).dom().finite(),
    decreases s.len(),
{
    lemma_entries_map_props(s);
    if s.len() == 0 {
        assert(entries_map(s).dom() =~= Set::<Seq<u8>>::empty());
    } else {
        let d = s.drop_last();
        lemma_entries_map_unique(d);
        lemma_entries_map_props(d);
        assert forall|i: int| 0 <= i < s.len() implies entries_map(s)[#[trigger] s[i].0@]
            == s[i].1 by {
            if i < s.len() - 1 {
                assert(s[i].0@ != s.last().0@);
                assert(d[i] == s[i]);
            }
        }
        assert(!entries_map(d).contains_key(s.last().0@));
        assert(entries_map(s).dom() =~= entries_map(d).dom().insert(s.last().0@));
        vstd::set::axiom_set_insert_finite(entries_map(d).dom(), s.last().0@);
        vstd::set::axiom_set_insert_len(entries_map(d).dom(), s.last().0@);
    }
}

/// The number of row bytes one directory entry stands for: a fifteen-byte
/// header plus the key and the value.
pub open spec fn entry_bytes(e: (Vec<u8>, ValueLocation)) -> int {
    15 + e.0@.len() as int + e.1.value_size as int
}

/// The number of row bytes a run of entries stands for together.
pub open spec fn entries_bytes(s: Seq<(Vec<u8>, ValueLocation)>) -> int
    decreases s.len(),
{
    if s.len() == 0 {
        0
    } else {
        entries_bytes(s.drop_last()) + entry_bytes(s.last())
    }
}

proof fn lemma_entries_bytes_nonneg(s: Seq<(Vec<u8>, ValueLocation)>)
    ensures
        entries_bytes(s) >= 0,
    decreases s.len(),
{
    if s.len() > 0 {
        lemma_entries_bytes_nonneg(s.drop_last());
    }
}

proof fn lemma_entries_bytes_update(
    s: Seq<(Vec<u8>, ValueLocation)>,
    i: int,
    e: (Vec<u8>, ValueLocation),
)
    requires
        0 <= i < s.len(),
    ensures
        entries_bytes(s.update(i, e)) == entries_bytes(s) - entry_bytes(s[i]) + entry_bytes(e),
    decreases s.len(),
{
    let t = s.update(i, e);
    if i == s.len() - 1 {
        assert(t.drop_last() =~= s.drop_last());
        assert(t.last() == e);
    } else {
        lemma_entries_bytes_update(s.drop_last(), i, e);
        assert(t.drop_last() =~= s.drop_last().update(i, e));
        assert(t.last() == s.last());
        assert(s.drop_last()[i] == s[i]);
    }
}

/// Byte-for-byte equality of two byte vectors.
pub fn bytes_eq(a: &Vec<u8>, b: &Vec<u8>) -> (r: bool)
    ensures
        r <==> a@ == b@,
{
    if a.len() != b.len() {
        return false;
    }
    let n = a.len();
    let mut i: usize = 0;
    while i < n
        invariant
            n == a@.len() == b@.len(),
            i <= n,
            forall|j: int| 0 <= j < i ==> a@[j] == b@[j],
        decreases n - i,
    {
        if a[i] != b[i] {
            return false;
        }
        i = i + 1;
    }
    proof {
        assert(a@ =~= b@);
    }
    true
}

impl KeyDirectory {
    /// Every key appears in at most one entry.
    pub closed spec fn wf(&self) -> bool {
        forall|i: int, j: int|
            0 <= i < j < self.entries@.len() ==> self.entries@[i].0@ != self.entries@[j].0@
    }

    /// The entries in insertion order, for callers that walk the directory.
    pub closed spec fn entry_seq(&self) -> Seq<(Vec<u8>, ValueLocation)> {
        self.entries@
    }

    /// The number of row bytes the live entries stand for together.
    pub open spec fn live_bytes(&self) -> int {
        entries_bytes(self.entry_seq())
    }

    /// An empty directory.
    pub fn new() -> (kd: KeyDirectory)
        ensures
            kd.wf(),
            kd@ == Map::<Seq<u8>, ValueLocation>::empty(),
            kd.entry_seq().len() == 0,
            kd.live_bytes() == 0,
    {
        KeyDirectory { entries: Vec::new() }
    }

    /// The number of live keys.
    pub fn len(&self) -> (n: usize)
        requires
            self.wf(),
        ensures
            n == self@.dom().len(),
            n == self.entry_seq().len(),
    {
        proof {
            lemma_entries_map_unique(self.entries@);
        }
        self.entries.len()
    }

    /// The location recorded for `key`, if the key is live.
    pub fn lookup(&self, key: &Vec<u8>) -> (r: Option<&ValueLocation>)
        requires
            self.wf(),
        ensures
            match r {
                Some(loc) => self@.contains_key(key@) && *loc == self@[key@],
                None => !self@.contains_key(key@),
            },
    {
        proof {
            lemma_entries_map_props(self.entries@);
            lemma_entries_map_unique(self.entries@);
        }
        let n = self.entries.len();
        let mut i: usize = 0;
        while i < n
            invariant
                self.wf(),
                n == self.entries@.len(),
                i <= n,
                forall|j: int| 0 <= j < i ==> self.entries@[j].0@ != key@,
                forall|i2: int|
                    0 <= i2 < n ==> (self@.contains_key(#[trigger] self.entries@[i2].0@)
                        && self@[self.entries@[i2].0@] == self.entries@[i2].1),
                forall|k: Seq<u8>| #[trigger]
                    self@.contains_key(k) ==> exists|i2: int|
                        0 <= i2 < n && #[trigger] self.entries@[i2].0@ == k,
            decreases n - i,
        {
            if bytes_eq(&self.entries[i].0, key) {
                return Some(&self.entries[i].1);
            }
            i = i + 1;
        }
        None
    }

    /// Records `loc` as the current location of `key`, replacing any prior
    /// entry for the same key.
    pub fn upsert(&mut self, key: Vec<u8>, loc: ValueLocation)
        requires
            old(self).wf(),
        ensures
            final(self).wf(),
            final(self)@ == old(self)@.insert(key@, loc),
            final(self).live_bytes() <= old(self).live_bytes() + 15 + key@.len()
                + loc.value_size,
            !old(self)@.contains_key(key@) ==> final(self).live_bytes() == old(self).live_bytes()
                + 15 + key@.len() + loc.value_size,
    {
        proof {
            lemma_entries_map_props(self.entries@);
        }
        let n = self.entries.len();
        let mut i: usize = 0;
        while i < n
            invariant
                self.wf(),
                self == old(self),
                n == self.entries@.len(),
                i <= n,
                forall|j: int| 0 <= j < i ==> self.entries@[j].0@ != key@,
            decreases n - i,
        {
            if bytes_eq(&self.entries[i].0, &key) {
                let ghost s0 = self.entries@;
                self.entries[i] = (key, loc);
                proof {
                    lemma_upsert_at(s0, i as int, self.entries@[i as int]);
                    lemma_entries_bytes_update(s0, i as int, self.entries@[i as int]);
                    lemma_entries_map_props(s0);
                    assert(s0[i as int].0@ == key@);
                    assert(entries_map(s0).contains_key(s0[i as int].0@));
                    assert(old(self)@.contains_key(key@));
                }
                return ;
            }
            i = i + 1;
        }
        let ghost s0 = self.entries@;
        self.entries.push((key, loc));
        proof {
            assert(self.entries@.drop_last() =~= s0);
        }
    }

    /// Empties the directory in place.
    pub fn remove_all(&mut self)
        ensures
            final(self).wf(),
            final(self)@ == Map::<Seq<u8>, ValueLocation>::empty(),
            final(self).entry_seq().len() == 0,
            final(self).live_bytes() == 0,
    {
        self.entries.clear();
    }

    /// The entry at position `i` of the directory, in insertion order.
    pub fn entry_at(&self, i: usize) -> (e: &(Vec<u8>, ValueLocation))
        requires
            i < self.entry_seq().len(),
        ensures
            *e == self.entry_seq()[i as int],
    {
        &self.entries[i]
    }

    /// Every entry's location is the one the directory maps its key to.
    pub proof fn lemma_entries_agree(&self)
        requires
            self.wf(),
        ensures
            forall|i: int|
                0 <= i < self.entry_seq().len() ==> (self@.contains_key(
                    #[trigger] self.entry_seq()[i].0@,
                ) && self@[self.entry_seq()[i].0@] == self.entry_seq()[i].1),
            forall|k: Seq<u8>| #[trigger]
                self@.contains_key(k) ==> exists|i: int|
                    0 <= i < self.entry_seq().len() && #[trigger] self.entry_seq()[i].0@ == k,
            self@.dom().len() == self.entry_seq().len(),
            self@.dom().finite(),
            forall|i: int, j: int|
                0 <= i < j < self.entry_seq().len() ==> self.entry_seq()[i].0@
                    != self.entry_seq()[j].0@,
    {
        lemma_entries_map_props(self.entries@);
        lemma_entries_map_unique(self.entries@);
        assert forall|k: Seq<u8>| #[trigger] self@.contains_key(k) implies exists|i: int|
            0 <= i < self.entry_seq().len() && #[trigger] self.entry_seq()[i].0@ == k by {
            let i = choose|i: int| 0 <= i < self.entries@.len() && #[trigger] self.entries@[i].0@ == k;
            assert(self.entry_seq()[i].0@ == k);
        }
    }
}

/// Replacing the entry whose key matches at position `i` updates the map at
/// that key alone.
proof fn lemma_upsert_at(s: Seq<(Vec<u8>, ValueLocation)>, i: int, e: (Vec<u8>, ValueLocation))
    requires
        0 <= i < s.len(),
        s[i].0@ == e.0@,
        forall|i2: int, j2: int| 0 <= i2 < j2 < s.len() ==> s[i2].0@ != s[j2].0@,
    ensures
        entries_map(s.update(i, e)) == entries_map(s).insert(e.0@, e.1),
    decreases s.len(),
{
    let t = s.update(i, e);
    lemma_entries_map_props(s);
    lemma_entries_map_props(t);
    if i == s.len() - 1 {
        assert(t.drop_last() =~= s.drop_last());
        assert(entries_map(t) =~= entries_map(s).insert(e.0@, e.1));
    } else {
        lemma_upsert_at(s.drop_last(), i, e);
        assert(t.drop_last() =~= s.drop_last().update(i, e));
        assert(t.last() == s.last());
        assert(s.last().0@ != e.0@);
        assert(entries_map(t) == entries_map(s.drop_last()).insert(e.0@, e.1).insert(
            s.last().0@,
            s.last().1,
        ));
        assert(entries_map(t) =~= entries_map(s).insert(e.0@, e.1));
    }
}

} // verus!
