//! One shard of the partitioned visited table: a plain key-to-metadata map
//! owned by a single worker, with first-write-wins insertion.

use vstd::prelude::*;

use crate::state::{KeyV, State, StateKey, StateV};

verus! {

/// Record stored once per canonical key upon first discovery.
pub struct StateMeta {
    /// Predecessor state; `None` only for the start state.
    pub prev: Option<State>,
    /// Fuel carried at first discovery.
    pub held: u16,
}

/// Mathematical model of a stored record.
#[verifier::ext_equal]
pub struct MetaV {
    pub prev: Option<StateV>,
    pub held: int,
}

/// View of an optional predecessor state.
pub open spec fn opt_view(o: Option<State>) -> Option<StateV> {
    match o {
        Option::Some(p) => Option::Some(p@),
        Option::None => Option::None,
    }
}

impl View for StateMeta {
    type V = MetaV;

    open spec fn view(&self) -> MetaV {
        MetaV { prev: opt_view(self.prev), held: self.held as int }
    }
}

/// What `insert` reports: stored fresh, discarded as already present, or a
/// violation of the monotonic-first-discovery invariant (a fatal defect that
/// a correct run never produces).
pub enum InsertOutcome {
    Inserted,
    Discarded,
    Violation,
}

/// One shard: association list from canonical keys to their records, with
/// pairwise-distinct keys. Only its owning worker ever touches it.
pub struct Shard {
    pub entries: Vec<(StateKey, StateMeta)>,
}

/// The map held by a sequence of entries; a later entry would win, though
/// well-formed shards never hold a key twice.
pub open spec fn entries_map(s: Seq<(StateKey, StateMeta)>) -> Map<KeyV, MetaV>
    decreases s.len(),
{
    if s.len() == 0 {
        Map::empty()
    } else {
        entries_map(s.drop_last()).insert(s.last().0@, s.last().1@)
    }
}

impl View for Shard {
    type V = Map<KeyV, MetaV>;

    open spec fn view(&self) -> Map<KeyV, MetaV> {
        entries_map(self.entries@)
    }
}

/// Some entry carries this key.
pub open spec fn has_key(s: Seq<(StateKey, StateMeta)>, k: KeyV) -> bool {
    exists|i: int| 0 <= i < s.len() && (#[trigger] s[i].0@) == k
}

/// The keys of the entries are pairwise distinct.
pub open spec fn keys_distinct(s: Seq<(StateKey, StateMeta)>) -> bool {
    forall|i: int, j: int|
        0 <= i < j < s.len() ==> (#[trigger] s[i].0@) != (#[trigger] s[j].0@)
}

/// The domain of the entry map is exactly the keys that occur.
pub proof fn lemma_entries_map_dom(s: Seq<(StateKey, StateMeta)>)
    ensures
        forall|k: KeyV| #[trigger] entries_map(s).dom().contains(k) <==> has_key(s, k),
        entries_map(s).dom().finite(),
    decreases s.len(),
{
    if s.len() == 0 {
    } else {
        lemma_entries_map_dom(s.drop_last());
        assert forall|k: KeyV| #[trigger] entries_map(s).dom().contains(k) implies has_key(s, k) by {
            if k == s.last().0@ {
                assert(s[s.len() - 1].0@ == k);
            } else {
                assert(has_key(s.drop_last(), k));
                let i = choose|i: int| 0 <= i < s.drop_last().len() && (#[trigger] s.drop_last()[i].0@) == k;
                assert(s[i].0@ == k);
            }
        }
        assert forall|k: KeyV| has_key(s, k) implies #[trigger] entries_map(s).dom().contains(k) by {
            let i = choose|i: int| 0 <= i < s.len() && (#[trigger] s[i].0@) == k;
            if i < s.len() - 1 {
                assert(s.drop_last()[i].0@ == k);
                assert(has_key(s.drop_last(), k));
            }
        }
    }
}

/// With distinct keys, each entry is the map's record for its key, and the
/// map is as large as the list.
pub proof fn lemma_entries_map_at(s: Seq<(StateKey, StateMeta)>)
    requires
        keys_distinct(s),
    ensures
        forall|i: int|
            0 <= i < s.len() ==> entries_map(s)[#[trigger] s[i].0@] == s[i].1@,
        entries_map(s).dom().len() == s.len(),
    decreases s.len(),
{
    lemma_entries_map_dom(s);
    if s.len() > 0 {
        assert(keys_distinct(s.drop_last()));
        lemma_entries_map_at(s.drop_last());
        lemma_entries_map_dom(s.drop_last());
        assert forall|i: int|
            0 <= i < s.len() implies entries_map(s)[#[trigger] s[i].0@] == s[i].1@ by {
            if i < s.len() - 1 {
                assert(s.drop_last()[i] == s[i]);
                assert(s[i].0@ != s.last().0@);
            }
        }
        assert(!has_key(s.drop_last(), s.last().0@));
        assert(entries_map(s).dom() =~= entries_map(s.drop_last()).dom().insert(s.last().0@));
    }
}

impl Shard {
    /// Shard invariant: no key stored twice.
    pub open spec fn wf(&self) -> bool {
        keys_distinct(self.entries@)
    }

    /// Fresh, empty shard.
    pub fn new() -> (r: Shard)
        ensures
            r.wf(),
            r@ == Map::<KeyV, MetaV>::empty(),
            r.entries@.len() == 0,
    {
        Shard { entries: Vec::new() }
    }

    /// Number of records stored.
    pub fn len(&self) -> (r: usize)
        requires
            self.wf(),
        ensures
            r == self.entries@.len(),
            r == self@.dom().len(),
    {
        proof {
            lemma_entries_map_at(self.entries@);
        }
        self.entries.len()
    }

    /// Linear lookup of a key's position.
    #[verifier::loop_isolation(false)]
    fn find(&self, k: &StateKey) -> (r: Option<usize>)
        requires
            self.wf(),
        ensures
            match r {
                Option::Some(i) => i < self.entries@.len() && self.entries@[i as int].0@ == k@
                    && self@.dom().contains(k@) && self@[k@] == self.entries@[i as int].1@,
                Option::None => !self@.dom().contains(k@),
            },
    {
        proof {
            lemma_entries_map_dom(self.entries@);
            lemma_entries_map_at(self.entries@);
        }
        let mut i: usize = 0;
        while i < self.entries.len()
            invariant
                i <= self.entries@.len(),
                forall|j: int| 0 <= j < i ==> (#[trigger] self.entries@[j].0@) != k@,
            decreases self.entries@.len() - i,
        {
            if key_eq(&self.entries[i].0, k) {
                return Some(i);
            }
            i = i + 1;
        }
        proof {
            assert(!has_key(self.entries@, k@));
        }
        None
    }

    /// Stored record for a key, if any: the predecessor-lookup capability.
    pub fn get(&self, k: &StateKey) -> (r: Option<&StateMeta>)
        requires
            self.wf(),
        ensures
            match r {
                Option::Some(m) => self@.dom().contains(k@) && self@[k@] == m@,
                Option::None => !self@.dom().contains(k@),
            },
    {
        match self.find(k) {
            Some(i) => Some(&self.entries[i].1),
            None => None,
        }
    }

    /// First-write-wins insertion. A key seen before leaves the shard
    /// untouched; the report says whether the stored record already carried
    /// at least as much fuel (the monotonic-first-discovery invariant) or
    /// whether that invariant was broken.
    pub fn insert(&mut self, prev: Option<State>, state: State) -> (r: InsertOutcome)
        requires
            old(self).wf(),
        ensures
            final(self).wf(),
            match r {
                InsertOutcome::Inserted => {
                    &&& !old(self)@.dom().contains(state@.key)
                    &&& final(self)@ == old(self)@.insert(
                        state@.key,
                        (MetaV { prev: opt_view(prev), held: state@.held }),
                    )
                    &&& final(self).entries@.len() == old(self).entries@.len() + 1
                },
                InsertOutcome::Discarded => {
                    &&& old(self)@.dom().contains(state@.key)
                    &&& old(self)@[state@.key].held >= state@.held
                    &&& *final(self) == *old(self)
                },
                InsertOutcome::Violation => {
                    &&& old(self)@.dom().contains(state@.key)
                    &&& old(self)@[state@.key].held < state@.held
                    &&& *final(self) == *old(self)
                },
            },
    {
        match self.find(&state.inner) {
            Some(i) => {
                if self.entries[i].1.held >= state.held {
                    InsertOutcome::Discarded
                } else {
                    InsertOutcome::Violation
                }
            },
            None => {
                let ghost before = self.entries@;
                let held = state.held;
                self.entries.push((state.inner, StateMeta { prev, held }));
                proof {
                    lemma_entries_map_dom(before);
                    assert(self.entries@.drop_last() =~= before);
                    assert forall|i: int, j: int|
                        0 <= i < j < self.entries@.len() implies (#[trigger] self.entries@[i].0@)
                        != (#[trigger] self.entries@[j].0@) by {
                        if j == self.entries@.len() - 1 {
                            assert(!has_key(before, self.entries@[j].0@));
                            assert(before[i].0@ == self.entries@[i].0@);
                        } else {
                            assert(self.entries@[i] == before[i]);
                            assert(self.entries@[j] == before[j]);
                        }
                    }
                }
                InsertOutcome::Inserted
            },
        }
    }
}

/// Element-wise comparison of two pile vectors.
#[verifier::loop_isolation(false)]
fn piles_eq(a: &Vec<u16>, b: &Vec<u16>) -> (r: bool)
    ensures
        r == (a@ == b@),
{
    if a.len() != b.len() {
        return false;
    }
    let mut i: usize = 0;
    while i < a.len()
        invariant
            a@.len() == b@.len(),
            i <= a@.len(),
            forall|j: int| 0 <= j < i ==> a@[j] == b@[j],
        decreases a@.len() - i,
    {
        if a[i] != b[i] {
            return false;
        }
        i = i + 1;
    }
    proof {
        assert(a@ =~= b@);
    }
    true
}

/// Whether two canonical keys denote the same node of the search graph.
pub fn key_eq(a: &StateKey, b: &StateKey) -> (r: bool)
    ensures
        r == (a@ == b@),
{
    let r = a.x == b.x && piles_eq(&a.piles, &b.piles);
    proof {
        if a.x == b.x && a.piles@ == b.piles@ {
            assert(a@ =~~= b@);
        }
        if a@ == b@ {
            assert(a.piles@.len() == b.piles@.len()) by {
                assert(a@.piles.len() == b@.piles.len());
            }
            assert forall|i: int| 0 <= i < a.piles@.len() implies a.piles@[i] == b.piles@[i] by {
                assert(a@.piles[i] == b@.piles[i]);
                assert(a@.piles[i] == a.piles@[i] as int);
                assert(b@.piles[i] == b.piles@[i] as int);
            }
            assert(a.piles@ =~= b.piles@);
        }
    }
    r
}

} // verus!
