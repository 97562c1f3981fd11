//! The read cache: it remembers, for each key, the one fetch that was issued
//! for it, and lets go of what it remembers when it is told that a write
//! has landed. It issues no fetch itself: it says when one is due, and takes
//! the answer.

use vstd::prelude::*;
use crate::cache_model::{settled, CacheModel, FetchState, KeyView, SlotView};
use crate::error::StoreError;
use crate::person_data::PersonId;

verus! {

/// What a read asks for.
#[derive(Debug, Clone)]
pub enum CacheKey {
    /// The record of one person.
    Person(PersonId),
    /// The result of a search for this text.
    Search(String),
}

impl View for CacheKey {
    type V = KeyView;

    open spec fn view(&self) -> KeyView {
        match self {
            CacheKey::Person(id) => KeyView::Person(id@),
            CacheKey::Search(text) => KeyView::Search(text@),
        }
    }
}

impl CacheKey {
    /// Whether two keys ask for the same.
    pub fn same_as(&self, other: &CacheKey) -> (same: bool)
        ensures
            same == (self@ == other@),
    {
        match (self, other) {
            (CacheKey::Person(a), CacheKey::Person(b)) => a.raw() == b.raw(),
            (CacheKey::Search(a), CacheKey::Search(b)) => *a == *b,
            _ => false,
        }
    }
}

/// The name of one fetch. A cache gives each fetch a handle of its own, so
/// an answer that arrives late cannot be taken for the answer of another.
#[derive(Debug, Clone, Copy, PartialEq, Eq, Hash, Structural)]
pub struct FetchHandle(u64);

impl View for FetchHandle {
    type V = nat;

    closed spec fn view(&self) -> nat {
        self.0 as nat
    }
}

impl FetchHandle {
    /// The number of this handle.
    pub fn raw(&self) -> (raw: u64)
        ensures
            raw == self@,
    {
        self.0
    }

    /// Handles are told apart by their numbers alone.
    pub proof fn lemma_same_number_same_handle(self, other: FetchHandle)
        ensures
            self@ == other@ <==> self == other,
    {
    }
}

/// What a request returns: the handle of the key's fetch, and whether the
/// caller has to issue that fetch now.
#[derive(Debug, Clone, Copy)]
pub struct Lookup {
    pub handle: FetchHandle,
    pub fetch: bool,
}

/// One slot of the cache.
#[derive(Debug)]
struct CacheEntry<V> {
    key: CacheKey,
    handle: FetchHandle,
    state: FetchState<V>,
    generation_at_creation: u64,
}

/// The slot of an entry as a plain value.
spec fn slot<V>(entry: CacheEntry<V>) -> SlotView<V> {
    SlotView {
        handle: entry.handle@,
        state: entry.state,
        created_at: entry.generation_at_creation as nat,
    }
}

/// Some entry has this key.
spec fn has_key<V>(entries: Seq<CacheEntry<V>>, key: KeyView) -> bool {
    exists|i: int| 0 <= i < entries.len() && (#[trigger] entries[i]).key@ == key
}

/// The place of the entry with this key.
spec fn index_of<V>(entries: Seq<CacheEntry<V>>, key: KeyView) -> int {
    choose|i: int| 0 <= i < entries.len() && (#[trigger] entries[i]).key@ == key
}

/// No two entries have the same key.
spec fn distinct_keys<V>(entries: Seq<CacheEntry<V>>) -> bool {
    forall|i: int, j: int|
        0 <= i < j < entries.len() ==> (#[trigger] entries[i]).key@ != (#[trigger] entries[j]).key@
}

/// The slots that the entries stand for, by key.
spec fn slots_of<V>(entries: Seq<CacheEntry<V>>) -> Map<KeyView, SlotView<V>> {
    Map::new(|key: KeyView| has_key(entries, key), |key: KeyView| slot(entries[index_of(entries, key)]))
}

/// Among entries with distinct keys, a key leads to its own entry.
proof fn lemma_index_of<V>(entries: Seq<CacheEntry<V>>, i: int)
    requires
        distinct_keys(entries),
        0 <= i < entries.len(),
    ensures
        has_key(entries, entries[i].key@),
        index_of(entries, entries[i].key@) == i,
        slots_of(entries).contains_key(entries[i].key@),
        slots_of(entries)[entries[i].key@] == slot(entries[i]),
{
    let found = index_of(entries, entries[i].key@);
    assert(0 <= found < entries.len() && entries[found].key@ == entries[i].key@);
}

/// An entry with a new key, put at the end, adds its slot.
proof fn lemma_slots_push<V>(entries: Seq<CacheEntry<V>>, entry: CacheEntry<V>)
    requires
        distinct_keys(entries),
        !has_key(entries, entry.key@),
    ensures
        distinct_keys(entries.push(entry)),
        slots_of(entries.push(entry)) == slots_of(entries).insert(entry.key@, slot(entry)),
{
    let longer = entries.push(entry);
    assert forall|i: int, j: int| 0 <= i < j < longer.len() implies (#[trigger] longer[i]).key@ != (
    #[trigger] longer[j]).key@ by {
        if j == entries.len() {
            assert(entries[i].key@ != entry.key@);
        } else {
            assert(entries[i].key@ != entries[j].key@);
        }
    }
    assert forall|key: KeyView| has_key(longer, key) <==> (key == entry.key@ || has_key(
        entries,
        key,
    )) by {
        if has_key(longer, key) {
            let i = index_of(longer, key);
            if i < entries.len() {
                assert(entries[i].key@ == key);
            }
        }
        if has_key(entries, key) {
            let i = index_of(entries, key);
            assert(longer[i].key@ == key);
        }
        if key == entry.key@ {
            assert(longer[entries.len() as int].key@ == key);
        }
    }
    assert forall|key: KeyView| has_key(longer, key) implies slots_of(longer)[key] == slots_of(
        entries,
    ).insert(entry.key@, slot(entry))[key] by {
        if key == entry.key@ {
            lemma_index_of(longer, entries.len() as int);
        } else {
            let i = index_of(entries, key);
            assert(longer[i] == entries[i]);
            lemma_index_of(longer, i);
        }
    }
    assert(slots_of(longer) =~= slots_of(entries).insert(entry.key@, slot(entry)));
}

/// An entry put in the place of one with the same key replaces its slot.
proof fn lemma_slots_update<V>(entries: Seq<CacheEntry<V>>, at: int, entry: CacheEntry<V>)
    requires
        distinct_keys(entries),
        0 <= at < entries.len(),
        entry.key@ == entries[at].key@,
    ensures
        distinct_keys(entries.update(at, entry)),
        slots_of(entries.update(at, entry)) == slots_of(entries).insert(entry.key@, slot(entry)),
{
    let changed = entries.update(at, entry);
    assert forall|i: int, j: int| 0 <= i < j < changed.len() implies (#[trigger] changed[i]).key@ != (
    #[trigger] changed[j]).key@ by {
        assert(changed[i].key@ == entries[i].key@);
        assert(changed[j].key@ == entries[j].key@);
    }
    assert forall|key: KeyView| has_key(changed, key) <==> has_key(entries, key) by {
        if has_key(changed, key) {
            let i = index_of(changed, key);
            assert(entries[i].key@ == key);
        }
        if has_key(entries, key) {
            let i = index_of(entries, key);
            assert(changed[i].key@ == key);
        }
    }
    lemma_index_of(entries, at);
    assert forall|key: KeyView| has_key(changed, key) implies slots_of(changed)[key] == slots_of(
        entries,
    ).insert(entry.key@, slot(entry))[key] by {
        let i = index_of(entries, key);
        assert(changed[i].key@ == key);
        lemma_index_of(changed, i);
        lemma_index_of(entries, i);
    }
    assert(slots_of(changed) =~= slots_of(entries).insert(entry.key@, slot(entry)));
}

/// Taking an entry out takes its slot out.
proof fn lemma_slots_remove<V>(entries: Seq<CacheEntry<V>>, at: int)
    requires
        distinct_keys(entries),
        0 <= at < entries.len(),
    ensures
        distinct_keys(entries.remove(at)),
        slots_of(entries.remove(at)) == slots_of(entries).remove(entries[at].key@),
{
    let shorter = entries.remove(at);
    assert forall|i: int| 0 <= i < shorter.len() implies #[trigger] shorter[i] == entries[if i
        < at {
        i
    } else {
        i + 1
    }] by {}
    assert forall|i: int, j: int| 0 <= i < j < shorter.len() implies (#[trigger] shorter[i]).key@ != (
    #[trigger] shorter[j]).key@ by {
        let from_i = if i < at { i } else { i + 1 };
        let from_j = if j < at { j } else { j + 1 };
        assert(entries[from_i].key@ != entries[from_j].key@);
    }
    assert forall|key: KeyView| has_key(shorter, key) <==> (has_key(entries, key) && key
        != entries[at].key@) by {
        if has_key(shorter, key) {
            let i = index_of(shorter, key);
            let from = if i < at { i } else { i + 1 };
            assert(entries[from].key@ == key);
            if from < at {
                assert(entries[from].key@ != entries[at].key@);
            } else {
                assert(entries[at].key@ != entries[from].key@);
            }
        }
        if has_key(entries, key) && key != entries[at].key@ {
            let i = index_of(entries, key);
            let to = if i < at { i } else { i - 1 };
            assert(shorter[to].key@ == key);
        }
    }
    assert forall|key: KeyView| has_key(shorter, key) implies slots_of(shorter)[key] == slots_of(
        entries,
    ).remove(entries[at].key@)[key] by {
        let i = index_of(shorter, key);
        let from = if i < at { i } else { i + 1 };
        assert(shorter[i] == entries[from]);
        lemma_index_of(shorter, i);
        lemma_index_of(entries, from);
    }
    assert(slots_of(shorter) =~= slots_of(entries).remove(entries[at].key@));
}

/// A cache of reads, with values of type `V`.
#[derive(Debug)]
pub struct ResourceCache<V> {
    entries: Vec<CacheEntry<V>>,
    generation: u64,
    next_handle: u64,
}

impl<V> View for ResourceCache<V> {
    type V = CacheModel<V>;

    closed spec fn view(&self) -> CacheModel<V> {
        CacheModel {
            slots: slots_of(self.entries@),
            generation: self.generation as nat,
            next_handle: self.next_handle as nat,
        }
    }
}

impl<V> ResourceCache<V> {
    /// Each key has one entry at most.
    pub closed spec fn one_entry_per_key(&self) -> bool {
        distinct_keys(self.entries@)
    }

    /// The cache is in order: each key has one entry at most, no two fetches
    /// share a handle, and no entry is younger than the cache's generation.
    pub open spec fn wf(&self) -> bool {
        &&& self.one_entry_per_key()
        &&& self@.valid()
        &&& self@.generation <= u64::MAX
        &&& self@.next_handle <= u64::MAX
    }

    /// A cache without entries, in generation 0.
    pub fn new() -> (cache: ResourceCache<V>)
        ensures
            cache.wf(),
            cache@ == CacheModel::<V>::empty(),
    {
        let cache = ResourceCache { entries: Vec::new(), generation: 0, next_handle: 0 };
        assert(cache@.slots =~= Map::<KeyView, SlotView<V>>::empty());
        cache
    }

    /// The latest generation that the cache was told of.
    pub fn generation(&self) -> (generation: u64)
        ensures
            generation == self@.generation,
    {
        self.generation
    }

    /// Whether the cache has given out every handle that it can; it then
    /// takes no request for a key that it does not hold.
    pub fn is_exhausted(&self) -> (exhausted: bool)
        ensures
            exhausted == (self@.next_handle >= u64::MAX),
    {
        self.next_handle == u64::MAX
    }

    /// The place of the entry for `key`, if there is one.
    fn find_key(&self, key: &CacheKey) -> (place: Option<usize>)
        requires
            self.wf(),
        ensures
            match place {
                Some(at) => at < self.entries.len() && self.entries[at as int].key@ == key@,
                None => !has_key(self.entries@, key@),
            },
    {
        let mut at: usize = 0;
        while at < self.entries.len()
            invariant
                at <= self.entries.len(),
                forall|i: int| 0 <= i < at ==> (#[trigger] self.entries[i]).key@ != key@,
            decreases self.entries.len() - at,
        {
            if self.entries[at].key.same_as(key) {
                return Some(at);
            }
            at += 1;
        }
        None
    }

    /// The place of the entry whose fetch has this handle, if there is one.
    fn find_handle(&self, handle: FetchHandle) -> (place: Option<usize>)
        requires
            self.wf(),
        ensures
            match place {
                Some(at) => {
                    &&& at < self.entries.len()
                    &&& self.entries[at as int].handle@ == handle@
                    &&& self@.holds_handle(handle@)
                    &&& self@.key_of(handle@) == self.entries[at as int].key@
                    &&& self@.slot_of(handle@) == Some(slot(self.entries[at as int]))
                },
                None => !self@.holds_handle(handle@),
            },
    {
        let mut at: usize = 0;
        while at < self.entries.len()
            invariant
                self.wf(),
                at <= self.entries.len(),
                forall|i: int| 0 <= i < at ==> (#[trigger] self.entries[i]).handle@ != handle@,
            decreases self.entries.len() - at,
        {
            if self.entries[at].handle.0 == handle.0 {
                proof {
                    lemma_index_of(self.entries@, at as int);
                    crate::cache_model::lemma_key_of_handle(self@, self.entries[at as int].key@);
                }
                return Some(at);
            }
            at += 1;
        }
        proof {
            if self@.holds_handle(handle@) {
                let key = self@.key_of(handle@);
                assert(self@.slots.contains_key(key) && self@.slots[key].handle == handle@);
                let i = index_of(self.entries@, key);
                assert(self.entries[i].key@ == key);
                lemma_index_of(self.entries@, i);
            }
        }
        None
    }

    /// Asks for `key`. Where the cache holds a fetch for it, pending or
    /// answered, the handle of that fetch comes back and nothing is to be
    /// done. Where it holds none, a new handle comes back, and the caller
    /// issues the fetch and hands its answer to `complete`.
    pub fn get_or_create(&mut self, key: CacheKey) -> (lookup: Lookup)
        requires
            old(self).wf(),
            old(self)@.hit(key@) || old(self)@.next_handle < u64::MAX,
        ensures
            final(self).wf(),
            final(self)@ == old(self)@.requested(key@),
            lookup.handle@ == old(self)@.handle_for(key@),
            lookup.fetch == !old(self)@.hit(key@),
    {
        match self.find_key(&key) {
            Some(at) => {
                proof {
                    lemma_index_of(self.entries@, at as int);
                }
                Lookup { handle: self.entries[at].handle, fetch: false }
            },
            None => {
                let handle = FetchHandle(self.next_handle);
                let entry = CacheEntry {
                    key,
                    handle,
                    state: FetchState::Pending,
                    generation_at_creation: self.generation,
                };
                proof {
                    lemma_slots_push(self.entries@, entry);
                    crate::cache_model::lemma_operations_keep_valid(
                        self@,
                        key@,
                        0,
                        0,
                        Err(StoreError::NotFound),
                    );
                }
                self.entries.push(entry);
                self.next_handle = self.next_handle + 1;
                Lookup { handle, fetch: true }
            },
        }
    }

    /// Tells the cache that writes up to `generation` have landed. Where that
    /// is news, the cache drops what it holds, so that the next request for
    /// any key issues a fetch; where the cache knew already, nothing changes.
    pub fn invalidate_on(&mut self, generation: u64)
        requires
            old(self).wf(),
        ensures
            final(self).wf(),
            final(self)@ == old(self)@.invalidated(generation as nat),
    {
        if generation > self.generation {
            self.entries.clear();
            self.generation = generation;
            assert(self@.slots =~= old(self)@.invalidated(generation as nat).slots);
        }
    }

    /// Drops what the cache holds for `key`, if anything: the next request
    /// for it issues a fetch.
    pub fn forget(&mut self, key: &CacheKey)
        requires
            old(self).wf(),
        ensures
            final(self).wf(),
            final(self)@ == old(self)@.forgotten(key@),
    {
        match self.find_key(key) {
            Some(at) => {
                proof {
                    lemma_slots_remove(self.entries@, at as int);
                    crate::cache_model::lemma_operations_keep_valid(
                        self@,
                        key@,
                        0,
                        0,
                        Err(StoreError::NotFound),
                    );
                }
                let _ = self.entries.remove(at);
            },
            None => {
                assert(self@.slots =~= old(self)@.forgotten(key@).slots);
            },
        }
    }

    /// Takes the answer of the fetch `handle`. The answer of an awaited fetch
    /// settles it, as resolved or as failed, and `true` comes back. The
    /// answer of a fetch that was dropped meanwhile, or that has answered
    /// already, is let go, and `false` comes back.
    pub fn complete(&mut self, handle: FetchHandle, outcome: Result<V, StoreError>) -> (taken: bool)
        requires
            old(self).wf(),
        ensures
            final(self).wf(),
            taken == old(self)@.awaits(handle@),
            final(self)@ == old(self)@.completed(handle@, outcome),
    {
        match self.find_handle(handle) {
            Some(at) => {
                let pending = match &self.entries[at].state {
                    FetchState::Pending => true,
                    _ => false,
                };
                if pending {
                    let state = match outcome {
                        Ok(value) => FetchState::Resolved(value),
                        Err(error) => FetchState::Failed(error),
                    };
                    let ghost before = self.entries@;
                    let earlier = self.entries.remove(at);
                    let entry = CacheEntry {
                        key: earlier.key,
                        handle: earlier.handle,
                        state,
                        generation_at_creation: earlier.generation_at_creation,
                    };
                    proof {
                        lemma_slots_update(before, at as int, entry);
                        crate::cache_model::lemma_operations_keep_valid(
                            old(self)@,
                            entry.key@,
                            0,
                            handle@,
                            outcome,
                        );
                    }
                    self.entries.insert(at, entry);
                    assert(self.entries@ =~= before.update(at as int, entry));
                    true
                } else {
                    false
                }
            },
            None => false,
        }
    }

    /// How far the fetch `handle` has come, and its answer if it has one.
    /// Nothing comes back for a fetch that the cache has dropped.
    pub fn state(&self, handle: FetchHandle) -> (state: Option<&FetchState<V>>)
        requires
            self.wf(),
        ensures
            match state {
                Some(found) => self@.slot_of(handle@) matches Some(slot) && slot.state == *found,
                None => self@.slot_of(handle@) is None,
            },
    {
        match self.find_handle(handle) {
            Some(at) => Some(&self.entries[at].state),
            None => None,
        }
    }
}

} // verus!
