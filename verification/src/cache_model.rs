//! The mathematical model of the read cache: for each key at most one slot,
//! which stands for one fetch and what came of it. The contracts of the cache
//! are stated over this model, and the laws below are proved of it.

use vstd::prelude::*;
use crate::error::StoreError;

verus! {

/// What a read asks for, as a plain value.
pub enum KeyView {
    /// The record of one person.
    Person(nat),
    /// The result of a search.
    Search(Seq<char>),
}

/// How far a fetch has come. A key without a slot has not been asked for.
#[derive(Debug)]
pub enum FetchState<V> {
    /// The fetch was issued and has not answered yet.
    Pending,
    /// The fetch answered with this value.
    Resolved(V),
    /// The fetch failed. It is not tried again before the cache is told of a
    /// later generation.
    Failed(StoreError),
}

/// The state in which an answer leaves a pending fetch.
pub open spec fn settled<V>(outcome: Result<V, StoreError>) -> FetchState<V> {
    match outcome {
        Ok(value) => FetchState::Resolved(value),
        Err(error) => FetchState::Failed(error),
    }
}

/// A slot of the cache as a plain value.
pub struct SlotView<V> {
    /// The handle under which the fetch of this slot is known.
    pub handle: nat,
    /// How far the fetch has come.
    pub state: FetchState<V>,
    /// The generation in which the slot was made.
    pub created_at: nat,
}

/// A cache as a plain value.
#[verifier::ext_equal]
pub struct CacheModel<V> {
    /// The slot of each key that was asked for and not dropped since.
    pub slots: Map<KeyView, SlotView<V>>,
    /// The latest generation that the cache was told of.
    pub generation: nat,
    /// The handle that the next fetch gets.
    pub next_handle: nat,
}

impl<V> CacheModel<V> {
    /// No two slots share a handle, every handle in use was issued before
    /// `next_handle`, and no slot is younger than the cache's generation.
    pub open spec fn valid(self) -> bool {
        &&& forall|key: KeyView| #[trigger]
            self.slots.contains_key(key) ==> self.slots[key].handle < self.next_handle
                && self.slots[key].created_at <= self.generation
        &&& forall|a: KeyView, b: KeyView|
            #![trigger self.slots[a], self.slots[b]]
            self.slots.contains_key(a) && self.slots.contains_key(b) && a != b
                ==> self.slots[a].handle != self.slots[b].handle
    }

    /// The cache without slots, in generation 0.
    pub open spec fn empty() -> CacheModel<V> {
        CacheModel { slots: Map::empty(), generation: 0, next_handle: 0 }
    }

    /// The cache has a slot for `key`: a request for it issues no fetch.
    pub open spec fn hit(self, key: KeyView) -> bool {
        self.slots.contains_key(key)
    }

    /// The handle that a request for `key` returns: that of the key's slot,
    /// or, where it has none, the next handle.
    pub open spec fn handle_for(self, key: KeyView) -> nat {
        if self.hit(key) {
            self.slots[key].handle
        } else {
            self.next_handle
        }
    }

    /// The cache after a request for `key`: as before where the key has a
    /// slot, and else with a new slot for it, pending, of this generation.
    pub open spec fn requested(self, key: KeyView) -> CacheModel<V> {
        if self.hit(key) {
            self
        } else {
            CacheModel {
                slots: self.slots.insert(
                    key,
                    SlotView {
                        handle: self.next_handle,
                        state: FetchState::Pending,
                        created_at: self.generation,
                    },
                ),
                generation: self.generation,
                next_handle: self.next_handle + 1,
            }
        }
    }

    /// The cache after it was told of `generation`: where that is later than
    /// its own, every slot made before it is dropped; else nothing changes.
    pub open spec fn invalidated(self, generation: nat) -> CacheModel<V> {
        if generation > self.generation {
            CacheModel {
                slots: Map::new(
                    |key: KeyView|
                        self.slots.contains_key(key) && self.slots[key].created_at >= generation,
                    |key: KeyView| self.slots[key],
                ),
                generation,
                next_handle: self.next_handle,
            }
        } else {
            self
        }
    }

    /// The cache without the slot of `key`.
    pub open spec fn forgotten(self, key: KeyView) -> CacheModel<V> {
        CacheModel {
            slots: self.slots.remove(key),
            generation: self.generation,
            next_handle: self.next_handle,
        }
    }

    /// Some slot has this handle.
    pub open spec fn holds_handle(self, handle: nat) -> bool {
        exists|key: KeyView| #[trigger] self.slots.contains_key(key) && self.slots[key].handle == handle
    }

    /// The key whose slot has this handle.
    pub open spec fn key_of(self, handle: nat) -> KeyView {
        choose|key: KeyView| #[trigger] self.slots.contains_key(key) && self.slots[key].handle == handle
    }

    /// The slot with this handle, if the cache has one.
    pub open spec fn slot_of(self, handle: nat) -> Option<SlotView<V>> {
        if self.holds_handle(handle) {
            Some(self.slots[self.key_of(handle)])
        } else {
            None
        }
    }

    /// The fetch with this handle is awaited: it has a slot, and the slot is
    /// pending.
    pub open spec fn awaits(self, handle: nat) -> bool {
        self.holds_handle(handle) && self.slots[self.key_of(handle)].state is Pending
    }

    /// The cache after the fetch `handle` answered with `outcome`. Only an
    /// awaited fetch is settled; the answer of any other changes nothing.
    pub open spec fn completed(self, handle: nat, outcome: Result<V, StoreError>) -> CacheModel<V> {
        if self.awaits(handle) {
            let key = self.key_of(handle);
            CacheModel {
                slots: self.slots.insert(
                    key,
                    SlotView {
                        handle,
                        state: settled(outcome),
                        created_at: self.slots[key].created_at,
                    },
                ),
                generation: self.generation,
                next_handle: self.next_handle,
            }
        } else {
            self
        }
    }
}

/// In a valid cache a handle belongs to one key only.
pub proof fn lemma_key_of_handle<V>(cache: CacheModel<V>, key: KeyView)
    requires
        cache.valid(),
        cache.slots.contains_key(key),
    ensures
        cache.holds_handle(cache.slots[key].handle),
        cache.key_of(cache.slots[key].handle) == key,
        cache.slot_of(cache.slots[key].handle) == Some(cache.slots[key]),
{
    let handle = cache.slots[key].handle;
    let found = cache.key_of(handle);
    assert(cache.slots.contains_key(found) && cache.slots[found].handle == handle);
    if found != key {
        assert(cache.slots[found].handle != cache.slots[key].handle);
    }
}

/// Every operation keeps a valid cache valid.
pub proof fn lemma_operations_keep_valid<V>(
    cache: CacheModel<V>,
    key: KeyView,
    generation: nat,
    handle: nat,
    outcome: Result<V, StoreError>,
)
    requires
        cache.valid(),
    ensures
        cache.requested(key).valid(),
        cache.invalidated(generation).valid(),
        cache.forgotten(key).valid(),
        cache.completed(handle, outcome).valid(),
{
    if cache.awaits(handle) {
        let owner = cache.key_of(handle);
        assert(cache.slots.contains_key(owner) && cache.slots[owner].handle == handle);
    }
}

/// Single flight: of two requests for one key, with requests for any other
/// key between them, the second issues no fetch and returns the handle that
/// the first returned. So both stand for one fetch.
pub proof fn lemma_second_request_shares_fetch<V>(cache: CacheModel<V>, key: KeyView, other: KeyView)
    ensures
        cache.requested(key).hit(key),
        cache.requested(key).handle_for(key) == cache.handle_for(key),
        cache.requested(key).requested(key) == cache.requested(key),
        cache.requested(key).requested(other).hit(key),
        cache.requested(key).requested(other).handle_for(key) == cache.handle_for(key),
{
}

/// The answer of a fetch does not end the sharing: after it, a request for
/// the key still issues no fetch and still returns the same handle, under
/// which the answer is found.
pub proof fn lemma_request_after_answer<V>(
    cache: CacheModel<V>,
    key: KeyView,
    outcome: Result<V, StoreError>,
)
    requires
        cache.valid(),
        !cache.hit(key),
    ensures
        ({
            let handle = cache.handle_for(key);
            let answered = cache.requested(key).completed(handle, outcome);
            &&& cache.requested(key).awaits(handle)
            &&& answered.hit(key)
            &&& answered.handle_for(key) == handle
            &&& answered.slot_of(handle) matches Some(slot) && slot.state == settled(outcome)
            &&& !answered.awaits(handle)
        }),
{
    let handle = cache.handle_for(key);
    let asked = cache.requested(key);
    lemma_operations_keep_valid(cache, key, 0, handle, outcome);
    lemma_key_of_handle(asked, key);
    let answered = asked.completed(handle, outcome);
    lemma_operations_keep_valid(asked, key, 0, handle, outcome);
    lemma_key_of_handle(answered, key);
}

/// After the cache was told of a later generation it holds nothing from
/// before: a request for any key issues a new fetch, under a handle that no
/// earlier fetch had, and the late answer of an earlier fetch changes nothing.
pub proof fn lemma_request_after_invalidation_fetches<V>(
    cache: CacheModel<V>,
    generation: nat,
    key: KeyView,
    earlier: nat,
    outcome: Result<V, StoreError>,
)
    requires
        cache.valid(),
        generation > cache.generation,
        earlier < cache.next_handle,
    ensures
        cache.invalidated(generation).slots == Map::<KeyView, SlotView<V>>::empty(),
        !cache.invalidated(generation).hit(key),
        cache.invalidated(generation).handle_for(key) == cache.next_handle,
        cache.invalidated(generation).handle_for(key) != earlier,
        cache.invalidated(generation).requested(key).completed(earlier, outcome)
            == cache.invalidated(generation).requested(key),
{
    let fresh = cache.invalidated(generation);
    assert(fresh.slots =~= Map::<KeyView, SlotView<V>>::empty());
    let asked = fresh.requested(key);
    if asked.holds_handle(earlier) {
        let owner = asked.key_of(earlier);
        assert(asked.slots.contains_key(owner) && asked.slots[owner].handle == earlier);
    }
}

/// A fetch that has answered stays as it is: a second answer under the same
/// handle changes nothing.
pub proof fn lemma_answer_is_final<V>(
    cache: CacheModel<V>,
    handle: nat,
    first: Result<V, StoreError>,
    second: Result<V, StoreError>,
)
    requires
        cache.valid(),
    ensures
        cache.completed(handle, first).completed(handle, second) == cache.completed(handle, first),
{
    if cache.awaits(handle) {
        let key = cache.key_of(handle);
        assert(cache.slots.contains_key(key) && cache.slots[key].handle == handle);
        let answered = cache.completed(handle, first);
        lemma_operations_keep_valid(cache, key, 0, handle, first);
        lemma_key_of_handle(answered, key);
    }
}

} // verus!
