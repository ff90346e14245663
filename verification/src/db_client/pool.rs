//! One shared client handle per endpoint, made on first use and kept.

use crate::model::Endpoint;
use dashmap::DashMap;
use std::sync::Arc;
use vstd::prelude::*;

verus! {

/// dashmap's concurrent hash map. Nothing inside it is visible here; what it
/// holds is known only through `slot_map`.
#[verifier::external_type_specification]
#[verifier::external_body]
#[verifier::reject_recursive_types(K)]
#[verifier::reject_recursive_types(V)]
#[verifier::reject_recursive_types(S)]
pub struct ExDashMap<K, V, S>(DashMap<K, V, S>);

/// A map from endpoint addresses to positions in the list of handles.
pub type SlotMap = Map<Seq<char>, usize>;

/// The entries of a `DashMap` from addresses to positions: each key by its
/// characters, with the value stored under it.
pub uninterp spec fn slot_map(slots: DashMap<String, usize>) -> SlotMap;

/// `DashMap::new`: a map without entries.
#[verifier::external_body]
fn slots_new() -> (slots: DashMap<String, usize>)
    ensures
        slot_map(slots) == SlotMap::empty(),
{
    DashMap::new()
}

/// `DashMap::get`, read through `Ref::value`: the value stored under `key`,
/// or nothing where the map has no such key.
#[verifier::external_body]
fn slot_of(slots: &DashMap<String, usize>, key: &str) -> (slot: Option<usize>)
    ensures
        slot_map(*slots).contains_key(key@) ==> slot == Some(slot_map(*slots)[key@]),
        !slot_map(*slots).contains_key(key@) ==> slot is None,
{
    slots.get(key).map(|entry| *entry.value())
}

/// `DashMap::entry` followed by `Entry::or_insert`: an occupied entry is left
/// as it is and its value comes back; a vacant one is filled with `slot`,
/// which comes back. No other entry changes.
#[verifier::external_body]
fn slot_or_insert(slots: &mut DashMap<String, usize>, key: String, slot: usize) -> (kept: usize)
    ensures
        slot_map(*old(slots)).contains_key(key@) ==> slot_map(*final(slots)) == slot_map(
            *old(slots),
        ) && kept == slot_map(*old(slots))[key@],
        !slot_map(*old(slots)).contains_key(key@) ==> slot_map(*final(slots)) == slot_map(
            *old(slots),
        ).insert(key@, slot) && kept == slot,
{
    *slots.entry(key).or_insert(slot)
}

/// `Arc::clone`: one more owner of the same value.
#[verifier::external_body]
fn share<T>(handle: &Arc<T>) -> (shared: Arc<T>)
    ensures
        shared == *handle,
{
    Arc::clone(handle)
}

/// Client handles by endpoint. A handle is built by the pool's builder when
/// its endpoint is first asked for, and stays for as long as the pool lives.
///
/// The view of a pool maps the address of each endpoint that has a handle to
/// the client behind that handle.
#[verifier::reject_recursive_types(C)]
pub struct StandalonePool<C, B: Fn(String) -> C> {
    slots: DashMap<String, usize>,
    clients: Vec<Arc<C>>,
    standalone_builder: B,
}

impl<C, B: Fn(String) -> C> StandalonePool<C, B> {
    /// Every address leads to a handle that exists, and the builder accepts
    /// any address.
    pub closed spec fn wf(&self) -> bool {
        &&& forall|k: Seq<char>| #[trigger]
            slot_map(self.slots).contains_key(k) ==> slot_map(self.slots)[k] < self.clients@.len()
        &&& forall|addr: String| self.standalone_builder.requires((addr,))
    }

    pub closed spec fn view(&self) -> Map<Seq<char>, C> {
        Map::new(
            |k: Seq<char>| slot_map(self.slots).contains_key(k),
            |k: Seq<char>| *self.clients@[slot_map(self.slots)[k] as int],
        )
    }

    /// The builder that makes the pool's clients.
    pub closed spec fn builder(&self) -> B {
        self.standalone_builder
    }

    /// Whether `client` is what `builder` may return for the address `addr`.
    pub open spec fn built_for(builder: B, addr: Seq<char>, client: C) -> bool {
        exists|text: String| text@ == addr && builder.ensures((text,), client)
    }

    /// An empty pool around a builder that can be called with any address.
    pub fn new(standalone_builder: B) -> (pool: Self)
        requires
            forall|addr: String| standalone_builder.requires((addr,)),
        ensures
            pool.wf(),
            pool@ == Map::<Seq<char>, C>::empty(),
            pool.builder() == standalone_builder,
    {
        let pool = StandalonePool { slots: slots_new(), clients: Vec::new(), standalone_builder };
        assert(pool@ =~= Map::<Seq<char>, C>::empty());
        pool
    }

    /// The handle for `endpoint`: the one kept in the pool where there is one,
    /// else a new one from the builder, which the pool keeps from now on.
    ///
    /// Either way the pool afterwards holds the returned handle for this
    /// endpoint, and every handle it held before is still there: nothing is
    /// ever removed or replaced.
    pub fn get_or_create(&mut self, endpoint: &Endpoint) -> (handle: Arc<C>)
        requires
            old(self).wf(),
        ensures
            final(self).wf(),
            final(self).builder() == old(self).builder(),
            final(self)@.contains_key(endpoint@) && final(self)@[endpoint@] == *handle,
            old(self)@.submap_of(final(self)@),
            old(self)@.contains_key(endpoint@) ==> final(self)@ == old(self)@,
            !old(self)@.contains_key(endpoint@) ==> final(self)@ == old(self)@.insert(
                endpoint@,
                *handle,
            ) && Self::built_for(old(self).builder(), endpoint@, *handle),
    {
        match slot_of(&self.slots, endpoint.as_str()) {
            Some(at) => {
                share(&self.clients[at])
            },
            None => {
                let client = Arc::new((self.standalone_builder)(endpoint.addr.clone()));
                let fresh = self.clients.len();
                let at = slot_or_insert(&mut self.slots, endpoint.addr.clone(), fresh);
                self.clients.push(client);
                assert(self@ =~= old(self)@.insert(endpoint@, *self.clients@[at as int]));
                share(&self.clients[at])
            },
        }
    }
}

} // verus!
