//! Lazy references to remote entities, and the registry entry that owns the
//! object cache of one entity type.

use crate::cache::{holds, place_of, touched, ObjectMap};
use std::marker::PhantomData;
use std::sync::Arc;
use vstd::prelude::*;
use vstd::std_specs::cmp::PartialEqSpec;

verus! {

/// The number of entities that the object cache of one entity type holds.
pub const CACHE_CAPACITY: usize = 64;

/// What makes a type a cacheable remote entity: a key that selects the
/// type's own cache, and an identifier on each instance.
pub trait PZObject: Clone + Send + Sync {
    const QUERY_PATH: &'static str;

    fn id(&self) -> i32;
}

/// The registry entry of one entity type: its object cache, made on first
/// request and kept from then on.
pub struct Registry<T> {
    slot: Option<ObjectMap<T>>,
}

impl<T> Registry<T> {
    /// The cache of this entry, if it was made yet.
    pub closed spec fn cache(&self) -> Option<ObjectMap<T>> {
        self.slot
    }

    /// The cache, once it was made, is well formed and has room for
    /// `CACHE_CAPACITY` entities.
    pub open spec fn wf(&self) -> bool {
        self.cache() is Some ==> self.cache()->0.wf() && self.cache()->0.capacity()
            == CACHE_CAPACITY
    }

    /// The cached entities, most recently used first; none before the cache
    /// was made.
    pub open spec fn entries(&self) -> Seq<(i32, Arc<T>)> {
        match self.cache() {
            Some(c) => c@,
            None => Seq::empty(),
        }
    }

    /// An entry whose cache is still to be made.
    pub fn new() -> (r: Self)
        ensures
            r.wf(),
            r.cache() is None,
    {
        Registry { slot: None }
    }
}

/// Hands out the object cache of the entry, making it with room for
/// `CACHE_CAPACITY` entities on the first request. A cache that exists is
/// handed out as it is; what the caller does to it is what the entry holds
/// afterwards.
pub fn obtain_map_cache<T: PZObject>(registry: &mut Registry<T>) -> (cache: &mut ObjectMap<T>)
    requires
        old(registry).wf(),
    ensures
        cache.wf(),
        cache.capacity() == CACHE_CAPACITY,
        old(registry).cache() is Some ==> *cache == old(registry).cache()->0,
        old(registry).cache() is None ==> cache@ == Seq::<(i32, Arc<T>)>::empty(),
        cache@ == old(registry).entries(),
        final(registry).cache() == Some(*final(cache)),
{
    if registry.slot.is_none() {
        registry.slot = Some(ObjectMap::new(CACHE_CAPACITY));
    }
    registry.slot.as_mut().unwrap()
}

/// What resolving a reference against the cache asks of the caller.
pub enum Resolution<T> {
    /// The entity was cached: this is it, and nothing is to be fetched.
    Cached(Arc<T>),
    /// The entity is not cached: the one with this identifier is to be
    /// fetched from the remote side.
    Fetch(i32),
}

/// A lazy reference to a remote entity of type `T`: its identifier, nothing
/// more.
#[derive(Debug)]
pub struct Ptr<T> {
    id: i32,
    _marker: PhantomData<T>,
}

impl<T> View for Ptr<T> {
    type V = i32;

    /// The identifier that the reference stands for.
    closed spec fn view(&self) -> i32 {
        self.id
    }
}

impl<T: PZObject> Clone for Ptr<T> {
    /// A copy of the identifier.
    fn clone(&self) -> (r: Self)
        ensures
            r@ == self@,
    {
        Self::new(self.id)
    }
}

impl<T: PZObject> PartialEq for Ptr<T> {
    fn eq(&self, other: &Self) -> (r: bool) {
        self.id == other.id
    }
}

impl<T: PZObject> Eq for Ptr<T> {}

impl<T: PZObject> vstd::std_specs::cmp::PartialEqSpecImpl for Ptr<T> {
    open spec fn obeys_eq_spec() -> bool {
        true
    }

    open spec fn eq_spec(&self, other: &Self) -> bool {
        self@ == other@
    }
}

impl<T: PZObject> From<i32> for Ptr<T> {
    fn from(value: i32) -> (r: Self) {
        Self::new(value)
    }
}

impl<T: PZObject> vstd::std_specs::convert::FromSpecImpl<i32> for Ptr<T> {
    open spec fn obeys_from_spec() -> bool {
        true
    }

    open spec fn from_spec(value: i32) -> Self {
        Self::of(value)
    }
}

impl<T: PZObject> Ptr<T> {
    /// The reference that stands for identifier `id`.
    pub closed spec fn of(id: i32) -> Self {
        Ptr { id, _marker: PhantomData }
    }

    /// The reference to the entity with identifier `id`.
    pub fn new(id: i32) -> (r: Self)
        ensures
            r == Self::of(id),
            r@ == id,
    {
        Self { id, _marker: PhantomData }
    }

    /// The identifier, which is all that is written out for a reference.
    pub fn id(&self) -> (r: i32)
        ensures
            r == self@,
    {
        self.id
    }

    /// Resolves the reference against the cache of its type, making that
    /// cache on first use. A cached entity is handed out and becomes the most
    /// recently used; otherwise the cache stays as it is and the caller is
    /// told to fetch the entity.
    pub fn load(&self, registry: &mut Registry<T>) -> (r: Resolution<T>)
        requires
            old(registry).wf(),
        ensures
            final(registry).wf(),
            final(registry).cache() is Some,
            holds(old(registry).entries(), self@) ==> r == Resolution::Cached(
                old(registry).entries()[place_of(old(registry).entries(), self@)].1,
            ) && final(registry).entries() == touched(
                old(registry).entries(),
                place_of(old(registry).entries(), self@),
            ),
            !holds(old(registry).entries(), self@) ==> r == Resolution::<T>::Fetch(self@)
                && final(registry).entries() == old(registry).entries(),
    {
        let cache = obtain_map_cache(registry);
        match cache.get(self.id) {
            Some(value) => Resolution::Cached(value),
            None => Resolution::Fetch(self.id),
        }
    }
}

/// A reference is its identifier: the reference made from `id` stands for
/// `id`, and two references are equal exactly when they stand for the same
/// identifier.
pub proof fn lemma_ptr_is_its_id<T: PZObject>(a: Ptr<T>, b: Ptr<T>, id: i32)
    ensures
        Ptr::<T>::of(id)@ == id,
        a.eq_spec(&b) <==> a@ == b@,
        a@ == b@ <==> a == b,
        a == Ptr::<T>::of(a@),
{
}

} // verus!
