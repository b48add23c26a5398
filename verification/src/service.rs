//! The service container: a process-wide registry mapping a stable service
//! identity (a `u64` key chosen by the service's author) to one registered
//! instance, together with the registration order used for deterministic
//! start/stop.
//!
//! The container is generic over the stored value `S`; an application wraps
//! its concrete services in one sum type and registers each variant under
//! its own key. Registering a key that is already present silently replaces
//! the lookup entry (last registration wins), while the ordered sequence
//! keeps both entries.

use vstd::prelude::*;

verus! {

/// Lifecycle hooks shared by every registered service. Both hooks default
/// to no-ops; a service overrides the ones it needs.
pub trait ServiceApi {
    fn start(&self) {
    }

    fn stop(&self) {
    }
}

/// Two-phase construction: an initializer receives the container, may
/// resolve its dependencies from it and may register auxiliary entries
/// (such as restricted facades), and hands back the key and instance to register.
/// An initializer only ever extends the registry; it never removes or
/// reorders existing entries.
pub trait ServiceInitializer<S>: Sized {
    fn initialize(context: &mut Context<S>) -> (r: (u64, S))
        ensures
            old(context).entries_seq().is_prefix_of(final(context).entries_seq()),
    ;
}

/// One registry entry: a service instance together with the key it was
/// registered under. A lookup hands out a reference to the entry, so a
/// handle obtained twice for the same key denotes the same entry.
pub struct Service<S> {
    pub key: u64,
    pub instance: S,
}

/// The error returned when a key was never registered: resolving an
/// unregistered service is a structural failure, not a recoverable value.
#[derive(Debug, PartialEq, Eq, Structural, Clone, Copy)]
pub enum ServiceError {
    NotRegistered,
}

/// The position of the last occurrence of `key` in `s`, or `-1` if absent.
/// The last occurrence is the one a lookup resolves to, because a repeated
/// registration replaces the earlier lookup entry.
pub open spec fn seq_last_index_of(s: Seq<u64>, key: u64) -> int
    decreases s.len(),
{
    if s.len() == 0 {
        -1
    } else if s[s.len() - 1] == key {
        s.len() - 1
    } else {
        seq_last_index_of(s.drop_last(), key)
    }
}

/// How many times `key` occurs in `s`.
pub open spec fn key_count(s: Seq<u64>, key: u64) -> nat
    decreases s.len(),
{
    if s.len() == 0 {
        0
    } else if s[s.len() - 1] == key {
        key_count(s.drop_last(), key) + 1
    } else {
        key_count(s.drop_last(), key)
    }
}

proof fn lemma_last_index_of_props(s: Seq<u64>, key: u64)
    ensures
        s.contains(key) ==> {
            let i = seq_last_index_of(s, key);
            &&& 0 <= i < s.len()
            &&& s[i] == key
            &&& forall|j: int| i < j < s.len() ==> s[j] != key
        },
        !s.contains(key) ==> seq_last_index_of(s, key) == -1,
    decreases s.len(),
{
    if s.len() > 0 {
        lemma_last_index_of_props(s.drop_last(), key);
        if s[s.len() - 1] == key {
            assert(s.contains(key));
        } else {
            if s.contains(key) {
                let w = choose|w: int| 0 <= w < s.len() && s[w] == key;
                assert(w < s.len() - 1);
                assert(s.drop_last()[w] == key);
                assert(s.drop_last().contains(key));
                let i = seq_last_index_of(s.drop_last(), key);
                assert(s[i] == s.drop_last()[i]);
                assert forall|j: int| i < j < s.len() implies s[j] != key by {
                    if j < s.len() - 1 {
                        assert(s.drop_last()[j] == s[j]);
                    }
                }
            } else {
                if s.drop_last().contains(key) {
                    let w = choose|w: int|
                        0 <= w < s.drop_last().len() && s.drop_last()[w] == key;
                    assert(s[w] == key);
                    assert(s.contains(key));
                }
            }
        }
    }
}

proof fn lemma_key_count_one_unique(s: Seq<u64>, key: u64, i: int)
    requires
        key_count(s, key) == 1,
        0 <= i < s.len(),
        s[i] == key,
    ensures
        seq_last_index_of(s, key) == i,
    decreases s.len(),
{
    if s.len() > 0 {
        if s[s.len() - 1] == key {
            assert(key_count(s.drop_last(), key) == 0);
            if i < s.len() - 1 {
                lemma_key_count_zero_absent(s.drop_last(), key);
                assert(s.drop_last()[i] == key);
            }
        } else {
            assert(i < s.len() - 1);
            assert(s.drop_last()[i] == key);
            lemma_key_count_one_unique(s.drop_last(), key, i);
        }
    }
}

proof fn lemma_key_count_zero_absent(s: Seq<u64>, key: u64)
    requires
        key_count(s, key) == 0,
    ensures
        forall|j: int| 0 <= j < s.len() ==> s[j] != key,
    decreases s.len(),
{
    if s.len() > 0 {
        lemma_key_count_zero_absent(s.drop_last(), key);
        assert forall|j: int| 0 <= j < s.len() implies s[j] != key by {
            if j < s.len() - 1 {
                assert(s.drop_last()[j] == s[j]);
            }
        }
    }
}

/// The service container. Entries are kept in registration order; `start`
/// walks them forward, `stop` walks them backward, and a lookup resolves a
/// key to its most recent registration.
pub struct Context<S> {
    entries: Vec<Service<S>>,
}

impl<S> Context<S> {
    /// The registered entries, in registration order.
    pub closed spec fn entries_seq(&self) -> Seq<Service<S>> {
        self.entries@
    }

    /// The registered keys, in registration order.
    pub open spec fn keys(&self) -> Seq<u64> {
        Seq::new(self.entries_seq().len(), |i: int| self.entries_seq()[i].key)
    }

    /// Whether some entry was registered under `key`.
    pub open spec fn is_registered(&self, key: u64) -> bool {
        self.keys().contains(key)
    }

    /// The entry a lookup for `key` resolves to: the most recent one.
    pub open spec fn lookup(&self, key: u64) -> Service<S> {
        self.entries_seq()[seq_last_index_of(self.keys(), key)]
    }

    pub fn new() -> (r: Context<S>)
        ensures
            r.entries_seq() == Seq::<Service<S>>::empty(),
    {
        Context { entries: Vec::new() }
    }

    fn add_service_internal(&mut self, key: u64, instance: S)
        ensures
            final(self).entries_seq() == old(self).entries_seq().push(
                (Service { key, instance }),
            ),
    {
        self.entries.push(Service { key, instance });
    }

    /// Registers `instance` under `key`, appending it to the ordered
    /// sequence. Registering a key twice replaces the lookup entry while
    /// the ordered sequence keeps both registrations.
    pub fn add_service(&mut self, key: u64, instance: S)
        ensures
            final(self).entries_seq() == old(self).entries_seq().push(
                (Service { key, instance }),
            ),
    {
        self.add_service_internal(key, instance);
    }

    /// Runs `T`'s two-phase constructor against this container, then
    /// registers what it returned. Whatever the constructor registered on
    /// its own stays, and the new entry comes after it.
    pub fn init_service<T: ServiceInitializer<S>>(&mut self)
        ensures
            old(self).entries_seq().is_prefix_of(final(self).entries_seq()),
            final(self).entries_seq().len() > old(self).entries_seq().len(),
    {
        let ghost initial = self.entries_seq();
        let (key, instance) = T::initialize(self);
        let ghost mid = self.entries_seq();
        self.add_service_internal(key, instance);
        proof {
            assert(initial.is_prefix_of(mid));
            assert(mid.is_prefix_of(mid.push(Service { key, instance }))) by {
                assert(mid =~= mid.push(Service { key, instance }).subrange(0, mid.len() as int));
            }
            assert(initial =~= self.entries_seq().subrange(0, initial.len() as int)) by {
                assert(forall|j: int|
                    0 <= j < initial.len() ==> initial[j] == #[trigger] self.entries_seq()[j]);
            }
        }
    }

    /// Resolves `key` to the entry it was most recently registered under.
    /// Returns an error exactly when the key was never registered.
    pub fn get_service(&self, key: u64) -> (r: Result<&Service<S>, ServiceError>)
        ensures
            match r {
                Ok(entry) => self.is_registered(key) && *entry == self.lookup(key),
                Err(e) => !self.is_registered(key) && e == ServiceError::NotRegistered,
            },
    {
        let ghost ks = self.keys();
        let mut i: usize = self.entries.len();
        while i > 0
            invariant
                i <= self.entries.len(),
                ks == self.keys(),
                forall|j: int| i <= j < ks.len() ==> ks[j] != key,
            decreases i,
        {
            i = i - 1;
            if self.entries[i].key == key {
                proof {
                    assert(ks[i as int] == key);
                    assert(ks.contains(key));
                    lemma_last_index_of_unique_position(ks, key, i as int);
                }
                return Ok(&self.entries[i]);
            }
        }
        proof {
            assert(forall|j: int| 0 <= j < ks.len() ==> ks[j] != key);
            if ks.contains(key) {
                let w = choose|w: int| 0 <= w < ks.len() && ks[w] == key;
                assert(ks[w] != key);
            }
        }
        Err(ServiceError::NotRegistered)
    }
}

proof fn lemma_last_index_of_unique_position(s: Seq<u64>, key: u64, i: int)
    requires
        0 <= i < s.len(),
        s[i] == key,
        forall|j: int| i < j < s.len() ==> s[j] != key,
    ensures
        seq_last_index_of(s, key) == i,
    decreases s.len(),
{
    if s[s.len() - 1] == key {
        assert(i == s.len() - 1);
    } else {
        assert(s.drop_last()[i] == key);
        lemma_last_index_of_unique_position(s.drop_last(), key, i);
    }
}

impl<S: ServiceApi> Context<S> {
    /// Invokes every entry's start hook in registration order and returns
    /// the keys in the order the hooks were invoked.
    pub fn start(&self) -> (order: Vec<u64>)
        ensures
            order@ == self.keys(),
    {
        let mut order: Vec<u64> = Vec::new();
        let mut i: usize = 0;
        while i < self.entries.len()
            invariant
                i <= self.entries.len(),
                order@ =~= self.keys().take(i as int),
            decreases self.entries.len() - i,
        {
            self.entries[i].instance.start();
            order.push(self.entries[i].key);
            i = i + 1;
        }
        proof {
            assert(order@ =~= self.keys());
        }
        order
    }

    /// Invokes every entry's stop hook in reverse registration order and
    /// returns the keys in the order the hooks were invoked.
    pub fn stop(&self) -> (order: Vec<u64>)
        ensures
            order@ == self.keys().reverse(),
    {
        let mut order: Vec<u64> = Vec::new();
        let mut i: usize = self.entries.len();
        while i > 0
            invariant
                i <= self.entries.len(),
                order@ =~= self.keys().reverse().take((self.entries_seq().len() - i) as int),
            decreases i,
        {
            i = i - 1;
            self.entries[i].instance.stop();
            order.push(self.entries[i].key);
            proof {
                assert(self.keys().reverse()[self.entries_seq().len() - 1 - i]
                    == self.keys()[i as int]);
            }
        }
        proof {
            assert(order@ =~= self.keys().reverse());
        }
        order
    }
}

/// Registry uniqueness: a key registered exactly once resolves to that one
/// entry, so a handle's identity is stable across repeated lookups.
pub proof fn lemma_registered_once_stable<S>(c: Context<S>, key: u64, i: int)
    requires
        0 <= i < c.entries_seq().len(),
        c.entries_seq()[i].key == key,
        key_count(c.keys(), key) == 1,
    ensures
        c.is_registered(key),
        c.lookup(key) == c.entries_seq()[i],
{
    assert(c.keys()[i] == key);
    lemma_key_count_one_unique(c.keys(), key, i);
}

/// Start/stop ordering: for N registrations, the stop order is the exact
/// reverse of the start order — the hook started at position `i` is stopped
/// at position `N - 1 - i`.
pub proof fn lemma_stop_order_reverses_start<S>(c: Context<S>, i: int)
    requires
        0 <= i < c.keys().len(),
    ensures
        c.keys().reverse()[c.keys().len() - 1 - i] == c.keys()[i],
{
}

} // verus!
