//! A memo of the single most recent computation.
//!
//! The cache holds at most one `(key, value)` pair. Asking for a key that
//! matches the stored one hands back a copy of the stored value without
//! recomputing; any other key recomputes, stores the new pair, and hands
//! the fresh value back. The day record uses this to avoid recomputing
//! its schedule while its requests are unchanged.
use vstd::pervasive::cloned;
use vstd::prelude::*;
use vstd::std_specs::cmp::PartialEqSpec;

verus! {

/// A single-entry memo cache from `K` to `V`.
pub struct SingletonCache<K, V> {
    entry: Option<(K, V)>,
}

impl<K, V> SingletonCache<K, V> {
    /// What the cache currently remembers.
    pub closed spec fn spec_entry(&self) -> Option<(K, V)> {
        self.entry
    }

    /// An empty cache.
    pub fn new() -> (r: Self)
        ensures
            r.spec_entry().is_none(),
    {
        SingletonCache { entry: None }
    }
}

impl<K, V> Default for SingletonCache<K, V> {
    /// An empty cache.
    fn default() -> (r: Self)
        ensures
            r.spec_entry().is_none(),
    {
        SingletonCache { entry: None }
    }
}

impl<K: PartialEq, V: Clone> SingletonCache<K, V> {
    /// Returns the remembered value when the stored key equals `key`;
    /// otherwise computes `f(&key)`, remembers `(key, value)`, and
    /// returns the value.
    ///
    /// The result is always either a copy of the previously stored value
    /// or an output of `f`; when the key type's equality obeys its
    /// specification, which of the two is decided exactly by whether the
    /// stored key equals `key`.
    pub fn get<F: Fn(&K) -> V>(&mut self, key: K, f: F) -> (r: V)
        requires
            call_requires(f, (&key,)),
        ensures
            (match old(self).spec_entry() {
                Some(p) => (cloned::<V>(p.1, r) && final(self).spec_entry() == old(
                    self,
                ).spec_entry()),
                None => false,
            }) || (call_ensures(f, (&key,), r) && (match final(self).spec_entry() {
                Some(q) => q.0 == key && cloned::<V>(r, q.1),
                None => false,
            })),
            K::obeys_eq_spec() ==> (match old(self).spec_entry() {
                Some(p) => if p.0.eq_spec(&key) {
                    cloned::<V>(p.1, r) && final(self).spec_entry() == old(self).spec_entry()
                } else {
                    call_ensures(f, (&key,), r) && (match final(self).spec_entry() {
                        Some(q) => q.0 == key && cloned::<V>(r, q.1),
                        None => false,
                    })
                },
                None => call_ensures(f, (&key,), r) && (match final(self).spec_entry() {
                    Some(q) => q.0 == key && cloned::<V>(r, q.1),
                    None => false,
                }),
            }),
    {
        match &self.entry {
            Some((k0, v0)) => {
                if *k0 == key {
                    return v0.clone();
                }
            },
            None => {},
        }
        let v = f(&key);
        let vc = v.clone();
        self.entry = Some((key, vc));
        v
    }
}

} // verus!
