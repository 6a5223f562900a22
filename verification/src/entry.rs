//! The per-entry time-to-live envelope around a stored value.
//!
//! An entry pairs a value with an optional absolute expiry instant in
//! seconds since the epoch.  The store itself never looks at the clock:
//! callers pass the current time in, and the entry decides.

use vstd::prelude::*;

verus! {

/// A value and the instant it stops being visible, if any.
pub struct Entry<V> {
    data: V,
    expires_at: Option<u64>,
}

impl<V> Entry<V> {
    /// The wrapped value.
    pub closed spec fn spec_data(self) -> V {
        self.data
    }

    /// The absolute expiry instant, in seconds since the epoch.
    pub closed spec fn spec_expires_at(self) -> Option<u64> {
        self.expires_at
    }

    /// Whether the entry is past its expiry at a given instant.
    pub open spec fn spec_expired(self, now_secs: u64) -> bool {
        match self.spec_expires_at() {
            Some(t) => now_secs > t,
            None => false,
        }
    }

    /// Wrap a value, giving it `now + ttl` as its expiry when a
    /// time-to-live is asked for.
    pub fn new(data: V, ttl_seconds: Option<u64>, now_secs: u64) -> (e: Entry<V>)
        requires
            ttl_seconds matches Some(t) ==> now_secs + t <= u64::MAX,
        ensures
            e.spec_data() == data,
            e.spec_expires_at() == (match ttl_seconds {
                Some(t) => Some((now_secs + t) as u64),
                None => None::<u64>,
            }),
    {
        let expires_at = match ttl_seconds {
            Some(t) => Some(now_secs + t),
            None => None,
        };
        Entry { data, expires_at }
    }

    /// Rebuild an entry from its stored form: the value and the absolute
    /// expiry instant it was written with.
    pub fn from_parts(data: V, expires_at: Option<u64>) -> (e: Entry<V>)
        ensures
            e.spec_data() == data,
            e.spec_expires_at() == expires_at,
    {
        Entry { data, expires_at }
    }

    /// Take the entry apart into its stored form.
    pub fn into_parts(self) -> (r: (V, Option<u64>))
        ensures
            r.0 == self.spec_data(),
            r.1 == self.spec_expires_at(),
    {
        let Entry { data, expires_at } = self;
        (data, expires_at)
    }

    /// Whether the entry is past its expiry at the given instant.
    fn is_expired(&self, now_secs: u64) -> (r: bool)
        ensures
            r == self.spec_expired(now_secs),
    {
        match &self.expires_at {
            Some(t) => now_secs > *t,
            None => false,
        }
    }

    /// The value, unless it has expired by the given instant.
    pub fn get_data(self, now_secs: u64) -> (r: Option<V>)
        ensures
            r == (if self.spec_expired(now_secs) {
                None::<V>
            } else {
                Some(self.spec_data())
            }),
    {
        if self.is_expired(now_secs) {
            None
        } else {
            Some(self.data)
        }
    }
}

} // verus!
