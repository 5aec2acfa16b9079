//! The forecast cache model.
//!
//! A key-value store with per-entry expiry, as the pipeline sees it: `get`,
//! `set` and `expire` over string keys.  Writing a value and giving it a
//! time to live are two separate steps, exactly as the backing store's
//! protocol has them; an entry whose expiry step never ran stays live
//! forever.  Expiry is by absolute time, passed in by the caller: a lapsed
//! entry reads as absent.

use vstd::prelude::*;

use vstd::hash_map::StringHashMap;

verus! {

/// One stored record: the serialized bytes, and the absolute second at
/// which the entry lapses once the expiry step has run.
pub struct CacheEntry {
    pub value: Vec<u8>,
    pub expires_at: Option<u64>,
}

/// An entry under `k` exists in `m` and has not lapsed at time `now`.
pub open spec fn live_entry(m: Map<Seq<char>, CacheEntry>, k: Seq<char>, now: u64) -> bool {
    m.contains_key(k) && match m[k].expires_at {
        None => true,
        Some(t) => now < t,
    }
}

/// The store: a map from key text to its entry.
pub struct ForecastCache {
    entries: StringHashMap<CacheEntry>,
}

impl View for ForecastCache {
    type V = Map<Seq<char>, CacheEntry>;

    closed spec fn view(&self) -> Map<Seq<char>, CacheEntry> {
        self.entries@
    }
}

/// Copies a byte slice into a fresh vector.
fn copy_bytes(s: &[u8]) -> (out: Vec<u8>)
    ensures
        out@ == s@,
{
    let mut out: Vec<u8> = Vec::new();
    let mut i: usize = 0;
    while i < s.len()
        invariant
            i <= s@.len(),
            out@ == s@.take(i as int),
        decreases s@.len() - i,
    {
        out.push(s[i]);
        proof {
            assert(out@ =~= s@.take(i as int + 1));
        }
        i = i + 1;
    }
    proof {
        assert(s@.take(s@.len() as int) =~= s@);
    }
    out
}

impl ForecastCache {
    /// An empty store.
    pub fn new() -> (c: ForecastCache)
        ensures
            c@ == Map::<Seq<char>, CacheEntry>::empty(),
    {
        ForecastCache { entries: StringHashMap::new() }
    }

    /// Reads the live value under `key` at time `now`; an absent or lapsed
    /// entry reads as nothing.
    pub fn get<'a>(&'a self, key: &str, now: u64) -> (r: Option<&'a Vec<u8>>)
        ensures
            live_entry(self@, key@, now) ==> (r matches Some(v) && v@ == self@[key@].value@),
            !live_entry(self@, key@, now) ==> r is None,
    {
        match self.entries.get(key) {
            None => None,
            Some(e) => match e.expires_at {
                None => Some(&e.value),
                Some(t) => {
                    if now < t {
                        Some(&e.value)
                    } else {
                        None
                    }
                },
            },
        }
    }

    /// Writes `value` under `key`, unconditionally replacing any previous
    /// entry.  The fresh entry carries no expiry until `expire` runs: the
    /// two round trips are separate, and a write never followed by its
    /// expiry step leaves an entry that never lapses.
    pub fn set(&mut self, key: String, value: Vec<u8>)
        ensures
            final(self)@ == old(self)@.insert(key@, (CacheEntry { value, expires_at: None })),
    {
        self.entries.insert(key, CacheEntry { value, expires_at: None });
    }

    /// Marks the entry under `key`, if there is one, to lapse at absolute
    /// time `at`; without an entry the store is unchanged.
    pub fn expire(&mut self, key: &str, at: u64)
        ensures
            !old(self)@.contains_key(key@) ==> final(self)@ == old(self)@,
            old(self)@.contains_key(key@) ==> {
                &&& final(self)@ == old(self)@.insert(key@, final(self)@[key@])
                &&& final(self)@[key@].value@ == old(self)@[key@].value@
                &&& final(self)@[key@].expires_at == Some(at)
            },
    {
        let fresh_value = match self.entries.get(key) {
            Some(e) => copy_bytes(e.value.as_slice()),
            None => {
                return ;
            },
        };
        self.entries.insert(key.to_owned(), CacheEntry { value: fresh_value, expires_at: Some(at) });
    }
}

} // verus!
