//! The cache-aside orchestrator.
//!
//! Given a location identifier, the service checks the cache first; on a
//! hit it returns the stored record unchanged, and on a miss it takes the
//! provider's outcome, writes the (possibly degraded) record back with a
//! time to live, and returns it.  The two phases are separate entry points
//! — `lookup`, then `complete_miss` when `lookup` found nothing — so the
//! provider is consulted exactly when the cache had no live answer, and
//! the surrounding application performs the fetch between the two calls.

use vstd::prelude::*;

use vstd::string::StringExecFns;

use crate::cache::CacheEntry;
use crate::cache::ForecastCache;
use crate::cache::live_entry;
use crate::codec::encode_forecast;
use crate::codec::json_bytes;
use crate::codec::lemma_forecast_round_trip;
use crate::codec::parse_forecast;
use crate::codec::parse_forecast_s;
use crate::decimal::TempValue;
use crate::errors::CacheError;
use crate::errors::ProviderError;
use crate::forecast::Forecast;
use crate::forecast::build_forecast;
use crate::forecast::forecast_of_outcome;

verus! {

/// The cache key for a location: the fixed namespace prefix, then the
/// identifier verbatim.
pub open spec fn cache_key_spec(id: Seq<char>) -> Seq<char> {
    "forecast:"@ + id
}

/// Builds the cache key of a location identifier.
pub fn cache_key(location_id: &str) -> (r: String)
    ensures
        r@ == cache_key_spec(location_id@),
{
    let mut r = String::from_str("forecast:");
    r.append(location_id);
    r
}

/// Builds the upstream page address for a location: the fixed path
/// template with the identifier interpolated at its end.
pub fn forecast_url(location_id: &str) -> (r: String)
    ensures
        r@ == "https://www.accuweather.com/en/ca/city/h0h/weather-forecast/"@ + location_id@,
{
    let mut r = String::from_str("https://www.accuweather.com/en/ca/city/h0h/weather-forecast/");
    r.append(location_id);
    r
}

/// Fail open toward the cache: a read error counts as a miss, so a cache
/// outage degrades to provider traffic instead of failing the request.
pub fn cache_read_fallback(r: Result<Option<Vec<u8>>, CacheError>) -> (o: Option<Vec<u8>>)
    ensures
        o == (match r {
            Ok(v) => v,
            Err(_) => None::<Vec<u8>>,
        }),
{
    match r {
        Ok(v) => v,
        Err(_) => None,
    }
}

/// What a read of the cache yields at time `now`: the decoded record of a
/// live entry, and nothing for an absent entry, a lapsed entry, or bytes
/// that do not decode (a corrupt entry counts as a miss).
pub open spec fn lookup_spec(m: Map<Seq<char>, CacheEntry>, id: Seq<char>, now: u64) -> Option<
    Forecast,
> {
    let k = cache_key_spec(id);
    if live_entry(m, k, now) {
        parse_forecast_s(m[k].value@)
    } else {
        None
    }
}

/// The orchestrator: the cache and the configured time to live, in
/// seconds, given to every entry it writes.
pub struct ForecastService {
    pub cache: ForecastCache,
    pub ttl_seconds: u64,
}

impl ForecastService {
    /// A service over an empty cache.
    pub fn new(ttl_seconds: u64) -> (s: ForecastService)
        ensures
            s.cache@ == Map::<Seq<char>, CacheEntry>::empty(),
            s.ttl_seconds == ttl_seconds,
    {
        ForecastService { cache: ForecastCache::new(), ttl_seconds }
    }

    /// The hit path: a live entry that decodes is returned unchanged;
    /// everything else reads as a miss and owes a provider fetch.
    pub fn lookup(&self, location_id: &str, now: u64) -> (r: Option<Forecast>)
        ensures
            r == lookup_spec(self.cache@, location_id@, now),
            r matches Some(f) ==> f.wf(),
    {
        let key = cache_key(location_id);
        match self.cache.get(key.as_str(), now) {
            Some(bytes) => parse_forecast(bytes.as_slice()),
            None => None,
        }
    }

    /// The miss path: the provider outcome, degraded to the zero record on
    /// failure, is encoded, written under the location's key, marked to
    /// lapse `ttl_seconds` after `now`, and returned.  The caller gets the
    /// record whatever the cache did with it.
    pub fn complete_miss(
        &mut self,
        location_id: &str,
        outcome: Result<(TempValue, TempValue), ProviderError>,
        now: u64,
    ) -> (f: Forecast)
        requires
            now + old(self).ttl_seconds <= u64::MAX,
            outcome matches Ok(p) ==> p.0.wf() && p.1.wf(),
        ensures
            f == forecast_of_outcome(outcome),
            f.wf(),
            final(self).ttl_seconds == old(self).ttl_seconds,
            final(self).cache@ == old(self).cache@.insert(
                cache_key_spec(location_id@),
                final(self).cache@[cache_key_spec(location_id@)],
            ),
            final(self).cache@[cache_key_spec(location_id@)].value@ == json_bytes(f),
            final(self).cache@[cache_key_spec(location_id@)].expires_at == Some(
                (now + old(self).ttl_seconds) as u64,
            ),
    {
        let f = build_forecast(outcome);
        let bytes = encode_forecast(&f);
        let key = cache_key(location_id);
        let expire_key = key.clone();
        self.cache.set(key, bytes);
        self.cache.expire(expire_key.as_str(), now + self.ttl_seconds);
        proof {
            assert(self.cache@ =~= old(self).cache@.insert(
                cache_key_spec(location_id@),
                self.cache@[cache_key_spec(location_id@)],
            ));
        }
        f
    }
}

/// Cache-aside idempotence: once a miss for a location has completed, every
/// read of that location before the written entry lapses is a hit returning
/// exactly the stored record — so the second of two back-to-back requests
/// never reaches the provider.
pub proof fn lemma_second_call_hits(
    m: Map<Seq<char>, CacheEntry>,
    id: Seq<char>,
    f: Forecast,
    e: CacheEntry,
    t: u64,
    expiry: u64,
)
    requires
        f.wf(),
        e.value@ == json_bytes(f),
        e.expires_at == Some(expiry),
        t < expiry,
    ensures
        lookup_spec(m.insert(cache_key_spec(id), e), id, t) == Some(f),
{
    lemma_forecast_round_trip(f);
}

/// Time-to-live expiry: from the written entry's expiry time onward, the
/// same read is a miss again, and a fresh provider fetch is owed.  This
/// holds for a degraded zero record exactly as for a real one: a failed
/// fetch cannot poison the cache beyond the entry's time to live.
pub proof fn lemma_expired_entry_misses(
    m: Map<Seq<char>, CacheEntry>,
    id: Seq<char>,
    e: CacheEntry,
    t: u64,
    expiry: u64,
)
    requires
        e.expires_at == Some(expiry),
        t >= expiry,
    ensures
        lookup_spec(m.insert(cache_key_spec(id), e), id, t) is None,
{
}

/// Degradation to zero: a failed provider outcome turns into the canonical
/// zero-valued record, not an error — and into nothing else.
pub proof fn lemma_degraded_outcome_is_zero(outcome: Result<(TempValue, TempValue), ProviderError>)
    requires
        outcome is Err,
    ensures
        forecast_of_outcome(outcome) == Forecast::zero_spec(),
{
}

} // verus!
