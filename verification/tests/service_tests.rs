use forecast_cache::cache::ForecastCache;
use forecast_cache::decimal::TempValue;
use forecast_cache::errors::CacheError;
use forecast_cache::errors::ProviderError;
use forecast_cache::forecast::Forecast;
use forecast_cache::service::ForecastService;
use forecast_cache::service::cache_key;
use forecast_cache::service::cache_read_fallback;
use forecast_cache::service::forecast_url;

fn tv(neg: bool, whole: u64, frac: u64, scale: u32) -> TempValue {
    TempValue { neg, whole, frac, scale }
}

/// A provider stand-in that counts how often it is consulted.
struct FakeProvider {
    calls: u64,
    outcome: Result<(TempValue, TempValue), ProviderError>,
}

impl FakeProvider {
    fn fetch(&mut self) -> Result<(TempValue, TempValue), ProviderError> {
        self.calls += 1;
        self.outcome
    }
}

/// One full cache-aside request against the in-memory model.
fn get_forecast(service: &mut ForecastService, provider: &mut FakeProvider, id: &str, now: u64) -> Forecast {
    match service.lookup(id, now) {
        Some(f) => f,
        None => service.complete_miss(id, provider.fetch(), now),
    }
}

#[test]
fn second_call_is_pure_hit() {
    let mut service = ForecastService::new(600);
    let mut provider =
        FakeProvider { calls: 0, outcome: Ok((tv(false, 17, 2, 1), tv(false, 15, 0, 0))) };
    let first = get_forecast(&mut service, &mut provider, "h0h", 1000);
    let second = get_forecast(&mut service, &mut provider, "h0h", 1001);
    assert_eq!(provider.calls, 1);
    assert_eq!(first, second);
    assert_eq!(first.temperature.metric.value, tv(false, 17, 2, 1));
    assert_eq!(first.real_feel_temperature.metric.value, tv(false, 15, 0, 0));
}

#[test]
fn ttl_expiry_refetches() {
    let mut service = ForecastService::new(600);
    let mut provider =
        FakeProvider { calls: 0, outcome: Ok((tv(false, 5, 0, 0), tv(false, 3, 0, 0))) };
    get_forecast(&mut service, &mut provider, "h0h", 1000);
    // Just before the entry lapses: still a hit.
    get_forecast(&mut service, &mut provider, "h0h", 1599);
    assert_eq!(provider.calls, 1);
    // From the expiry second onward: a miss again.
    get_forecast(&mut service, &mut provider, "h0h", 1600);
    assert_eq!(provider.calls, 2);
}

#[test]
fn degraded_provider_returns_zero_record() {
    let mut service = ForecastService::new(600);
    let mut provider = FakeProvider { calls: 0, outcome: Err(ProviderError::Upstream) };
    let zero = tv(false, 0, 0, 0);
    let f = get_forecast(&mut service, &mut provider, "h0h", 1000);
    assert_eq!(f.temperature.metric.value, zero);
    assert_eq!(f.temperature.imperial.value, zero);
    assert_eq!(f.real_feel_temperature.metric.value, zero);
    assert_eq!(f.real_feel_temperature.imperial.value, zero);
    // The degraded entry expires like any other: after the time to live a
    // fresh fetch happens and can replace the zero record.
    provider.outcome = Ok((tv(false, 21, 0, 0), tv(false, 19, 0, 0)));
    let later = get_forecast(&mut service, &mut provider, "h0h", 1600);
    assert_eq!(provider.calls, 2);
    assert_eq!(later.temperature.metric.value, tv(false, 21, 0, 0));
}

#[test]
fn distinct_locations_do_not_share_entries() {
    let mut service = ForecastService::new(600);
    let mut first_provider =
        FakeProvider { calls: 0, outcome: Ok((tv(false, 1, 0, 0), tv(false, 2, 0, 0))) };
    let mut second_provider =
        FakeProvider { calls: 0, outcome: Ok((tv(false, 9, 0, 0), tv(false, 8, 0, 0))) };
    let a = get_forecast(&mut service, &mut first_provider, "aaa", 1000);
    let b = get_forecast(&mut service, &mut second_provider, "bbb", 1000);
    assert_eq!(first_provider.calls, 1);
    assert_eq!(second_provider.calls, 1);
    assert_eq!(a.temperature.metric.value, tv(false, 1, 0, 0));
    assert_eq!(b.temperature.metric.value, tv(false, 9, 0, 0));
}

#[test]
fn corrupt_entry_reads_as_miss() {
    let mut service = ForecastService::new(600);
    let key = cache_key("h0h");
    service.cache.set(key, "not a forecast".as_bytes().to_vec());
    assert_eq!(service.lookup("h0h", 1000), None);
}

#[test]
fn entry_without_expiry_step_never_lapses() {
    // The write and the expiry are two separate steps; an entry whose
    // expiry step never ran stays live.
    let mut cache = ForecastCache::new();
    cache.set(String::from("k"), vec![1u8, 2, 3]);
    assert_eq!(cache.get("k", u64::MAX - 1), Some(&vec![1u8, 2, 3]));
    cache.expire("k", 500);
    assert_eq!(cache.get("k", 499), Some(&vec![1u8, 2, 3]));
    assert_eq!(cache.get("k", 500), None);
}

#[test]
fn expire_without_entry_changes_nothing() {
    let mut cache = ForecastCache::new();
    cache.expire("missing", 500);
    assert_eq!(cache.get("missing", 0), None);
}

#[test]
fn set_overwrites_unconditionally() {
    let mut cache = ForecastCache::new();
    cache.set(String::from("k"), vec![1u8]);
    cache.expire("k", 500);
    cache.set(String::from("k"), vec![2u8]);
    // The overwrite dropped the old expiry along with the old value.
    assert_eq!(cache.get("k", 1000), Some(&vec![2u8]));
}

#[test]
fn cache_read_failure_counts_as_miss() {
    assert_eq!(cache_read_fallback(Err(CacheError::Unreachable)), None);
    assert_eq!(cache_read_fallback(Err(CacheError::Protocol)), None);
    assert_eq!(cache_read_fallback(Ok(None)), None);
    assert_eq!(cache_read_fallback(Ok(Some(vec![5u8]))), Some(vec![5u8]));
}

#[test]
fn key_and_url_templates() {
    assert_eq!(cache_key("h0h"), "forecast:h0h");
    assert_eq!(
        forecast_url("h0h"),
        "https://www.accuweather.com/en/ca/city/h0h/weather-forecast/h0h"
    );
}
