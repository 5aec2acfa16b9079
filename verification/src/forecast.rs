//! The typed forecast record.
//!
//! A `Forecast` is either fully populated from one successful scrape, or the
//! canonical zero-valued record substituted when the provider or the
//! extractor failed.  Each temperature carries a metric and an imperial
//! reading; the current provider only fills the metric side, the imperial
//! side is a fixed zero placeholder.

use vstd::prelude::*;

use crate::decimal::TempValue;
use crate::errors::ProviderError;

verus! {

/// One reading in one unit system.
#[derive(Clone, Copy, Debug, PartialEq, Eq, Structural)]
pub struct Temp {
    pub value: TempValue,
}

/// The current temperature in both unit systems.
#[derive(Clone, Copy, Debug, PartialEq, Eq, Structural)]
pub struct Temperature {
    pub metric: Temp,
    pub imperial: Temp,
}

/// The "feels like" temperature in both unit systems.
#[derive(Clone, Copy, Debug, PartialEq, Eq, Structural)]
pub struct RealFeelTemperature {
    pub metric: Temp,
    pub imperial: Temp,
}

/// The unit of cached and returned data.
#[derive(Clone, Copy, Debug, PartialEq, Eq, Structural)]
pub struct Forecast {
    pub temperature: Temperature,
    pub real_feel_temperature: RealFeelTemperature,
}

impl Forecast {
    /// All four readings are well-formed decimals.
    pub open spec fn wf(self) -> bool {
        self.temperature.metric.value.wf() && self.temperature.imperial.value.wf()
            && self.real_feel_temperature.metric.value.wf()
            && self.real_feel_temperature.imperial.value.wf()
    }

    pub open spec fn zero_spec() -> Forecast {
        Forecast {
            temperature: Temperature {
                metric: Temp { value: TempValue::zero_spec() },
                imperial: Temp { value: TempValue::zero_spec() },
            },
            real_feel_temperature: RealFeelTemperature {
                metric: Temp { value: TempValue::zero_spec() },
                imperial: Temp { value: TempValue::zero_spec() },
            },
        }
    }

    /// The canonical zero-valued record returned on a degraded path.
    pub fn zero() -> (f: Forecast)
        ensures
            f == Forecast::zero_spec(),
            f.wf(),
    {
        Forecast {
            temperature: Temperature {
                metric: Temp { value: TempValue::zero() },
                imperial: Temp { value: TempValue::zero() },
            },
            real_feel_temperature: RealFeelTemperature {
                metric: Temp { value: TempValue::zero() },
                imperial: Temp { value: TempValue::zero() },
            },
        }
    }
}

/// What a provider outcome turns into: a populated record on success, the
/// canonical zero record on any failure.  The failure is deliberately not
/// surfaced — availability is preferred over correctness signalling.
pub open spec fn forecast_of_outcome(r: Result<(TempValue, TempValue), ProviderError>) -> Forecast {
    match r {
        Ok((current, real_feel)) => Forecast {
            temperature: Temperature {
                metric: Temp { value: current },
                imperial: Temp { value: TempValue::zero_spec() },
            },
            real_feel_temperature: RealFeelTemperature {
                metric: Temp { value: real_feel },
                imperial: Temp { value: TempValue::zero_spec() },
            },
        },
        Err(_) => Forecast::zero_spec(),
    }
}

/// Converts a provider outcome into the record handed to the caller: the
/// metric readings from a successful scrape, or all zeroes on failure.
pub fn build_forecast(r: Result<(TempValue, TempValue), ProviderError>) -> (f: Forecast)
    ensures
        f == forecast_of_outcome(r),
        (r matches Ok(p) && p.0.wf() && p.1.wf()) ==> f.wf(),
        r is Err ==> f.wf(),
{
    match r {
        Ok((current, real_feel)) => Forecast {
            temperature: Temperature {
                metric: Temp { value: current },
                imperial: Temp { value: TempValue::zero() },
            },
            real_feel_temperature: RealFeelTemperature {
                metric: Temp { value: real_feel },
                imperial: Temp { value: TempValue::zero() },
            },
        },
        Err(_) => Forecast::zero(),
    }
}

} // verus!
