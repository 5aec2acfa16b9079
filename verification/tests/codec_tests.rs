use forecast_cache::codec::encode_forecast;
use forecast_cache::codec::parse_forecast;
use forecast_cache::decimal::TempValue;
use forecast_cache::forecast::Forecast;
use forecast_cache::forecast::RealFeelTemperature;
use forecast_cache::forecast::Temp;
use forecast_cache::forecast::Temperature;

fn tv(neg: bool, whole: u64, frac: u64, scale: u32) -> TempValue {
    TempValue { neg, whole, frac, scale }
}

fn record(current: TempValue, real_feel: TempValue) -> Forecast {
    let zero = tv(false, 0, 0, 0);
    Forecast {
        temperature: Temperature { metric: Temp { value: current }, imperial: Temp { value: zero } },
        real_feel_temperature: RealFeelTemperature {
            metric: Temp { value: real_feel },
            imperial: Temp { value: zero },
        },
    }
}

#[test]
fn encodes_fixed_shape() {
    let f = record(tv(false, 5, 0, 0), tv(false, 3, 0, 0));
    let bytes = encode_forecast(&f);
    let expected = "[{\"Temperature\":{\"Metric\":{\"Value\":5},\"Imperial\":{\"Value\":0}},\"RealFeelTemperature\":{\"Metric\":{\"Value\":3},\"Imperial\":{\"Value\":0}}}]";
    assert_eq!(bytes, expected.as_bytes().to_vec());
}

#[test]
fn round_trips_plain_record() {
    let f = record(tv(false, 17, 2, 1), tv(false, 15, 0, 0));
    let bytes = encode_forecast(&f);
    assert_eq!(parse_forecast(&bytes), Some(f));
}

#[test]
fn round_trips_negative_record() {
    let f = record(tv(true, 3, 5, 1), tv(true, 40, 0, 0));
    let bytes = encode_forecast(&f);
    assert_eq!(parse_forecast(&bytes), Some(f));
}

#[test]
fn round_trips_zero_record() {
    let f = record(tv(false, 0, 0, 0), tv(false, 0, 0, 0));
    let bytes = encode_forecast(&f);
    assert_eq!(parse_forecast(&bytes), Some(f));
}

#[test]
fn decodes_handwritten_text() {
    let text = "[{\"Temperature\":{\"Metric\":{\"Value\":17.2},\"Imperial\":{\"Value\":0}},\"RealFeelTemperature\":{\"Metric\":{\"Value\":15},\"Imperial\":{\"Value\":0}}}]";
    let f = parse_forecast(text.as_bytes()).expect("fixed shape should decode");
    assert_eq!(f.temperature.metric.value, tv(false, 17, 2, 1));
    assert_eq!(f.real_feel_temperature.metric.value, tv(false, 15, 0, 0));
}

#[test]
fn rejects_foreign_shape() {
    assert_eq!(parse_forecast("{}".as_bytes()), None);
    assert_eq!(parse_forecast("[]".as_bytes()), None);
    assert_eq!(parse_forecast("".as_bytes()), None);
    let reordered = "[{\"RealFeelTemperature\":{\"Metric\":{\"Value\":1},\"Imperial\":{\"Value\":0}},\"Temperature\":{\"Metric\":{\"Value\":2},\"Imperial\":{\"Value\":0}}}]";
    assert_eq!(parse_forecast(reordered.as_bytes()), None);
}

#[test]
fn rejects_trailing_bytes() {
    let f = record(tv(false, 1, 0, 0), tv(false, 2, 0, 0));
    let mut bytes = encode_forecast(&f);
    bytes.push(b' ');
    assert_eq!(parse_forecast(&bytes), None);
}
