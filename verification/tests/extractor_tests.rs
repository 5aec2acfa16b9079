use forecast_cache::decimal::TempValue;
use forecast_cache::errors::ParseError;
use forecast_cache::html::find_temps_in_html;
use forecast_cache::html::real_temp_number;
use forecast_cache::html::temp_number;

fn tv(neg: bool, whole: u64, frac: u64, scale: u32) -> TempValue {
    TempValue { neg, whole, frac, scale }
}

#[test]
fn extracts_both_fragments() {
    let html = "<html><body>\
        <div class=\"temp\">17.2\u{b0}</div>\
        <div class=\"real-feel\">RealFeel\u{ae} 15\u{b0}</div>\
        </body></html>";
    let r = find_temps_in_html(html);
    assert_eq!(r, Ok((tv(false, 17, 2, 1), tv(false, 15, 0, 0))));
}

#[test]
fn extracts_example_document() {
    // The end-to-end example: a span-wrapped reading with a unit, and a
    // newline between the label and the number.
    let html = "<html><body>\
        <div class=\"temp\"><span>5 \u{b0}C</span></div>\
        <div class=\"real-feel\">RealFeel\u{ae}\n3\u{b0}</div>\
        </body></html>";
    let r = find_temps_in_html(html);
    assert_eq!(r, Ok((tv(false, 5, 0, 0), tv(false, 3, 0, 0))));
}

#[test]
fn missing_current_fragment_fails() {
    let html = "<html><body>\
        <div class=\"real-feel\">RealFeel\u{ae} 15\u{b0}</div>\
        </body></html>";
    assert_eq!(find_temps_in_html(html), Err(ParseError::MissingFragment));
}

#[test]
fn missing_real_feel_fragment_fails() {
    let html = "<html><body><div class=\"temp\">17.2\u{b0}</div></body></html>";
    assert_eq!(find_temps_in_html(html), Err(ParseError::MissingFragment));
}

#[test]
fn malformed_payload_fails() {
    let html = "<html><body>\
        <div class=\"temp\">n/a</div>\
        <div class=\"real-feel\">RealFeel\u{ae} 15\u{b0}</div>\
        </body></html>";
    assert_eq!(find_temps_in_html(html), Err(ParseError::MalformedNumber));
}

#[test]
fn missing_label_in_real_feel_fails() {
    let html = "<html><body>\
        <div class=\"temp\">17.2\u{b0}</div>\
        <div class=\"real-feel\">15\u{b0}</div>\
        </body></html>";
    assert_eq!(find_temps_in_html(html), Err(ParseError::MalformedNumber));
}

#[test]
fn negative_readings_extract() {
    let html = "<html><body>\
        <div class=\"temp\">-3.5\u{b0}</div>\
        <div class=\"real-feel\">RealFeel\u{ae}\t-7\u{b0}</div>\
        </body></html>";
    let r = find_temps_in_html(html);
    assert_eq!(r, Ok((tv(true, 3, 5, 1), tv(true, 7, 0, 0))));
}

#[test]
fn temp_number_strips_noise() {
    assert_eq!(temp_number("17.2\u{b0}".as_bytes()), Some(tv(false, 17, 2, 1)));
    assert_eq!(temp_number("<span>5 \u{b0}C</span>".as_bytes()), Some(tv(false, 5, 0, 0)));
    assert_eq!(temp_number("  8 \u{b0}C".as_bytes()), Some(tv(false, 8, 0, 0)));
    assert_eq!(temp_number("".as_bytes()), None);
}

#[test]
fn end_to_end_example_response() {
    // Cache empty, the provider hands back the example document; the
    // response body carries a metric reading of five and a feels-like
    // reading of three, with the imperial placeholders at zero.
    let html = "<html><body>\
        <div class=\"temp\"><span>5 \u{b0}C</span></div>\
        <div class=\"real-feel\">RealFeel\u{ae}\n3\u{b0}</div>\
        </body></html>";
    let mut service = forecast_cache::service::ForecastService::new(600);
    assert_eq!(service.lookup("h0h", 0), None);
    let outcome = find_temps_in_html(html).map_err(forecast_cache::errors::ProviderError::Parse);
    let f = service.complete_miss("h0h", outcome, 0);
    let body = forecast_cache::codec::encode_forecast(&f);
    let expected = "[{\"Temperature\":{\"Metric\":{\"Value\":5},\"Imperial\":{\"Value\":0}},\"RealFeelTemperature\":{\"Metric\":{\"Value\":3},\"Imperial\":{\"Value\":0}}}]";
    assert_eq!(body, expected.as_bytes().to_vec());
    assert_eq!(service.lookup("h0h", 1), Some(f));
}

#[test]
fn real_temp_number_splits_on_label() {
    assert_eq!(real_temp_number("RealFeel\u{ae} 15\u{b0}".as_bytes()), Some(tv(false, 15, 0, 0)));
    assert_eq!(real_temp_number("RealFeel\u{ae}\n3\u{b0}".as_bytes()), Some(tv(false, 3, 0, 0)));
    assert_eq!(real_temp_number("15\u{b0}".as_bytes()), None);
}
