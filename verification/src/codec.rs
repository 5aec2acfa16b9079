//! The cache codec: a forecast record as bytes.
//!
//! A record is stored in the cache, and answered to clients, as a JSON text
//! of a fixed shape: a single-element array holding one object with the
//! `Temperature` and `RealFeelTemperature` fields, each carrying a `Metric`
//! and an `Imperial` reading.  The encoder emits exactly that shape; the
//! decoder accepts exactly it; and encoding a well-formed record then
//! decoding the bytes gives the record back, field for field.

use vstd::prelude::*;

use crate::decimal::TempValue;
use crate::decimal::decimal_bytes;
use crate::decimal::is_number_byte;
use crate::decimal::lemma_decimal_bytes_number;
use crate::decimal::lemma_decimal_round_trip;
use crate::decimal::parse_decimal;
use crate::decimal::parse_decimal_s;
use crate::decimal::push_decimal;
use crate::forecast::Forecast;
use crate::forecast::RealFeelTemperature;
use crate::forecast::Temp;
use crate::forecast::Temperature;

verus! {

/// The bytes of `[{"Temperature":{"Metric":{"Value":`.
pub open spec fn lit_open() -> Seq<u8> {
    seq![91u8, 123, 34, 84, 101, 109, 112, 101, 114, 97, 116, 117, 114, 101, 34, 58, 123, 34, 77, 101, 116, 114, 105, 99, 34, 58, 123, 34, 86, 97, 108, 117, 101, 34, 58]
}

fn push_lit_open(out: &mut Vec<u8>)
    ensures
        final(out)@ == old(out)@ + lit_open(),
{
    out.push(91);
    out.push(123);
    out.push(34);
    out.push(84);
    out.push(101);
    out.push(109);
    out.push(112);
    out.push(101);
    out.push(114);
    out.push(97);
    out.push(116);
    out.push(117);
    out.push(114);
    out.push(101);
    out.push(34);
    out.push(58);
    out.push(123);
    out.push(34);
    out.push(77);
    out.push(101);
    out.push(116);
    out.push(114);
    out.push(105);
    out.push(99);
    out.push(34);
    out.push(58);
    out.push(123);
    out.push(34);
    out.push(86);
    out.push(97);
    out.push(108);
    out.push(117);
    out.push(101);
    out.push(34);
    out.push(58);
    proof {
        assert(out@ =~= old(out)@ + lit_open());
    }
}

fn lit_open_vec() -> (v: Vec<u8>)
    ensures
        v@ == lit_open(),
{
    let mut v = Vec::new();
    push_lit_open(&mut v);
    proof {
        assert(v@ =~= lit_open());
    }
    v
}

/// The bytes of `},"Imperial":{"Value":`.
pub open spec fn lit_imperial() -> Seq<u8> {
    seq![125u8, 44, 34, 73, 109, 112, 101, 114, 105, 97, 108, 34, 58, 123, 34, 86, 97, 108, 117, 101, 34, 58]
}

fn push_lit_imperial(out: &mut Vec<u8>)
    ensures
        final(out)@ == old(out)@ + lit_imperial(),
{
    out.push(125);
    out.push(44);
    out.push(34);
    out.push(73);
    out.push(109);
    out.push(112);
    out.push(101);
    out.push(114);
    out.push(105);
    out.push(97);
    out.push(108);
    out.push(34);
    out.push(58);
    out.push(123);
    out.push(34);
    out.push(86);
    out.push(97);
    out.push(108);
    out.push(117);
    out.push(101);
    out.push(34);
    out.push(58);
    proof {
        assert(out@ =~= old(out)@ + lit_imperial());
    }
}

fn lit_imperial_vec() -> (v: Vec<u8>)
    ensures
        v@ == lit_imperial(),
{
    let mut v = Vec::new();
    push_lit_imperial(&mut v);
    proof {
        assert(v@ =~= lit_imperial());
    }
    v
}

/// The bytes of `}},"RealFeelTemperature":{"Metric":{"Value":`.
pub open spec fn lit_real_feel() -> Seq<u8> {
    seq![125u8, 125, 44, 34, 82, 101, 97, 108, 70, 101, 101, 108, 84, 101, 109, 112, 101, 114, 97, 116, 117, 114, 101, 34, 58, 123, 34, 77, 101, 116, 114, 105, 99, 34, 58, 123, 34, 86, 97, 108, 117, 101, 34, 58]
}

fn push_lit_real_feel(out: &mut Vec<u8>)
    ensures
        final(out)@ == old(out)@ + lit_real_feel(),
{
    out.push(125);
    out.push(125);
    out.push(44);
    out.push(34);
    out.push(82);
    out.push(101);
    out.push(97);
    out.push(108);
    out.push(70);
    out.push(101);
    out.push(101);
    out.push(108);
    out.push(84);
    out.push(101);
    out.push(109);
    out.push(112);
    out.push(101);
    out.push(114);
    out.push(97);
    out.push(116);
    out.push(117);
    out.push(114);
    out.push(101);
    out.push(34);
    out.push(58);
    out.push(123);
    out.push(34);
    out.push(77);
    out.push(101);
    out.push(116);
    out.push(114);
    out.push(105);
    out.push(99);
    out.push(34);
    out.push(58);
    out.push(123);
    out.push(34);
    out.push(86);
    out.push(97);
    out.push(108);
    out.push(117);
    out.push(101);
    out.push(34);
    out.push(58);
    proof {
        assert(out@ =~= old(out)@ + lit_real_feel());
    }
}

fn lit_real_feel_vec() -> (v: Vec<u8>)
    ensures
        v@ == lit_real_feel(),
{
    let mut v = Vec::new();
    push_lit_real_feel(&mut v);
    proof {
        assert(v@ =~= lit_real_feel());
    }
    v
}

/// The bytes of `}}}]`.
pub open spec fn lit_close() -> Seq<u8> {
    seq![125u8, 125, 125, 93]
}

fn push_lit_close(out: &mut Vec<u8>)
    ensures
        final(out)@ == old(out)@ + lit_close(),
{
    out.push(125);
    out.push(125);
    out.push(125);
    out.push(93);
    proof {
        assert(out@ =~= old(out)@ + lit_close());
    }
}

fn lit_close_vec() -> (v: Vec<u8>)
    ensures
        v@ == lit_close(),
{
    let mut v = Vec::new();
    push_lit_close(&mut v);
    proof {
        assert(v@ =~= lit_close());
    }
    v
}


/// Where the run of number-alphabet bytes that starts at `i` ends.
pub open spec fn number_run_end(s: Seq<u8>, i: nat) -> int
    decreases s.len() - i,
{
    if i >= s.len() {
        s.len() as int
    } else if !is_number_byte(s[i as int]) {
        i as int
    } else {
        number_run_end(s, i + 1)
    }
}

/// A scan that saw only number bytes before `j` and stopped at `j` pins
/// `number_run_end` down.
pub proof fn lemma_number_run_end(s: Seq<u8>, i: nat, j: nat)
    requires
        i <= j <= s.len(),
        forall|m: int| i <= m < j ==> is_number_byte(s[m]),
        j == s.len() || !is_number_byte(s[j as int]),
    ensures
        number_run_end(s, i) == j,
    decreases j - i,
{
    if i < j {
        lemma_number_run_end(s, i + 1, j);
    }
}

/// The fixed text `lit` stands at position `i` of `s`.
pub open spec fn lit_at(s: Seq<u8>, i: int, lit: Seq<u8>) -> bool {
    0 <= i && i + lit.len() <= s.len() && s.subrange(i, i + lit.len()) == lit
}

/// A decimal token at position `i`: the maximal run of number bytes,
/// which must be non-empty and parse under the decimal grammar.
pub open spec fn parse_number_at(s: Seq<u8>, i: int) -> Option<(TempValue, int)> {
    let j = number_run_end(s, i as nat);
    if j == i {
        None
    } else {
        match parse_decimal_s(s.subrange(i, j)) {
            Some(v) => Some((v, j)),
            None => None,
        }
    }
}

/// A fixed text followed by a decimal token.
pub open spec fn parse_field_at(s: Seq<u8>, i: int, lit: Seq<u8>) -> Option<(TempValue, int)> {
    if lit_at(s, i, lit) {
        parse_number_at(s, i + lit.len())
    } else {
        None
    }
}

/// The decoder's grammar: the four readings in their fixed frame, with
/// nothing before or after.
pub open spec fn parse_forecast_s(s: Seq<u8>) -> Option<Forecast> {
    match parse_field_at(s, 0, lit_open()) {
        None => None,
        Some((t_metric, i1)) => match parse_field_at(s, i1, lit_imperial()) {
            None => None,
            Some((t_imperial, i2)) => match parse_field_at(s, i2, lit_real_feel()) {
                None => None,
                Some((rf_metric, i3)) => match parse_field_at(s, i3, lit_imperial()) {
                    None => None,
                    Some((rf_imperial, i4)) => {
                        if lit_at(s, i4, lit_close()) && i4 + lit_close().len() == s.len() {
                            Some(
                                Forecast {
                                    temperature: Temperature {
                                        metric: Temp { value: t_metric },
                                        imperial: Temp { value: t_imperial },
                                    },
                                    real_feel_temperature: RealFeelTemperature {
                                        metric: Temp { value: rf_metric },
                                        imperial: Temp { value: rf_imperial },
                                    },
                                },
                            )
                        } else {
                            None
                        }
                    },
                },
            },
        },
    }
}

/// The encoder's output: the four printed readings in the fixed frame.
pub open spec fn json_bytes(f: Forecast) -> Seq<u8> {
    lit_open() + decimal_bytes(f.temperature.metric.value) + lit_imperial() + decimal_bytes(
        f.temperature.imperial.value,
    ) + lit_real_feel() + decimal_bytes(f.real_feel_temperature.metric.value) + lit_imperial()
        + decimal_bytes(f.real_feel_temperature.imperial.value) + lit_close()
}

/// Serializes a record into its cache and response form.
pub fn encode_forecast(f: &Forecast) -> (out: Vec<u8>)
    ensures
        out@ == json_bytes(*f),
{
    let mut out: Vec<u8> = Vec::new();
    push_lit_open(&mut out);
    push_decimal(&mut out, f.temperature.metric.value);
    push_lit_imperial(&mut out);
    push_decimal(&mut out, f.temperature.imperial.value);
    push_lit_real_feel(&mut out);
    push_decimal(&mut out, f.real_feel_temperature.metric.value);
    push_lit_imperial(&mut out);
    push_decimal(&mut out, f.real_feel_temperature.imperial.value);
    push_lit_close(&mut out);
    proof {
        assert(out@ =~= json_bytes(*f));
    }
    out
}

/// Checks that the fixed text `lit` stands at position `i` of `s`.
pub(crate) fn match_lit(s: &[u8], i: usize, lit: &Vec<u8>) -> (r: bool)
    requires
        i <= s@.len(),
    ensures
        r == lit_at(s@, i as int, lit@),
{
    if lit.len() > s.len() - i {
        return false;
    }
    let mut j: usize = 0;
    while j < lit.len()
        invariant
            0 <= j <= lit@.len(),
            i + lit@.len() <= s@.len(),
            forall|m: int| 0 <= m < j ==> s@[i + m] == lit@[m],
        decreases lit@.len() - j,
    {
        if s[i + j] != lit[j] {
            proof {
                assert(s@.subrange(i as int, i + lit@.len())[j as int] == s@[i + j]);
                assert(s@.subrange(i as int, i + lit@.len()) != lit@);
            }
            return false;
        }
        j += 1;
    }
    proof {
        assert(s@.subrange(i as int, i + lit@.len()) =~= lit@);
    }
    true
}

/// Scans to the end of the run of number bytes starting at `i`.
fn scan_number_end(s: &[u8], i: usize) -> (j: usize)
    requires
        i <= s@.len(),
    ensures
        i <= j <= s@.len(),
        j as int == number_run_end(s@, i as nat),
{
    let mut j = i;
    while j < s.len()
        invariant
            i <= j <= s@.len(),
            forall|m: int| i <= m < j ==> is_number_byte(s@[m]),
        decreases s@.len() - j,
    {
        let b = s[j];
        if !(b == 45 || b == 46 || (48 <= b && b <= 57)) {
            proof {
                lemma_number_run_end(s@, i as nat, j as nat);
            }
            return j;
        }
        j += 1;
    }
    proof {
        lemma_number_run_end(s@, i as nat, j as nat);
    }
    j
}

/// Reads one decimal token at position `i`.
fn parse_number_field(s: &[u8], i: usize) -> (r: Option<(TempValue, usize)>)
    requires
        i <= s@.len(),
    ensures
        match r {
            Some(p) => parse_number_at(s@, i as int) == Some((p.0, p.1 as int)) && i < p.1
                <= s@.len() && p.0.wf(),
            None => parse_number_at(s@, i as int) is None,
        },
{
    let j = scan_number_end(s, i);
    if j == i {
        return None;
    }
    match parse_decimal(&s[i..j]) {
        Some(v) => Some((v, j)),
        None => None,
    }
}

/// Deserializes cache or response bytes back into a record; `None` when the
/// bytes do not carry the fixed shape.
pub fn parse_forecast(s: &[u8]) -> (r: Option<Forecast>)
    ensures
        r == parse_forecast_s(s@),
        r matches Some(f) ==> f.wf(),
{
    let n: usize = s.len();
    let open = lit_open_vec();
    let imperial = lit_imperial_vec();
    let real_feel = lit_real_feel_vec();
    let close = lit_close_vec();
    if !match_lit(s, 0, &open) {
        return None;
    }
    let r1 = parse_number_field(s, open.len());
    let (t_metric, i1) = match r1 {
        Some(p) => p,
        None => {
            return None;
        },
    };
    if !match_lit(s, i1, &imperial) {
        return None;
    }
    proof {
        assert(i1 + imperial@.len() <= s@.len());
    }
    let r2 = parse_number_field(s, i1 + imperial.len());
    let (t_imperial, i2) = match r2 {
        Some(p) => p,
        None => {
            return None;
        },
    };
    if !match_lit(s, i2, &real_feel) {
        return None;
    }
    proof {
        assert(i2 + real_feel@.len() <= s@.len());
    }
    let r3 = parse_number_field(s, i2 + real_feel.len());
    let (rf_metric, i3) = match r3 {
        Some(p) => p,
        None => {
            return None;
        },
    };
    if !match_lit(s, i3, &imperial) {
        return None;
    }
    proof {
        assert(i3 + imperial@.len() <= s@.len());
    }
    let r4 = parse_number_field(s, i3 + imperial.len());
    let (rf_imperial, i4) = match r4 {
        Some(p) => p,
        None => {
            return None;
        },
    };
    if !match_lit(s, i4, &close) {
        return None;
    }
    if s.len() - i4 != close.len() {
        return None;
    }
    Some(
        Forecast {
            temperature: Temperature {
                metric: Temp { value: t_metric },
                imperial: Temp { value: t_imperial },
            },
            real_feel_temperature: RealFeelTemperature {
                metric: Temp { value: rf_metric },
                imperial: Temp { value: rf_imperial },
            },
        },
    )
}

/// Round trip: encoding a well-formed record and decoding the bytes gives
/// the record back, field for field, the imperial placeholders included.
#[verifier::rlimit(100)]
pub proof fn lemma_forecast_round_trip(f: Forecast)
    requires
        f.wf(),
    ensures
        parse_forecast_s(json_bytes(f)) == Some(f),
{
    let v1 = f.temperature.metric.value;
    let v2 = f.temperature.imperial.value;
    let v3 = f.real_feel_temperature.metric.value;
    let v4 = f.real_feel_temperature.imperial.value;
    let d1 = decimal_bytes(v1);
    let d2 = decimal_bytes(v2);
    let d3 = decimal_bytes(v3);
    let d4 = decimal_bytes(v4);
    let s = json_bytes(f);
    let a0 = lit_open().len() as int;
    let a1 = a0 + d1.len();
    let b1 = a1 + lit_imperial().len();
    let a2 = b1 + d2.len();
    let b2 = a2 + lit_real_feel().len();
    let a3 = b2 + d3.len();
    let b3 = a3 + lit_imperial().len();
    let a4 = b3 + d4.len();
    lemma_decimal_bytes_number(v1);
    lemma_decimal_bytes_number(v2);
    lemma_decimal_bytes_number(v3);
    lemma_decimal_bytes_number(v4);
    lemma_decimal_round_trip(v1);
    lemma_decimal_round_trip(v2);
    lemma_decimal_round_trip(v3);
    lemma_decimal_round_trip(v4);
    assert(s.len() == a4 + lit_close().len());
    assert(s.subrange(0, a0) =~= lit_open());
    assert forall|m: int| a0 <= m < a1 implies is_number_byte(s[m]) by {
        assert(s[m] == d1[m - a0]);
    }
    assert(s[a1] == lit_imperial()[0]);
    lemma_number_run_end(s, a0 as nat, a1 as nat);
    assert(s.subrange(a0, a1) =~= d1);
    assert(parse_number_at(s, a0) == Some((v1, a1)));
    assert(s.subrange(a1, b1) =~= lit_imperial());
    assert forall|m: int| b1 <= m < a2 implies is_number_byte(s[m]) by {
        assert(s[m] == d2[m - b1]);
    }
    assert(s[a2] == lit_real_feel()[0]);
    lemma_number_run_end(s, b1 as nat, a2 as nat);
    assert(s.subrange(b1, a2) =~= d2);
    assert(parse_number_at(s, b1) == Some((v2, a2)));
    assert(s.subrange(a2, b2) =~= lit_real_feel());
    assert forall|m: int| b2 <= m < a3 implies is_number_byte(s[m]) by {
        assert(s[m] == d3[m - b2]);
    }
    assert(s[a3] == lit_imperial()[0]);
    lemma_number_run_end(s, b2 as nat, a3 as nat);
    assert(s.subrange(b2, a3) =~= d3);
    assert(parse_number_at(s, b2) == Some((v3, a3)));
    assert(s.subrange(a3, b3) =~= lit_imperial());
    assert forall|m: int| b3 <= m < a4 implies is_number_byte(s[m]) by {
        assert(s[m] == d4[m - b3]);
    }
    assert(s[a4] == lit_close()[0]);
    lemma_number_run_end(s, b3 as nat, a4 as nat);
    assert(s.subrange(b3, a4) =~= d4);
    assert(parse_number_at(s, b3) == Some((v4, a4)));
    assert(s.subrange(a4, a4 + lit_close().len() as int) =~= lit_close());
}

} // verus!
