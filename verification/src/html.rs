//! The HTML extractor.
//!
//! Upstream markup is not contractually stable, so extraction is marker-based
//! text scraping: the first element matching the current-temperature marker
//! `div.temp` and the first matching the feels-like marker `div.real-feel`
//! are located, known markup noise is stripped from each fragment, and the
//! numeric payload is parsed under the decimal grammar.  Locating elements is
//! the one step done by an outside crate; every cleanup and parsing step on
//! the selected text is verified here, byte by byte.

use vstd::prelude::*;

use crate::codec::lit_at;
use crate::codec::match_lit;
use crate::decimal::TempValue;
use crate::decimal::digits_val;
use crate::decimal::lemma_find_byte_range;
use crate::decimal::parse_decimal;
use crate::decimal::parse_decimal_s;
use crate::errors::ParseError;

verus! {

/// What the scrape of one selector over one document yields: the inner HTML
/// bytes of the first matching element.  The result is a function of the
/// document and selector texts alone.
pub uninterp spec fn scraped_fragment(html: Seq<char>, selector: Seq<char>) -> Option<Seq<u8>>;

/// Relies on scraper's `Html::parse_document`, `Selector::parse`,
/// `Html::select` and `ElementRef::inner_html`: parses the document, walks
/// to the first element matching the CSS selector, and hands back the bytes
/// of its inner HTML; `None` when nothing matches or the selector text is
/// invalid.
#[verifier::external_body]
fn select_first_inner_html(html: &str, selector: &str) -> (r: Option<Vec<u8>>)
    ensures
        r matches Some(v) ==> scraped_fragment(html@, selector@) == Some(v@),
        r is None ==> scraped_fragment(html@, selector@) is None,
{
    let document = scraper::Html::parse_document(html);
    let parsed_selector = match scraper::Selector::parse(selector) {
        Ok(parsed_selector) => parsed_selector,
        Err(_) => return None,
    };
    match document.select(&parsed_selector).next() {
        Some(element) => Some(element.inner_html().into_bytes()),
        None => None,
    }
}

/// Whitespace bytes stripped by normalization: space, tab, newline, return.
pub open spec fn is_ws(b: u8) -> bool {
    b == 32 || b == 9 || b == 10 || b == 13
}

/// Removes every tag: a segment from `<` up to and including the next `>`
/// (or the end of the text when unclosed).
pub open spec fn strip_tags_from(s: Seq<u8>, in_tag: bool) -> Seq<u8>
    decreases s.len(),
{
    if s.len() == 0 {
        Seq::empty()
    } else if in_tag {
        strip_tags_from(s.skip(1), s[0] != 62)
    } else if s[0] == 60 {
        strip_tags_from(s.skip(1), true)
    } else {
        seq![s[0]] + strip_tags_from(s.skip(1), false)
    }
}

pub open spec fn strip_tags(s: Seq<u8>) -> Seq<u8> {
    strip_tags_from(s, false)
}

/// Removes every degree glyph, the UTF-8 byte pair 194, 176.
pub open spec fn strip_degree_from(s: Seq<u8>) -> Seq<u8>
    decreases s.len(),
{
    if s.len() == 0 {
        Seq::empty()
    } else if s.len() >= 2 && s[0] == 194 && s[1] == 176 {
        strip_degree_from(s.skip(2))
    } else {
        seq![s[0]] + strip_degree_from(s.skip(1))
    }
}

/// Removes every whitespace byte.
pub open spec fn strip_ws(s: Seq<u8>) -> Seq<u8>
    decreases s.len(),
{
    if s.len() == 0 {
        Seq::empty()
    } else if is_ws(s[0]) {
        strip_ws(s.skip(1))
    } else {
        seq![s[0]] + strip_ws(s.skip(1))
    }
}

/// Where the run of whitespace starting at `i` ends.
pub open spec fn ws_run_end(s: Seq<u8>, i: nat) -> int
    decreases s.len() - i,
{
    if i >= s.len() {
        s.len() as int
    } else if !is_ws(s[i as int]) {
        i as int
    } else {
        ws_run_end(s, i + 1)
    }
}

/// Where the run of non-whitespace starting at `i` ends.
pub open spec fn token_end(s: Seq<u8>, i: nat) -> int
    decreases s.len() - i,
{
    if i >= s.len() {
        s.len() as int
    } else if is_ws(s[i as int]) {
        i as int
    } else {
        token_end(s, i + 1)
    }
}

/// The feels-like label: the bytes of `RealFeel` followed by the
/// registered-trademark glyph, the UTF-8 byte pair 194, 174.
pub open spec fn real_feel_label() -> Seq<u8> {
    seq![82u8, 101, 97, 108, 70, 101, 101, 108, 194, 174]
}

/// First position at or after `i` where `pat` occurs in `s`, if any.
pub open spec fn find_sub_from(s: Seq<u8>, pat: Seq<u8>, i: nat) -> Option<int>
    decreases s.len() - i,
{
    if pat.len() == 0 {
        Some(i as int)
    } else if i + pat.len() > s.len() {
        None
    } else if s.subrange(i as int, (i + pat.len()) as int) == pat {
        Some(i as int)
    } else {
        find_sub_from(s, pat, i + 1)
    }
}

/// The normalized current-temperature token: tags stripped, leading
/// whitespace skipped, the text up to the first whitespace boundary taken
/// (the value precedes the unit), and degree glyphs removed.
pub open spec fn current_temp_token(frag: Seq<u8>) -> Seq<u8> {
    let t = strip_tags(frag);
    let a = ws_run_end(t, 0);
    let b = token_end(t, a as nat);
    strip_degree_from(t.subrange(a, b))
}

/// The current-temperature value of a fragment, if its token parses.
pub open spec fn parse_current_temp(frag: Seq<u8>) -> Option<TempValue> {
    parse_decimal_s(current_temp_token(frag))
}

/// The normalized feels-like token: tags stripped, the text split after the
/// first feels-like label, and degree glyphs and whitespace removed from the
/// remainder.  `None` when the label is absent.
pub open spec fn real_feel_token(frag: Seq<u8>) -> Option<Seq<u8>> {
    let t = strip_tags(frag);
    match find_sub_from(t, real_feel_label(), 0) {
        None => None,
        Some(i) => Some(strip_ws(strip_degree_from(t.skip(i + real_feel_label().len())))),
    }
}

/// The feels-like value of a fragment, if the label is present and the
/// remainder parses.
pub open spec fn parse_real_feel(frag: Seq<u8>) -> Option<TempValue> {
    match real_feel_token(frag) {
        None => None,
        Some(tok) => parse_decimal_s(tok),
    }
}

/// What extraction returns on a whole document: the two readings when both
/// markers match and both payloads parse; `MissingFragment` when either
/// marker matches nothing; `MalformedNumber` when a payload does not parse.
/// No partially-populated result exists.
pub open spec fn extract_spec(html: Seq<char>) -> Result<(TempValue, TempValue), ParseError> {
    match scraped_fragment(html, "div.temp"@) {
        None => Err(ParseError::MissingFragment),
        Some(tfrag) => match scraped_fragment(html, "div.real-feel"@) {
            None => Err(ParseError::MissingFragment),
            Some(rfrag) => match parse_current_temp(tfrag) {
                None => Err(ParseError::MalformedNumber),
                Some(current) => match parse_real_feel(rfrag) {
                    None => Err(ParseError::MalformedNumber),
                    Some(real_feel) => Ok((current, real_feel)),
                },
            },
        },
    }
}

/// A text with no tag-opening byte passes tag stripping unchanged.
pub proof fn lemma_strip_tags_absent(s: Seq<u8>)
    requires
        forall|i: int| 0 <= i < s.len() ==> s[i] != 60,
    ensures
        strip_tags(s) == s,
    decreases s.len(),
{
    if s.len() == 0 {
        assert(strip_tags(s) =~= s);
    } else {
        lemma_strip_tags_absent(s.skip(1));
        assert(seq![s[0]] + s.skip(1) =~= s);
    }
}

/// A text with no lead byte of the degree glyph passes degree stripping
/// unchanged.
pub proof fn lemma_strip_degree_absent(s: Seq<u8>)
    requires
        forall|i: int| 0 <= i < s.len() ==> s[i] != 194,
    ensures
        strip_degree_from(s) == s,
    decreases s.len(),
{
    if s.len() == 0 {
        assert(strip_degree_from(s) =~= s);
    } else {
        lemma_strip_degree_absent(s.skip(1));
        assert(seq![s[0]] + s.skip(1) =~= s);
    }
}

/// Degree stripping removes one glyph after a clean prefix and goes on.
pub proof fn lemma_strip_degree_split(a: Seq<u8>, b: Seq<u8>)
    requires
        forall|i: int| 0 <= i < a.len() ==> a[i] != 194,
    ensures
        strip_degree_from(a + seq![194u8, 176] + b) == a + strip_degree_from(b),
    decreases a.len(),
{
    let s = a + seq![194u8, 176] + b;
    if a.len() == 0 {
        assert(s[0] == 194 && s[1] == 176);
        assert(s.skip(2) =~= b);
        assert(Seq::<u8>::empty() + strip_degree_from(b) =~= strip_degree_from(b));
    } else {
        assert(s[0] == a[0]);
        assert(s.len() >= 2 ==> s[0] != 194);
        lemma_strip_degree_split(a.skip(1), b);
        assert(s.skip(1) =~= a.skip(1) + seq![194u8, 176] + b);
        assert(seq![a[0]] + (a.skip(1) + strip_degree_from(b)) =~= a + strip_degree_from(b));
    }
}

/// A text with no whitespace byte passes whitespace stripping unchanged.
pub proof fn lemma_strip_ws_absent(s: Seq<u8>)
    requires
        forall|i: int| 0 <= i < s.len() ==> !is_ws(s[i]),
    ensures
        strip_ws(s) == s,
    decreases s.len(),
{
    if s.len() == 0 {
        assert(strip_ws(s) =~= s);
    } else {
        lemma_strip_ws_absent(s.skip(1));
        assert(seq![s[0]] + s.skip(1) =~= s);
    }
}

/// Removes tags from `s`.
fn strip_tags_vec(s: &[u8]) -> (out: Vec<u8>)
    ensures
        out@ == strip_tags(s@),
{
    let mut out: Vec<u8> = Vec::new();
    let mut in_tag = false;
    let mut i: usize = 0;
    proof {
        assert(s@.skip(0) =~= s@);
        assert(Seq::<u8>::empty() + strip_tags_from(s@, false) =~= strip_tags_from(s@, false));
    }
    while i < s.len()
        invariant
            i <= s@.len(),
            out@ + strip_tags_from(s@.skip(i as int), in_tag) == strip_tags(s@),
        decreases s@.len() - i,
    {
        let b = s[i];
        proof {
            assert(s@.skip(i as int)[0] == b);
            assert(s@.skip(i as int).skip(1) =~= s@.skip(i as int + 1));
        }
        let ghost prev = out@;
        if in_tag {
            in_tag = b != 62;
        } else if b == 60 {
            in_tag = true;
        } else {
            out.push(b);
            proof {
                assert(out@ + strip_tags_from(s@.skip(i as int + 1), false) =~= prev + (seq![b]
                    + strip_tags_from(s@.skip(i as int + 1), false)));
            }
        }
        i = i + 1;
    }
    proof {
        assert(s@.skip(s@.len() as int) =~= Seq::<u8>::empty());
        assert(out@ + Seq::<u8>::empty() =~= out@);
    }
    out
}

/// Removes degree glyphs from `s`.
fn strip_degree_vec(s: &[u8]) -> (out: Vec<u8>)
    ensures
        out@ == strip_degree_from(s@),
{
    let mut out: Vec<u8> = Vec::new();
    let mut i: usize = 0;
    proof {
        assert(s@.skip(0) =~= s@);
        assert(Seq::<u8>::empty() + strip_degree_from(s@) =~= strip_degree_from(s@));
    }
    while i < s.len()
        invariant
            i <= s@.len(),
            out@ + strip_degree_from(s@.skip(i as int)) == strip_degree_from(s@),
        decreases s@.len() - i,
    {
        let b = s[i];
        proof {
            assert(s@.skip(i as int)[0] == b);
            assert(s@.skip(i as int).skip(1) =~= s@.skip(i as int + 1));
        }
        let ghost prev = out@;
        if s.len() - i >= 2 && b == 194 && s[i + 1] == 176 {
            proof {
                assert(s@.skip(i as int)[1] == s@[i as int + 1]);
                assert(s@.skip(i as int).skip(2) =~= s@.skip(i as int + 2));
            }
            i = i + 2;
        } else {
            out.push(b);
            proof {
                assert(out@ + strip_degree_from(s@.skip(i as int + 1)) =~= prev + (seq![b]
                    + strip_degree_from(s@.skip(i as int + 1))));
                if s@.skip(i as int).len() >= 2 && b == 194 && s@.skip(i as int)[1] == 176 {
                    assert(s@[i as int + 1] == s@.skip(i as int)[1]);
                }
            }
            i = i + 1;
        }
    }
    proof {
        assert(s@.skip(s@.len() as int) =~= Seq::<u8>::empty());
        assert(out@ + Seq::<u8>::empty() =~= out@);
    }
    out
}

/// Removes whitespace bytes from `s`.
fn strip_ws_vec(s: &[u8]) -> (out: Vec<u8>)
    ensures
        out@ == strip_ws(s@),
{
    let mut out: Vec<u8> = Vec::new();
    let mut i: usize = 0;
    proof {
        assert(s@.skip(0) =~= s@);
        assert(Seq::<u8>::empty() + strip_ws(s@) =~= strip_ws(s@));
    }
    while i < s.len()
        invariant
            i <= s@.len(),
            out@ + strip_ws(s@.skip(i as int)) == strip_ws(s@),
        decreases s@.len() - i,
    {
        let b = s[i];
        proof {
            assert(s@.skip(i as int)[0] == b);
            assert(s@.skip(i as int).skip(1) =~= s@.skip(i as int + 1));
        }
        let ghost prev = out@;
        if !(b == 32 || b == 9 || b == 10 || b == 13) {
            out.push(b);
            proof {
                assert(out@ + strip_ws(s@.skip(i as int + 1)) =~= prev + (seq![b] + strip_ws(
                    s@.skip(i as int + 1),
                )));
            }
        }
        i = i + 1;
    }
    proof {
        assert(s@.skip(s@.len() as int) =~= Seq::<u8>::empty());
        assert(out@ + Seq::<u8>::empty() =~= out@);
    }
    out
}

proof fn lemma_ws_run_end(s: Seq<u8>, i: nat, j: nat)
    requires
        i <= j <= s.len(),
        forall|m: int| i <= m < j ==> is_ws(s[m]),
        j == s.len() || !is_ws(s[j as int]),
    ensures
        ws_run_end(s, i) == j,
    decreases j - i,
{
    if i < j {
        lemma_ws_run_end(s, i + 1, j);
    }
}

proof fn lemma_token_end(s: Seq<u8>, i: nat, j: nat)
    requires
        i <= j <= s.len(),
        forall|m: int| i <= m < j ==> !is_ws(s[m]),
        j == s.len() || is_ws(s[j as int]),
    ensures
        token_end(s, i) == j,
    decreases j - i,
{
    if i < j {
        lemma_token_end(s, i + 1, j);
    }
}

/// Scans to the end of the whitespace run starting at `i`.
fn scan_ws_end(s: &[u8], i: usize) -> (j: usize)
    requires
        i <= s@.len(),
    ensures
        i <= j <= s@.len(),
        j as int == ws_run_end(s@, i as nat),
{
    let mut j = i;
    while j < s.len()
        invariant
            i <= j <= s@.len(),
            forall|m: int| i <= m < j ==> is_ws(s@[m]),
        decreases s@.len() - j,
    {
        let b = s[j];
        if !(b == 32 || b == 9 || b == 10 || b == 13) {
            proof {
                lemma_ws_run_end(s@, i as nat, j as nat);
            }
            return j;
        }
        j += 1;
    }
    proof {
        lemma_ws_run_end(s@, i as nat, j as nat);
    }
    j
}

/// Scans to the end of the non-whitespace run starting at `i`.
fn scan_token_end(s: &[u8], i: usize) -> (j: usize)
    requires
        i <= s@.len(),
    ensures
        i <= j <= s@.len(),
        j as int == token_end(s@, i as nat),
{
    let mut j = i;
    while j < s.len()
        invariant
            i <= j <= s@.len(),
            forall|m: int| i <= m < j ==> !is_ws(s@[m]),
        decreases s@.len() - j,
    {
        let b = s[j];
        if b == 32 || b == 9 || b == 10 || b == 13 {
            proof {
                lemma_token_end(s@, i as nat, j as nat);
            }
            return j;
        }
        j += 1;
    }
    proof {
        lemma_token_end(s@, i as nat, j as nat);
    }
    j
}

/// A `Some` answer of `find_sub_from` is a real in-bounds occurrence.
proof fn lemma_find_sub_props(s: Seq<u8>, pat: Seq<u8>, i: nat)
    requires
        pat.len() >= 1,
    ensures
        find_sub_from(s, pat, i) matches Some(j) ==> i <= j && j + pat.len() <= s.len()
            && s.subrange(j, j + pat.len() as int) == pat,
    decreases s.len() - i,
{
    if pat.len() == 0 {
    } else if i + pat.len() > s.len() {
    } else if s.subrange(i as int, (i + pat.len()) as int) == pat {
    } else {
        lemma_find_sub_props(s, pat, i + 1);
    }
}

/// A scan that saw no occurrence before `j` and stopped at `j` pins
/// `find_sub_from` down.
proof fn lemma_find_sub_range(s: Seq<u8>, pat: Seq<u8>, from: nat, j: nat)
    requires
        1 <= pat.len() <= s.len(),
        from <= j,
        j + pat.len() <= s.len() + 1,
        forall|m: int| from <= m < j ==> #[trigger] s.subrange(m, m + pat.len() as int) != pat,
        j + pat.len() > s.len() || s.subrange(j as int, j + pat.len() as int) == pat,
    ensures
        find_sub_from(s, pat, from) == if j + pat.len() > s.len() {
            None::<int>
        } else {
            Some(j as int)
        },
    decreases j - from,
{
    if from < j {
        lemma_find_sub_range(s, pat, from + 1, j);
    }
}

/// Finds the first occurrence of `pat` in `s`.
fn find_label(s: &[u8], pat: &Vec<u8>) -> (r: Option<usize>)
    requires
        pat@.len() >= 1,
    ensures
        match r {
            Some(i) => find_sub_from(s@, pat@, 0) == Some(i as int),
            None => find_sub_from(s@, pat@, 0) is None,
        },
{
    if pat.len() > s.len() {
        return None;
    }
    let limit = s.len() - pat.len();
    let mut i: usize = 0;
    while i <= limit
        invariant
            i <= limit + 1,
            limit == s@.len() - pat@.len(),
            pat@.len() <= s@.len(),
            forall|m: int| 0 <= m < i ==> #[trigger] s@.subrange(m, m + pat@.len() as int) != pat@,
        decreases limit + 1 - i,
    {
        if match_lit(s, i, pat) {
            proof {
                lemma_find_sub_range(s@, pat@, 0, i as nat);
            }
            return Some(i);
        }
        proof {
            assert(i + pat@.len() <= s@.len());
            assert(!lit_at(s@, i as int, pat@));
            assert(s@.subrange(i as int, i + pat@.len() as int) != pat@);
        }
        i += 1;
    }
    proof {
        lemma_find_sub_range(s@, pat@, 0, (limit + 1) as nat);
    }
    None
}

/// The feels-like label as bytes.
fn real_feel_label_vec() -> (v: Vec<u8>)
    ensures
        v@ == real_feel_label(),
{
    let mut v: Vec<u8> = Vec::new();
    v.push(82);
    v.push(101);
    v.push(97);
    v.push(108);
    v.push(70);
    v.push(101);
    v.push(101);
    v.push(108);
    v.push(194);
    v.push(174);
    proof {
        assert(v@ =~= real_feel_label());
    }
    v
}

/// Normalizes and parses a current-temperature fragment.
pub fn temp_number(frag: &[u8]) -> (r: Option<TempValue>)
    ensures
        r == parse_current_temp(frag@),
        r matches Some(v) ==> v.wf(),
{
    let t = strip_tags_vec(frag);
    let ts = t.as_slice();
    let a = scan_ws_end(ts, 0);
    let b = scan_token_end(ts, a);
    let tok = strip_degree_vec(&ts[a..b]);
    parse_decimal(tok.as_slice())
}

/// Normalizes and parses a feels-like fragment.
pub fn real_temp_number(frag: &[u8]) -> (r: Option<TempValue>)
    ensures
        r == parse_real_feel(frag@),
        r matches Some(v) ==> v.wf(),
{
    let t = strip_tags_vec(frag);
    let label = real_feel_label_vec();
    let ts = t.as_slice();
    let tl: usize = ts.len();
    match find_label(ts, &label) {
        None => None,
        Some(i) => {
            proof {
                lemma_find_sub_props(t@, real_feel_label(), 0);
                assert(ts@.subrange(i + label@.len() as int, ts@.len() as int) =~= t@.skip(
                    i + real_feel_label().len() as int,
                ));
            }
            proof {
                assert(i + label@.len() <= tl);
            }
            let rest = &ts[i + label.len()..tl];
            let tok1 = strip_degree_vec(rest);
            let tok = strip_ws_vec(tok1.as_slice());
            parse_decimal(tok.as_slice())
        },
    }
}

/// A document where either marker selects nothing extracts to
/// `MissingFragment`, whatever the other fragment holds: a
/// partially-populated result does not exist.
pub proof fn lemma_missing_fragment_fails(html: Seq<char>)
    requires
        scraped_fragment(html, "div.temp"@) is None || scraped_fragment(html, "div.real-feel"@)
            is None,
    ensures
        extract_spec(html) == Err::<(TempValue, TempValue), ParseError>(
            ParseError::MissingFragment,
        ),
{
}

/// A document whose current-temperature marker selects `17.2` followed by
/// a degree glyph, and whose feels-like marker selects the feels-like
/// label, a space, `15` and a degree glyph, extracts to exactly seventeen
/// point two and fifteen — whatever else the document holds.
pub proof fn lemma_example_extraction(html: Seq<char>)
    requires
        scraped_fragment(html, "div.temp"@) == Some(seq![49u8, 55, 46, 50, 194, 176]),
        scraped_fragment(html, "div.real-feel"@) == Some(
            seq![82u8, 101, 97, 108, 70, 101, 101, 108, 194, 174, 32, 49, 53, 194, 176],
        ),
    ensures
        extract_spec(html) == Ok::<(TempValue, TempValue), ParseError>(
            (
                TempValue { neg: false, whole: 17, frac: 2, scale: 1 },
                TempValue { neg: false, whole: 15, frac: 0, scale: 0 },
            ),
        ),
{
    let frag1 = seq![49u8, 55, 46, 50, 194, 176];
    let frag2 = seq![82u8, 101, 97, 108, 70, 101, 101, 108, 194, 174, 32, 49, 53, 194, 176];
    // The current-temperature fragment: no tags, the whole text is one
    // token, and the degree glyph drops off the numeric payload.
    lemma_strip_tags_absent(frag1);
    lemma_token_end(frag1, 0, 6);
    assert(frag1.subrange(0, 6) =~= frag1);
    assert(frag1 =~= seq![49u8, 55, 46, 50] + seq![194u8, 176] + Seq::<u8>::empty());
    lemma_strip_degree_split(seq![49u8, 55, 46, 50], Seq::<u8>::empty());
    assert(strip_degree_from(Seq::<u8>::empty()) =~= Seq::<u8>::empty());
    assert(seq![49u8, 55, 46, 50] + Seq::<u8>::empty() =~= seq![49u8, 55, 46, 50]);
    assert(current_temp_token(frag1) == seq![49u8, 55, 46, 50]);
    // `17.2` under the decimal grammar.
    let tok1 = seq![49u8, 55, 46, 50];
    lemma_find_byte_range(tok1, 46, 0, 2);
    assert(tok1.take(2) =~= seq![49u8, 55]);
    assert(tok1.skip(3) =~= seq![50u8]);
    assert(seq![49u8, 55].drop_last() =~= seq![49u8]);
    assert(seq![49u8].drop_last() =~= Seq::<u8>::empty());
    assert(digits_val(Seq::<u8>::empty()) == 0);
    assert(seq![49u8].last() == 49u8);
    assert(seq![49u8, 55].last() == 55u8);
    assert(digits_val(seq![49u8]) == 1);
    assert(digits_val(seq![49u8, 55]) == 17);
    assert(seq![50u8].drop_last() =~= Seq::<u8>::empty());
    assert(seq![50u8].last() == 50u8);
    assert(digits_val(seq![50u8]) == 2);
    assert(parse_current_temp(frag1) == Some(TempValue { neg: false, whole: 17, frac: 2, scale: 1 }));
    // The feels-like fragment: the label stands first, then a space, the
    // number, and a degree glyph.
    lemma_strip_tags_absent(frag2);
    assert(frag2.subrange(0, 10) =~= real_feel_label());
    assert(find_sub_from(frag2, real_feel_label(), 0) == Some(0int));
    assert(frag2.skip(10) =~= seq![32u8, 49, 53, 194, 176]);
    assert(seq![32u8, 49, 53, 194, 176] =~= seq![32u8, 49, 53] + seq![194u8, 176]
        + Seq::<u8>::empty());
    lemma_strip_degree_split(seq![32u8, 49, 53], Seq::<u8>::empty());
    assert(seq![32u8, 49, 53] + Seq::<u8>::empty() =~= seq![32u8, 49, 53]);
    assert(seq![32u8, 49, 53].skip(1) =~= seq![49u8, 53]);
    lemma_strip_ws_absent(seq![49u8, 53]);
    assert(strip_ws(seq![32u8, 49, 53]) == seq![49u8, 53]);
    assert(real_feel_token(frag2) == Some(seq![49u8, 53]));
    // `15` under the decimal grammar.
    let tok2 = seq![49u8, 53];
    lemma_find_byte_range(tok2, 46, 0, 2);
    assert(seq![49u8, 53].drop_last() =~= seq![49u8]);
    assert(seq![49u8, 53].last() == 53u8);
    assert(digits_val(seq![49u8]) == 1);
    assert(digits_val(seq![49u8, 53]) == 15);
    assert(parse_real_feel(frag2) == Some(TempValue { neg: false, whole: 15, frac: 0, scale: 0 }));
}

/// Locates both temperature fragments in a document and parses them.
/// Fails with `MissingFragment` when either marker matches nothing, and
/// with `MalformedNumber` when a located payload does not parse; a partial
/// result is never returned.
pub fn find_temps_in_html(html: &str) -> (r: Result<(TempValue, TempValue), ParseError>)
    ensures
        r == extract_spec(html@),
        r matches Ok(p) ==> p.0.wf() && p.1.wf(),
{
    let tfrag = match select_first_inner_html(html, "div.temp") {
        Some(v) => v,
        None => {
            return Err(ParseError::MissingFragment);
        },
    };
    let rfrag = match select_first_inner_html(html, "div.real-feel") {
        Some(v) => v,
        None => {
            return Err(ParseError::MissingFragment);
        },
    };
    let current = match temp_number(tfrag.as_slice()) {
        Some(v) => v,
        None => {
            return Err(ParseError::MalformedNumber);
        },
    };
    let real_feel = match real_temp_number(rfrag.as_slice()) {
        Some(v) => v,
        None => {
            return Err(ParseError::MalformedNumber);
        },
    };
    Ok((current, real_feel))
}

} // verus!
