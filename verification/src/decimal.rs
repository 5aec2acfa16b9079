//! Signed decimal temperature values.
//!
//! A scraped temperature is kept as a plain decimal number: an optional sign,
//! an integer part, and a bounded run of fraction digits.  The module proves
//! that printing a well-formed value and parsing the printed bytes gives the
//! value back, which is what the cache codec builds on.

use vstd::prelude::*;

verus! {

/// Byte values of the characters the decimal grammar uses.
pub const MINUS_BYTE: u8 = 45;

pub const DOT_BYTE: u8 = 46;

pub const ZERO_BYTE: u8 = 48;

/// The largest number of fraction digits a value may carry.
pub const MAX_FRACTION_DIGITS: u32 = 9;

/// A temperature reading as a signed decimal: the value reads
/// `whole.frac` with exactly `scale` fraction digits, negated when `neg`
/// is set.  `scale == 0` means no fraction part at all.
#[derive(Clone, Copy, Debug, PartialEq, Eq, Structural)]
pub struct TempValue {
    pub neg: bool,
    pub whole: u64,
    pub frac: u64,
    pub scale: u32,
}

pub open spec fn pow10(k: nat) -> nat
    decreases k,
{
    if k == 0 {
        1
    } else {
        10 * pow10((k - 1) as nat)
    }
}

impl TempValue {
    /// Well-formed: the fraction digits fit the declared scale.
    pub open spec fn wf(self) -> bool {
        self.scale <= MAX_FRACTION_DIGITS && (self.frac as nat) < pow10(self.scale as nat)
    }

    pub open spec fn zero_spec() -> TempValue {
        TempValue { neg: false, whole: 0, frac: 0, scale: 0 }
    }

    /// The canonical zero reading, used for degraded results.
    pub fn zero() -> (v: TempValue)
        ensures
            v == TempValue::zero_spec(),
            v.wf(),
    {
        TempValue { neg: false, whole: 0, frac: 0, scale: 0 }
    }
}

pub open spec fn is_digit(b: u8) -> bool {
    ZERO_BYTE <= b && b <= 57
}

pub open spec fn digit_val(b: u8) -> nat
    recommends
        is_digit(b),
{
    (b - ZERO_BYTE) as nat
}

pub open spec fn all_digits(s: Seq<u8>) -> bool {
    forall|i: int| 0 <= i < s.len() ==> is_digit(s[i])
}

/// The number denoted by a digit string, most significant digit first.
pub open spec fn digits_val(s: Seq<u8>) -> nat
    decreases s.len(),
{
    if s.len() == 0 {
        0
    } else {
        digits_val(s.drop_last()) * 10 + digit_val(s.last())
    }
}

/// The decimal digits of `n`, most significant first, no leading zeros
/// (except for `n == 0`, printed as one zero digit).
pub open spec fn dec_digits(n: nat) -> Seq<u8>
    decreases n,
{
    if n < 10 {
        seq![(ZERO_BYTE + n) as u8]
    } else {
        dec_digits(n / 10).push((ZERO_BYTE + n % 10) as u8)
    }
}

/// The low `k` decimal digits of `f`, zero-padded to exactly `k` digits.
pub open spec fn frac_digit_bytes(f: nat, k: nat) -> Seq<u8>
    decreases k,
{
    if k == 0 {
        Seq::empty()
    } else {
        frac_digit_bytes(f / 10, (k - 1) as nat).push((ZERO_BYTE + f % 10) as u8)
    }
}

/// The printed form of a value: sign, integer digits, then a dot and the
/// padded fraction digits when the scale is positive.
pub open spec fn decimal_bytes(v: TempValue) -> Seq<u8> {
    (if v.neg {
        seq![MINUS_BYTE]
    } else {
        Seq::<u8>::empty()
    }) + dec_digits(v.whole as nat) + (if v.scale == 0 {
        Seq::<u8>::empty()
    } else {
        seq![DOT_BYTE] + frac_digit_bytes(v.frac as nat, v.scale as nat)
    })
}

pub proof fn lemma_dec_digits(n: nat)
    ensures
        dec_digits(n).len() >= 1,
        all_digits(dec_digits(n)),
        digits_val(dec_digits(n)) == n,
    decreases n,
{
    if n < 10 {
        let s = dec_digits(n);
        assert(s.drop_last() =~= Seq::<u8>::empty());
        assert(digits_val(Seq::<u8>::empty()) == 0);
        assert(s.last() == (ZERO_BYTE + n) as u8);
        assert(digit_val((ZERO_BYTE + n) as u8) == n);
        assert(digits_val(s) == digits_val(s.drop_last()) * 10 + digit_val(s.last()));
    } else {
        lemma_dec_digits(n / 10);
        let p = dec_digits(n / 10);
        let s = p.push((ZERO_BYTE + n % 10) as u8);
        assert(s.drop_last() =~= p);
        assert(s.last() == (ZERO_BYTE + n % 10) as u8);
        assert(digit_val((ZERO_BYTE + n % 10) as u8) == n % 10);
        assert((n / 10) * 10 + n % 10 == n) by (nonlinear_arith);
        assert forall|i: int| 0 <= i < s.len() implies is_digit(s[i]) by {
            if i < p.len() {
                assert(s[i] == p[i]);
            }
        }
    }
}

pub proof fn lemma_frac_digit_bytes(f: nat, k: nat)
    requires
        f < pow10(k),
    ensures
        frac_digit_bytes(f, k).len() == k,
        all_digits(frac_digit_bytes(f, k)),
        digits_val(frac_digit_bytes(f, k)) == f,
    decreases k,
{
    if k == 0 {
    } else {
        assert(pow10(k) == 10 * pow10((k - 1) as nat));
        assert(f / 10 < pow10((k - 1) as nat)) by (nonlinear_arith)
            requires
                f < 10 * pow10((k - 1) as nat),
        ;
        lemma_frac_digit_bytes(f / 10, (k - 1) as nat);
        let p = frac_digit_bytes(f / 10, (k - 1) as nat);
        let s = p.push((ZERO_BYTE + f % 10) as u8);
        assert(s.drop_last() =~= p);
        assert(s.last() == (ZERO_BYTE + f % 10) as u8);
        assert(digit_val((ZERO_BYTE + f % 10) as u8) == f % 10);
        assert((f / 10) * 10 + f % 10 == f) by (nonlinear_arith);
        assert forall|i: int| 0 <= i < s.len() implies is_digit(s[i]) by {
            if i < p.len() {
                assert(s[i] == p[i]);
            }
        }
    }
}

pub proof fn lemma_digits_val_bound(s: Seq<u8>)
    requires
        all_digits(s),
    ensures
        digits_val(s) < pow10(s.len()),
    decreases s.len(),
{
    if s.len() == 0 {
    } else {
        lemma_digits_val_bound(s.drop_last());
        let a = digits_val(s.drop_last());
        let p = pow10((s.len() - 1) as nat);
        assert(is_digit(s.last()));
        assert(a * 10 + digit_val(s.last()) < 10 * p) by (nonlinear_arith)
            requires
                a < p,
                digit_val(s.last()) <= 9,
        ;
    }
}

/// Extending a digit string on the right never shrinks its value.
pub proof fn lemma_digits_val_prefix_mono(s: Seq<u8>, i: int, j: int)
    requires
        0 <= i <= j <= s.len(),
    ensures
        digits_val(s.take(i)) <= digits_val(s.take(j)),
    decreases j - i,
{
    if i < j {
        assert(s.take(i + 1).drop_last() =~= s.take(i));
        assert(digits_val(s.take(i + 1)) == digits_val(s.take(i)) * 10 + digit_val(s[i]));
        assert(digits_val(s.take(i)) * 10 >= digits_val(s.take(i)));
        lemma_digits_val_prefix_mono(s, i + 1, j);
    }
}

/// First index at or after `i` where byte `b` occurs in `s`, if any.
pub open spec fn find_byte_from(s: Seq<u8>, b: u8, i: nat) -> Option<int>
    decreases s.len() - i,
{
    if i >= s.len() {
        None
    } else if s[i as int] == b {
        Some(i as int)
    } else {
        find_byte_from(s, b, i + 1)
    }
}

/// `find_byte_from` returns the first hit: a scan that saw no `b` before
/// `j` and stopped at `j` pins the result down.
pub proof fn lemma_find_byte_range(s: Seq<u8>, b: u8, from: nat, j: nat)
    requires
        from <= j <= s.len(),
        forall|m: int| from <= m < j ==> s[m] != b,
        j == s.len() || s[j as int] == b,
    ensures
        find_byte_from(s, b, from) == if j == s.len() {
            None::<int>
        } else {
            Some(j as int)
        },
    decreases j - from,
{
    if from < j {
        lemma_find_byte_range(s, b, from + 1, j);
    }
}

/// The decimal grammar: an optional minus sign, one or more integer digits,
/// then optionally a dot and one to `MAX_FRACTION_DIGITS` fraction digits.
/// Rejects anything else, and integer parts beyond the machine word.
pub open spec fn parse_decimal_s(s: Seq<u8>) -> Option<TempValue> {
    let neg = s.len() > 0 && s[0] == MINUS_BYTE;
    let t = if neg {
        s.skip(1)
    } else {
        s
    };
    match find_byte_from(t, DOT_BYTE, 0) {
        None => {
            if t.len() >= 1 && all_digits(t) && digits_val(t) <= u64::MAX {
                Some(TempValue { neg, whole: digits_val(t) as u64, frac: 0, scale: 0 })
            } else {
                None
            }
        },
        Some(i) => {
            let w = t.take(i);
            let f = t.skip(i + 1);
            if w.len() >= 1 && f.len() >= 1 && f.len() <= MAX_FRACTION_DIGITS && all_digits(w)
                && all_digits(f) && digits_val(w) <= u64::MAX {
                Some(
                    TempValue {
                        neg,
                        whole: digits_val(w) as u64,
                        frac: digits_val(f) as u64,
                        scale: f.len() as u32,
                    },
                )
            } else {
                None
            }
        },
    }
}

/// A `Some` answer of `find_byte_from` is a real occurrence at or after `i`.
pub proof fn lemma_find_byte_from_props(s: Seq<u8>, b: u8, i: nat)
    ensures
        find_byte_from(s, b, i) matches Some(j) ==> i <= j < s.len() && s[j] == b,
    decreases s.len() - i,
{
    if i >= s.len() {
    } else if s[i as int] == b {
    } else {
        lemma_find_byte_from_props(s, b, i + 1);
    }
}

pub proof fn lemma_pow10_max_frac()
    ensures
        pow10(MAX_FRACTION_DIGITS as nat) == 1000000000,
{
    assert(pow10(0) == 1);
    assert(pow10(1) == 10);
    assert(pow10(2) == 100);
    assert(pow10(3) == 1000);
    assert(pow10(4) == 10000);
    assert(pow10(5) == 100000);
    assert(pow10(6) == 1000000);
    assert(pow10(7) == 10000000);
    assert(pow10(8) == 100000000);
    assert(pow10(9) == 1000000000);
}

/// A digit string within the fraction-digit cap denotes a machine word.
pub proof fn lemma_small_digits_fit(s: Seq<u8>)
    requires
        all_digits(s),
        s.len() <= MAX_FRACTION_DIGITS,
    ensures
        digits_val(s) <= u64::MAX,
        digits_val(s) < pow10(s.len()),
{
    lemma_digits_val_bound(s);
    lemma_pow10_mono(s.len(), MAX_FRACTION_DIGITS as nat);
    lemma_pow10_max_frac();
}

pub proof fn lemma_parse_decimal_wf(s: Seq<u8>)
    ensures
        parse_decimal_s(s) matches Some(v) ==> v.wf(),
{
    let neg = s.len() > 0 && s[0] == MINUS_BYTE;
    let t = if neg {
        s.skip(1)
    } else {
        s
    };
    lemma_find_byte_from_props(t, DOT_BYTE, 0);
    match find_byte_from(t, DOT_BYTE, 0) {
        None => {
            assert(pow10(0) == 1);
        },
        Some(i) => {
            let f = t.skip(i + 1);
            if f.len() >= 1 && f.len() <= MAX_FRACTION_DIGITS && all_digits(f) {
                lemma_small_digits_fit(f);
            }
            assert(pow10(0) == 1);
        },
    }
}

pub proof fn lemma_pow10_mono(a: nat, b: nat)
    requires
        a <= b,
    ensures
        pow10(a) <= pow10(b),
    decreases b,
{
    if a < b {
        lemma_pow10_mono(a, (b - 1) as nat);
        assert(pow10(b) == 10 * pow10((b - 1) as nat));
    }
}

/// Appends the decimal digits of `n` to `out`.
fn push_u64_digits(out: &mut Vec<u8>, n: u64)
    ensures
        final(out)@ == old(out)@ + dec_digits(n as nat),
    decreases n,
{
    if n < 10 {
        out.push(ZERO_BYTE + n as u8);
        proof {
            assert(out@ =~= old(out)@ + dec_digits(n as nat));
        }
    } else {
        push_u64_digits(out, n / 10);
        out.push(ZERO_BYTE + (n % 10) as u8);
        proof {
            assert(out@ =~= old(out)@ + dec_digits(n as nat));
        }
    }
}

/// Appends exactly `k` fraction digits of `f`, zero-padded on the left.
fn push_frac_digits(out: &mut Vec<u8>, f: u64, k: u32)
    ensures
        final(out)@ == old(out)@ + frac_digit_bytes(f as nat, k as nat),
    decreases k,
{
    if k > 0 {
        push_frac_digits(out, f / 10, k - 1);
        out.push(ZERO_BYTE + (f % 10) as u8);
        proof {
            assert(out@ =~= old(out)@ + frac_digit_bytes(f as nat, k as nat));
        }
    } else {
        proof {
            assert(out@ =~= old(out)@ + frac_digit_bytes(f as nat, k as nat));
        }
    }
}

/// Appends the printed form of `v` to `out`.
pub fn push_decimal(out: &mut Vec<u8>, v: TempValue)
    ensures
        final(out)@ == old(out)@ + decimal_bytes(v),
{
    if v.neg {
        out.push(MINUS_BYTE);
    }
    push_u64_digits(out, v.whole);
    if v.scale > 0 {
        out.push(DOT_BYTE);
        push_frac_digits(out, v.frac, v.scale);
    }
    proof {
        assert(out@ =~= old(out)@ + decimal_bytes(v));
    }
}

/// Scans `s` from `from` for the first occurrence of `b`.
fn find_byte(s: &[u8], from: usize, b: u8) -> (r: Option<usize>)
    requires
        from <= s@.len(),
    ensures
        find_byte_from(s@, b, from as nat) == match r {
            Some(j) => Some(j as int),
            None => None::<int>,
        },
        r matches Some(j) ==> from <= j < s@.len() && s@[j as int] == b,
{
    let mut i = from;
    while i < s.len()
        invariant
            from <= i <= s@.len(),
            forall|m: int| from <= m < i ==> s@[m] != b,
        decreases s@.len() - i,
    {
        if s[i] == b {
            proof {
                lemma_find_byte_range(s@, b, from as nat, i as nat);
            }
            return Some(i);
        }
        i = i + 1;
    }
    proof {
        lemma_find_byte_range(s@, b, from as nat, s@.len() as nat);
    }
    None
}

/// Parses the digit run `s[from..to]` into a number; `None` when a byte is
/// not a digit or the value does not fit a machine word.
fn parse_digits(s: &[u8], from: usize, to: usize) -> (r: Option<u64>)
    requires
        from <= to <= s@.len(),
    ensures
        match r {
            Some(v) => all_digits(s@.subrange(from as int, to as int)) && v as nat == digits_val(
                s@.subrange(from as int, to as int),
            ),
            None => !(all_digits(s@.subrange(from as int, to as int)) && digits_val(
                s@.subrange(from as int, to as int),
            ) <= u64::MAX),
        },
{
    let ghost t = s@.subrange(from as int, to as int);
    let mut acc: u64 = 0;
    let mut i = from;
    while i < to
        invariant
            from <= i <= to,
            acc as nat == digits_val(t.take(i - from)),
            all_digits(t.take(i - from)),
        decreases to - i,
    {
        let b = s[i];
        if b < ZERO_BYTE || b > 57 {
            proof {
                assert(t[i - from] == b);
                assert(!all_digits(t));
            }
            return None;
        }
        let d = b - ZERO_BYTE;
        proof {
            assert(t.take(i - from + 1).drop_last() =~= t.take(i - from));
            assert(t.take(i - from + 1).last() == b);
        }
        if acc > (u64::MAX - d as u64) / 10 {
            proof {
                let a = acc as nat;
                assert(a * 10 + digit_val(b) > u64::MAX) by (nonlinear_arith)
                    requires
                        a > (u64::MAX - d as u64) / 10,
                        digit_val(b) == d as nat,
                        d < 10,
                ;
                assert(digits_val(t.take(i - from + 1)) > u64::MAX);
                lemma_digits_val_prefix_mono(t, i - from + 1, t.len() as int);
                assert(t.take(t.len() as int) =~= t);
            }
            return None;
        }
        proof {
            let a = acc as nat;
            assert(a * 10 + d as nat <= u64::MAX) by (nonlinear_arith)
                requires
                    a <= (u64::MAX - d as u64) / 10,
                    d < 10,
            ;
        }
        acc = acc * 10 + d as u64;
        i = i + 1;
    }
    proof {
        assert(t.take(t.len() as int) =~= t);
    }
    Some(acc)
}

/// Parses a full decimal token; the result is exactly what the grammar
/// `parse_decimal_s` accepts, and is always well-formed.
pub fn parse_decimal(s: &[u8]) -> (r: Option<TempValue>)
    ensures
        r == parse_decimal_s(s@),
        r matches Some(v) ==> v.wf(),
{
    proof {
        lemma_parse_decimal_wf(s@);
    }
    let len = s.len();
    let (neg, start): (bool, usize) = if len > 0 && s[0] == MINUS_BYTE {
        (true, 1)
    } else {
        (false, 0)
    };
    let ghost t = if neg {
        s@.skip(1)
    } else {
        s@
    };
    proof {
        assert(t =~= s@.subrange(start as int, len as int));
        assert(s@.skip(0) =~= s@);
    }
    match find_byte(s, start, DOT_BYTE) {
        None => {
            proof {
                lemma_find_byte_shift(s@, DOT_BYTE, start as nat);
            }
            if len == start {
                return None;
            }
            match parse_digits(s, start, len) {
                Some(v) => Some(TempValue { neg, whole: v, frac: 0, scale: 0 }),
                None => None,
            }
        },
        Some(j) => {
            proof {
                lemma_find_byte_shift(s@, DOT_BYTE, start as nat);
                assert(t.take(j - start) =~= s@.subrange(start as int, j as int));
                assert(t.skip(j - start + 1) =~= s@.subrange(j + 1, len as int));
            }
            if j == start || len - (j + 1) < 1 || len - (j + 1) > MAX_FRACTION_DIGITS as usize {
                return None;
            }
            let w = parse_digits(s, start, j);
            let f = parse_digits(s, j + 1, len);
            proof {
                if all_digits(s@.subrange(j + 1, len as int)) {
                    lemma_small_digits_fit(s@.subrange(j + 1, len as int));
                }
            }
            match (w, f) {
                (Some(wv), Some(fv)) => Some(
                    TempValue { neg, whole: wv, frac: fv, scale: (len - (j + 1)) as u32 },
                ),
                _ => None,
            }
        },
    }
}

/// Searching a suffix is searching the whole from the cut point.
pub proof fn lemma_find_byte_shift(s: Seq<u8>, b: u8, k: nat)
    requires
        k <= s.len(),
    ensures
        find_byte_from(s, b, k) == match find_byte_from(s.skip(k as int), b, 0) {
            Some(j) => Some(j + k),
            None => None::<int>,
        },
{
    lemma_find_byte_shift_from(s, b, k, 0);
}

proof fn lemma_find_byte_shift_from(s: Seq<u8>, b: u8, k: nat, i: nat)
    requires
        k + i <= s.len(),
    ensures
        find_byte_from(s, b, k + i) == match find_byte_from(s.skip(k as int), b, i) {
            Some(j) => Some(j + k),
            None => None::<int>,
        },
    decreases s.len() - k - i,
{
    let u = s.skip(k as int);
    if i >= u.len() {
    } else {
        assert(u[i as int] == s[(k + i) as int]);
        if u[i as int] == b {
        } else {
            lemma_find_byte_shift_from(s, b, k, i + 1);
        }
    }
}

/// A byte that can appear in a printed decimal: a digit, the sign, the dot.
pub open spec fn is_number_byte(b: u8) -> bool {
    is_digit(b) || b == MINUS_BYTE || b == DOT_BYTE
}

proof fn lemma_frac_digits_are_digits(f: nat, k: nat)
    ensures
        frac_digit_bytes(f, k).len() == k,
        all_digits(frac_digit_bytes(f, k)),
    decreases k,
{
    if k != 0 {
        lemma_frac_digits_are_digits(f / 10, (k - 1) as nat);
        let p = frac_digit_bytes(f / 10, (k - 1) as nat);
        let s = p.push((ZERO_BYTE + f % 10) as u8);
        assert forall|i: int| 0 <= i < s.len() implies is_digit(s[i]) by {
            if i < p.len() {
                assert(s[i] == p[i]);
            }
        }
    }
}

/// Every byte of a printed decimal belongs to the number alphabet.
pub proof fn lemma_decimal_bytes_number(v: TempValue)
    ensures
        decimal_bytes(v).len() >= 1,
        forall|m: int|
            0 <= m < decimal_bytes(v).len() ==> is_number_byte(#[trigger] decimal_bytes(v)[m]),
{
    let s = decimal_bytes(v);
    let a: Seq<u8> = if v.neg {
        seq![MINUS_BYTE]
    } else {
        Seq::<u8>::empty()
    };
    let w = dec_digits(v.whole as nat);
    let b: Seq<u8> = if v.scale == 0 {
        Seq::<u8>::empty()
    } else {
        seq![DOT_BYTE] + frac_digit_bytes(v.frac as nat, v.scale as nat)
    };
    lemma_dec_digits(v.whole as nat);
    lemma_frac_digits_are_digits(v.frac as nat, v.scale as nat);
    assert forall|m: int| 0 <= m < s.len() implies is_number_byte(s[m]) by {
        if m < a.len() {
            assert(s[m] == MINUS_BYTE);
        } else if m < a.len() + w.len() {
            assert(s[m] == w[m - a.len()]);
        } else {
            assert(s[m] == b[m - a.len() - w.len()]);
            if m - a.len() - w.len() > 0 {
                assert(b[m - a.len() - w.len()] == frac_digit_bytes(v.frac as nat, v.scale as nat)[
                    m - a.len() - w.len() - 1]);
            }
        }
    }
}

/// The printed form of a well-formed value parses back to the value.
pub proof fn lemma_decimal_round_trip(v: TempValue)
    requires
        v.wf(),
    ensures
        parse_decimal_s(decimal_bytes(v)) == Some(v),
{
    let s = decimal_bytes(v);
    let w = dec_digits(v.whole as nat);
    lemma_dec_digits(v.whole as nat);
    if v.scale == 0 {
        assert((v.frac as nat) < 1);
        if v.neg {
            assert(s =~= seq![MINUS_BYTE] + w);
            assert(s[0] == MINUS_BYTE);
            assert(s.skip(1) =~= w);
        } else {
            assert(s =~= w);
            assert(is_digit(s[0]));
        }
        let t = if v.neg {
            s.skip(1)
        } else {
            s
        };
        assert(t =~= w);
        assert(forall|m: int| 0 <= m < t.len() ==> t[m] != DOT_BYTE);
        lemma_find_byte_range(t, DOT_BYTE, 0, t.len());
    } else {
        let f = frac_digit_bytes(v.frac as nat, v.scale as nat);
        lemma_frac_digit_bytes(v.frac as nat, v.scale as nat);
        if v.neg {
            assert(s =~= seq![MINUS_BYTE] + w + seq![DOT_BYTE] + f);
            assert(s[0] == MINUS_BYTE);
        } else {
            assert(s =~= w + seq![DOT_BYTE] + f);
            assert(is_digit(s[0]));
        }
        let t = if v.neg {
            s.skip(1)
        } else {
            s
        };
        assert(t =~= w + seq![DOT_BYTE] + f);
        assert(forall|m: int| 0 <= m < w.len() ==> t[m] == w[m] && t[m] != DOT_BYTE);
        assert(t[w.len() as int] == DOT_BYTE);
        lemma_find_byte_range(t, DOT_BYTE, 0, w.len() as nat);
        assert(t.take(w.len() as int) =~= w);
        assert(t.skip(w.len() as int + 1) =~= f);
    }
}

} // verus!
