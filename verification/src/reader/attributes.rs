//! Attribute decoders: booleans under their tolerated lexical spellings,
//! and numeric measurements.

use vstd::prelude::*;

use crate::errors::ReaderError;
use crate::reader::scan::Attribute;
use crate::strings::dec_digit;
use crate::strings::dec_str;
use crate::strings::str_chars;
use crate::strings::str_eq;

verus! {

/// The accepted false spellings.
pub open spec fn is_false_text(v: Seq<char>) -> bool {
    v == "0"@ || v == "false"@
}

/// The accepted true spellings.
pub open spec fn is_true_text(v: Seq<char>) -> bool {
    v == "1"@ || v == "true"@
}

/// Whether `v` is a recognized false spelling.
pub fn is_false(v: &str) -> (r: bool)
    ensures
        r == is_false_text(v@),
{
    str_eq(v, "0") || str_eq(v, "false")
}

/// The presence-based boolean variant used for plain attribute lists:
/// absence of a value is true, and only a recognized false spelling of the
/// first attribute's value is false.
pub fn read_bool(attrs: &Vec<Attribute>) -> (r: bool)
    ensures
        r == !(attrs@.len() > 0 && is_false_text(attrs@[0].value@)),
{
    if attrs.len() > 0 {
        if is_false(attrs[0].value.as_str()) {
            return false;
        }
    }
    true
}

/// A boolean reaching the decoder either natively or as attribute text.
#[derive(Debug, Clone, PartialEq)]
pub enum BoolValue {
    Native(bool),
    Text(String),
}

/// Decodes boolean attribute text: `true` and `1` are true, `false` and
/// `0` are false, anything else is an attribute-decode failure whose
/// description carries the raw value.
pub fn decode_bool_text(t: &str) -> (r: Result<bool, ReaderError>)
    ensures
        is_true_text(t@) ==> (r matches Ok(b) && b == true),
        is_false_text(t@) ==> (r matches Ok(b) && b == false),
        !is_true_text(t@) && !is_false_text(t@) ==> (r matches Err(e) && e matches
            ReaderError::Attribute(m) && m@ == "invalid value for boolean: "@ + t@),
{
    proof {
        reveal_strlit("true");
        reveal_strlit("false");
        reveal_strlit("1");
        reveal_strlit("0");
        assert("true"@.len() != "false"@.len());
        assert("true"@.len() != "0"@.len());
        assert("1"@.len() != "false"@.len());
        assert("1"@[0] != "0"@[0]);
    }
    if str_eq(t, "true") || str_eq(t, "1") {
        Ok(true)
    } else if str_eq(t, "false") || str_eq(t, "0") {
        Ok(false)
    } else {
        let mut m = String::from_str("invalid value for boolean: ");
        m.append(t);
        Err(ReaderError::Attribute(m))
    }
}

/// The full boolean decoder: a native boolean passes through, text goes by
/// the spelling table.
pub fn decode_bool(v: &BoolValue) -> (r: Result<bool, ReaderError>)
    ensures
        v matches BoolValue::Native(b) ==> (r matches Ok(x) && x == b),
        v matches BoolValue::Text(t) && is_true_text(t@) ==> (r matches Ok(x) && x == true),
        v matches BoolValue::Text(t) && is_false_text(t@) ==> (r matches Ok(x) && x == false),
        v matches BoolValue::Text(t) && !is_true_text(t@) && !is_false_text(t@) ==> (r matches Err(
            e,
        ) && e matches ReaderError::Attribute(_)),
{
    match v {
        BoolValue::Native(b) => Ok(*b),
        BoolValue::Text(t) => decode_bool_text(t.as_str()),
    }
}

/// A decimal digit.
pub open spec fn is_digit(c: char) -> bool {
    '0' <= c && c <= '9'
}

pub open spec fn digit_val(c: char) -> nat {
    ((c as u32) - 48) as nat
}

/// The value of a digit string.
pub open spec fn digits_val(s: Seq<char>) -> nat
    decreases s.len(),
{
    if s.len() == 0 {
        0
    } else {
        digits_val(s.drop_last()) * 10 + digit_val(s.last())
    }
}

pub open spec fn all_digits(s: Seq<char>) -> bool {
    forall|i: int| 0 <= i < s.len() ==> is_digit(#[trigger] s[i])
}

/// The position of the first `.` in `s`, or its length.
pub open spec fn dot_index(s: Seq<char>) -> int
    decreases s.len(),
{
    if s.len() == 0 {
        0
    } else if s[0] == '.' {
        0
    } else {
        1 + dot_index(s.skip(1))
    }
}

proof fn lemma_dot_index(s: Seq<char>)
    ensures
        0 <= dot_index(s) <= s.len(),
        forall|m: int| 0 <= m < dot_index(s) ==> (#[trigger] s[m]) != '.',
        dot_index(s) < s.len() ==> s[dot_index(s)] == '.',
    decreases s.len(),
{
    if s.len() == 0 {
    } else if s[0] == '.' {
    } else {
        lemma_dot_index(s.skip(1));
        assert forall|m: int| 0 <= m < dot_index(s) implies (#[trigger] s[m]) != '.' by {
            if m > 0 {
                assert(s.skip(1)[m - 1] != '.');
            }
        }
        if dot_index(s) < s.len() {
            assert(s.skip(1)[dot_index(s) - 1] == '.');
        }
    }
}

/// The position of the first exponent marker `e`/`E` in `s`, or its
/// length.
pub open spec fn exp_index(s: Seq<char>) -> int
    decreases s.len(),
{
    if s.len() == 0 {
        0
    } else if s[0] == 'e' || s[0] == 'E' {
        0
    } else {
        1 + exp_index(s.skip(1))
    }
}

proof fn lemma_exp_index(s: Seq<char>)
    ensures
        0 <= exp_index(s) <= s.len(),
        forall|m: int| 0 <= m < exp_index(s) ==> (#[trigger] s[m]) != 'e' && s[m] != 'E',
        exp_index(s) < s.len() ==> s[exp_index(s)] == 'e' || s[exp_index(s)] == 'E',
    decreases s.len(),
{
    if s.len() == 0 {
    } else if s[0] == 'e' || s[0] == 'E' {
    } else {
        lemma_exp_index(s.skip(1));
        assert forall|m: int| 0 <= m < exp_index(s) implies (#[trigger] s[m]) != 'e' && s[m]
            != 'E' by {
            if m > 0 {
                assert(s.skip(1)[m - 1] != 'e' && s.skip(1)[m - 1] != 'E');
            }
        }
        if exp_index(s) < s.len() {
            assert(s.skip(1)[exp_index(s) - 1] == 'e' || s.skip(1)[exp_index(s) - 1] == 'E');
        }
    }
}

/// The mantissa of a measurement literal: everything before the exponent
/// marker.
pub open spec fn mantissa(s: Seq<char>) -> Seq<char> {
    s.take(exp_index(s))
}

/// The integer digits of the mantissa: everything before its first `.`.
pub open spec fn int_digits(s: Seq<char>) -> Seq<char> {
    mantissa(s).take(dot_index(mantissa(s)))
}

/// The fractional digits of the mantissa: everything after its first `.`.
pub open spec fn frac_digits(s: Seq<char>) -> Seq<char> {
    let m = mantissa(s);
    if dot_index(m) < m.len() {
        m.skip(dot_index(m) + 1)
    } else {
        Seq::<char>::empty()
    }
}

pub open spec fn has_exp(s: Seq<char>) -> bool {
    exp_index(s) < s.len()
}

/// The exponent text after the marker, sign included.
pub open spec fn exp_body(s: Seq<char>) -> Seq<char> {
    s.skip(exp_index(s) + 1)
}

pub open spec fn exp_neg(s: Seq<char>) -> bool {
    has_exp(s) && exp_body(s).len() > 0 && exp_body(s)[0] == '-'
}

/// The digits of the exponent, sign stripped.
pub open spec fn exp_digits(s: Seq<char>) -> Seq<char> {
    let b = exp_body(s);
    if b.len() > 0 && (b[0] == '+' || b[0] == '-') {
        b.skip(1)
    } else {
        b
    }
}

/// A valid measurement literal: the grammar of a non-negative decimal
/// floating-point literal — digits, optionally a `.` with further digits
/// (either side of the point may be empty, not both), optionally an
/// exponent `e`/`E` with an optional sign and at least one digit.  A sign
/// on the number itself is not accepted, so negative input is rejected.
pub open spec fn measurement_valid(s: Seq<char>) -> bool {
    &&& int_digits(s).len() + frac_digits(s).len() > 0
    &&& all_digits(int_digits(s))
    &&& all_digits(frac_digits(s))
    &&& (has_exp(s) ==> exp_digits(s).len() > 0 && all_digits(exp_digits(s)))
}

/// The signed exponent value.
pub open spec fn exp_val(s: Seq<char>) -> int {
    if !has_exp(s) {
        0
    } else if exp_neg(s) {
        -(digits_val(exp_digits(s)) as int)
    } else {
        digits_val(exp_digits(s)) as int
    }
}

/// Where the decimal point stands among the mantissa digits once the
/// exponent is applied.
pub open spec fn point_pos(s: Seq<char>) -> int {
    int_digits(s).len() + exp_val(s)
}

pub open spec fn zeros(n: nat) -> Seq<char> {
    Seq::new(n, |i: int| '0')
}

/// The digits of the truncated integer value: the mantissa digits with the
/// point shifted by the exponent, fractional positions discarded and
/// positions past the digits filled with zeros.
pub open spec fn shifted_digits(s: Seq<char>) -> Seq<char> {
    let d = int_digits(s) + frac_digits(s);
    let q = point_pos(s);
    if q <= 0 {
        Seq::<char>::empty()
    } else if q >= d.len() {
        d + zeros((q - d.len()) as nat)
    } else {
        d.take(q)
    }
}

/// The truncated value of a valid measurement literal.
pub open spec fn measurement_val(s: Seq<char>) -> nat {
    digits_val(shifted_digits(s))
}

/// The exponent value fits the machine; a literal whose exponent does not
/// is treated as out of range.
pub open spec fn exp_representable(s: Seq<char>) -> bool {
    !has_exp(s) || digits_val(exp_digits(s)) <= u64::MAX
}

/// A zero prefix followed by zero digits has value zero.
proof fn lemma_val_zero_extend(s: Seq<char>, m: int)
    requires
        0 <= m <= s.len(),
        digits_val(s.take(m)) == 0,
        forall|i: int| m <= i < s.len() ==> (#[trigger] s[i]) == '0',
    ensures
        digits_val(s) == 0,
    decreases s.len() - m,
{
    if m < s.len() {
        assert(s.take(m + 1).drop_last() =~= s.take(m));
        assert(s.take(m + 1).last() == s[m]);
        assert(digit_val('0') == 0);
        lemma_val_zero_extend(s, m + 1);
    } else {
        assert(s.take(m) =~= s);
    }
}

/// Decodes a measurement attribute: parses the decimal floating-point
/// literal and truncates toward zero to a non-negative integer, computed
/// exactly from the digits.  Fails on anything outside the grammar
/// (including a signed number), on a value that does not fit the machine's
/// integer, and on an exponent beyond the machine's range.
#[verifier::rlimit(100)]
pub fn decode_measurement(t: &str) -> (r: Result<usize, ReaderError>)
    ensures
        r matches Ok(v) ==> measurement_valid(t@) && v == measurement_val(t@),
        measurement_valid(t@) && exp_representable(t@) && measurement_val(t@) <= usize::MAX ==> (
        r matches Ok(v) && v == measurement_val(t@)),
        !measurement_valid(t@) ==> (r matches Err(e) && e matches ReaderError::Attribute(_)),
{
    let s = str_chars(t);
    let n = s.len();
    proof {
        lemma_exp_index(t@);
    }
    let ghost gei = exp_index(t@);
    // the exponent marker
    let mut ei: usize = 0;
    while ei < n && s[ei] != 'e' && s[ei] != 'E'
        invariant
            n == t@.len(),
            s@ == t@,
            0 <= ei <= n,
            forall|m: int| 0 <= m < ei ==> (#[trigger] t@[m]) != 'e' && t@[m] != 'E',
        decreases n - ei,
    {
        ei += 1;
    }
    proof {
        assert(ei == gei) by {
            if ei < gei {
                assert(t@[ei as int] != 'e' && t@[ei as int] != 'E');
            }
            if gei < ei {
                assert(t@[gei] != 'e' && t@[gei] != 'E');
            }
        }
    }
    let ghost mant = mantissa(t@);
    proof {
        assert(mant == t@.take(ei as int));
        lemma_dot_index(mant);
    }
    let ghost gdi = dot_index(mant);
    // the decimal point, within the mantissa
    let mut di: usize = 0;
    while di < ei && s[di] != '.'
        invariant
            n == t@.len(),
            s@ == t@,
            ei <= n,
            mant == t@.take(ei as int),
            0 <= di <= ei,
            forall|m: int| 0 <= m < di ==> (#[trigger] t@[m]) != '.',
        decreases ei - di,
    {
        di += 1;
    }
    proof {
        assert forall|m: int| 0 <= m < mant.len() implies mant[m] == t@[m] by {}
        assert(di == gdi) by {
            if di < gdi {
                assert(di < mant.len());
                assert(mant[di as int] != '.');
                assert(mant[di as int] == t@[di as int]);
            }
            if gdi < di {
                assert(mant[gdi] == '.');
                assert(t@[gdi] == '.');
            }
        }
        assert(int_digits(t@) == mant.take(di as int));
        assert(int_digits(t@).len() == di);
    }
    // the fractional region
    let fstart: usize = if di < ei {
        di + 1
    } else {
        ei
    };
    let flen: usize = ei - fstart;
    proof {
        if di < ei {
            assert(frac_digits(t@) == mant.skip(di + 1));
        } else {
            assert(frac_digits(t@) == Seq::<char>::empty());
        }
        assert(frac_digits(t@).len() == flen);
    }
    // mantissa digit checks
    let mut i: usize = 0;
    while i < di
        invariant
            n == t@.len(),
            s@ == t@,
            di <= ei <= n,
            int_digits(t@).len() == di,
            forall|m: int| 0 <= m < int_digits(t@).len() ==> int_digits(t@)[m] == t@[m],
            0 <= i <= di,
            forall|m: int| 0 <= m < i ==> is_digit(#[trigger] t@[m]),
        decreases di - i,
    {
        let c = s[i];
        if !('0' <= c && c <= '9') {
            proof {
                assert(!is_digit(int_digits(t@)[i as int]));
            }
            let mut m = String::from_str("invalid numeric value: ");
            m.append(t);
            return Err(ReaderError::Attribute(m));
        }
        i += 1;
    }
    let mut j: usize = fstart;
    while j < ei
        invariant
            n == t@.len(),
            s@ == t@,
            di <= ei <= n,
            fstart <= ei,
            frac_digits(t@).len() == ei - fstart,
            forall|m: int|
                0 <= m < frac_digits(t@).len() ==> frac_digits(t@)[m] == t@[m + fstart],
            fstart <= j <= ei,
            forall|m: int| fstart <= m < j ==> is_digit(#[trigger] t@[m]),
        decreases ei - j,
    {
        let c = s[j];
        if !('0' <= c && c <= '9') {
            proof {
                assert(!is_digit(frac_digits(t@)[j - fstart]));
            }
            let mut m = String::from_str("invalid numeric value: ");
            m.append(t);
            return Err(ReaderError::Attribute(m));
        }
        j += 1;
    }
    proof {
        assert(all_digits(int_digits(t@))) by {
            assert forall|m: int| 0 <= m < int_digits(t@).len() implies is_digit(
                #[trigger] int_digits(t@)[m],
            ) by {
                assert(int_digits(t@)[m] == t@[m]);
            }
        }
        assert(all_digits(frac_digits(t@))) by {
            assert forall|m: int| 0 <= m < frac_digits(t@).len() implies is_digit(
                #[trigger] frac_digits(t@)[m],
            ) by {
                assert(frac_digits(t@)[m] == t@[m + fstart]);
            }
        }
    }
    let dcount = di + flen;
    if dcount == 0 {
        let mut m = String::from_str("invalid numeric value: ");
        m.append(t);
        return Err(ReaderError::Attribute(m));
    }
    // the exponent: optional sign, then at least one digit
    let mut eneg = false;
    let mut e_val: u64 = 0;
    if ei < n {
        let mut xs = ei + 1;
        proof {
            assert(exp_body(t@) =~= t@.skip(ei + 1));
            assert forall|m: int| 0 <= m < exp_body(t@).len() implies exp_body(t@)[m] == t@[m + ei
                + 1] by {}
        }
        if xs < n && (s[xs] == '+' || s[xs] == '-') {
            eneg = s[xs] == '-';
            xs += 1;
        }
        proof {
            assert(eneg == exp_neg(t@));
            assert(exp_digits(t@) =~= t@.subrange(xs as int, n as int));
            assert forall|m: int| 0 <= m < exp_digits(t@).len() implies exp_digits(t@)[m] == t@[m
                + xs] by {}
            assert(exp_digits(t@).len() == n - xs);
        }
        if xs >= n {
            proof {
                assert(exp_digits(t@).len() == 0);
            }
            let mut m = String::from_str("invalid numeric value: ");
            m.append(t);
            return Err(ReaderError::Attribute(m));
        }
        let ghost xd = exp_digits(t@);
        let mut k: usize = xs;
        while k < n
            invariant
                n == t@.len(),
                s@ == t@,
                has_exp(t@),
                xs <= k <= n,
                xd == exp_digits(t@),
                xd.len() == n - xs,
                forall|m: int| 0 <= m < xd.len() ==> xd[m] == t@[m + xs],
                forall|m: int| xs <= m < k ==> is_digit(#[trigger] t@[m]),
                e_val == digits_val(xd.take(k - xs)),
            decreases n - k,
        {
            let c = s[k];
            if !('0' <= c && c <= '9') {
                proof {
                    assert(!is_digit(xd[k - xs]));
                }
                let mut m = String::from_str("invalid numeric value: ");
            m.append(t);
            return Err(ReaderError::Attribute(m));
            }
            proof {
                assert(xd.take(k - xs + 1).drop_last() =~= xd.take(k - xs));
                assert(xd.take(k - xs + 1).last() == xd[k - xs]);
                assert(xd[k - xs] == t@[k as int]);
            }
            let dv: u64 = ((c as u32) - 48) as u64;
            let e10 = match e_val.checked_mul(10) {
                Some(x) => x,
                None => {
                    proof {
                        lemma_digits_val_monotone(xd, k - xs + 1);
                    }
                    let mut m = String::from_str("numeric exponent out of range: ");
                    m.append(t);
                    return Err(ReaderError::Attribute(m));
                },
            };
            let e2 = match e10.checked_add(dv) {
                Some(x) => x,
                None => {
                    proof {
                        lemma_digits_val_monotone(xd, k - xs + 1);
                    }
                    let mut m = String::from_str("numeric exponent out of range: ");
                    m.append(t);
                    return Err(ReaderError::Attribute(m));
                },
            };
            e_val = e2;
            k += 1;
        }
        proof {
            assert(xd.take(xd.len() as int) =~= xd);
            assert(all_digits(xd)) by {
                assert forall|m: int| 0 <= m < xd.len() implies is_digit(#[trigger] xd[m]) by {
                    assert(xd[m] == t@[m + xs]);
                }
            }
        }
    }
    proof {
        assert(measurement_valid(t@));
        assert(exp_representable(t@));
        if has_exp(t@) {
            assert(e_val == digits_val(exp_digits(t@)));
        }
    }
    // where the point lands, and what to emit: `m_take` leading mantissa
    // digits, then `extra` zeros
    let ghost q = point_pos(t@);
    let ghost sh = shifted_digits(t@);
    let m_take: usize;
    let extra: u64;
    if ei < n && eneg {
        if e_val >= di as u64 {
            m_take = 0;
            extra = 0;
        } else {
            m_take = di - (e_val as usize);
            extra = 0;
        }
    } else if ei < n {
        if e_val <= flen as u64 {
            m_take = di + (e_val as usize);
            extra = 0;
        } else {
            m_take = dcount;
            extra = e_val - (flen as u64);
        }
    } else {
        m_take = di;
        extra = 0;
    }
    proof {
        let dd = int_digits(t@) + frac_digits(t@);
        assert(dd.len() == dcount);
        if ei < n && eneg {
            assert(q == di - e_val);
        } else if ei < n {
            assert(q == di + e_val);
        } else {
            assert(q == di);
        }
        if q <= 0 {
            assert(m_take == 0 && extra == 0);
            assert(sh =~= Seq::<char>::empty());
        } else if q >= dd.len() {
            assert(m_take == dcount && extra == q - dcount);
            assert(sh == dd + zeros((q - dd.len()) as nat));
        } else {
            assert(m_take == q && extra == 0);
            assert(sh == dd.take(q));
        }
        assert(sh.len() == m_take + extra);
        assert forall|m: int| 0 <= m < m_take implies sh[m] == dd[m] by {}
        assert forall|m: int| m_take <= m < sh.len() implies sh[m] == '0' by {}
        assert forall|m: int| 0 <= m < dcount implies dd[m] == (if m < di {
            t@[m]
        } else {
            t@[fstart + (m - di)]
        }) by {
            if m < di {
                assert(dd[m] == int_digits(t@)[m]);
            } else {
                assert(dd[m] == frac_digits(t@)[m - di]);
            }
        }
        assert forall|m: int| 0 <= m < m_take implies is_digit(#[trigger] sh[m]) by {
            if m < di {
                assert(is_digit(int_digits(t@)[m]));
            } else {
                assert(is_digit(frac_digits(t@)[m - di]));
            }
            assert(sh[m] == dd[m]);
        }
    }
    // accumulate the leading digits
    let mut acc: usize = 0;
    let mut p: usize = 0;
    while p < m_take
        invariant
            n == t@.len(),
            s@ == t@,
            di <= ei <= n,
            fstart <= ei,
            dcount == di + (ei - fstart),
            m_take <= dcount,
            sh == shifted_digits(t@),
            sh.len() == m_take + extra,
            measurement_val(t@) == digits_val(sh),
            forall|m: int|
                0 <= m < m_take ==> sh[m] == (if m < di {
                    t@[m]
                } else {
                    t@[fstart + (m - di)]
                }),
            forall|m: int| 0 <= m < m_take ==> is_digit(#[trigger] sh[m]),
            0 <= p <= m_take,
            acc == digits_val(sh.take(p as int)),
        decreases m_take - p,
    {
        let c = if p < di {
            s[p]
        } else {
            s[fstart + (p - di)]
        };
        proof {
            assert(sh[p as int] == c);
            assert(sh.take(p + 1).drop_last() =~= sh.take(p as int));
            assert(sh.take(p + 1).last() == sh[p as int]);
        }
        let dv: usize = ((c as u32) - 48) as usize;
        let acc10 = match acc.checked_mul(10) {
            Some(x) => x,
            None => {
                proof {
                    lemma_digits_val_monotone(sh, p + 1);
                }
                let mut m = String::from_str("numeric value too large: ");
                m.append(t);
                return Err(ReaderError::Attribute(m));
            },
        };
        let acc2 = match acc10.checked_add(dv) {
            Some(x) => x,
            None => {
                proof {
                    lemma_digits_val_monotone(sh, p + 1);
                }
                let mut m = String::from_str("numeric value too large: ");
                m.append(t);
                return Err(ReaderError::Attribute(m));
            },
        };
        acc = acc2;
        p += 1;
    }
    // append the trailing zeros of a large positive exponent
    if acc == 0 {
        proof {
            lemma_val_zero_extend(sh, m_take as int);
            assert(sh.take(m_take as int) =~= sh.take(p as int));
        }
        return Ok(0);
    }
    let mut z: u64 = 0;
    while z < extra
        invariant
            sh == shifted_digits(t@),
            measurement_val(t@) == digits_val(sh),
            sh.len() == m_take + extra,
            forall|m: int| m_take <= m < sh.len() ==> (#[trigger] sh[m]) == '0',
            0 <= z <= extra,
            acc == digits_val(sh.take(m_take + z)),
        decreases extra - z,
    {
        proof {
            assert(sh.take(m_take + z + 1).drop_last() =~= sh.take(m_take + z));
            assert(sh.take(m_take + z + 1).last() == sh[m_take + z]);
            assert(digit_val('0') == 0);
        }
        let acc10 = match acc.checked_mul(10) {
            Some(x) => x,
            None => {
                proof {
                    lemma_digits_val_monotone(sh, m_take + z + 1);
                }
                let mut m = String::from_str("numeric value too large: ");
                m.append(t);
                return Err(ReaderError::Attribute(m));
            },
        };
        acc = acc10;
        z += 1;
    }
    proof {
        assert(sh.take(m_take + extra) =~= sh);
    }
    Ok(acc)
}

/// A nonempty digit string is a valid measurement literal spelling its own
/// value.
pub proof fn lemma_measurement_of_digits(w: Seq<char>)
    requires
        w.len() > 0,
        all_digits(w),
    ensures
        measurement_valid(w),
        exp_representable(w),
        measurement_val(w) == digits_val(w),
{
    lemma_exp_index(w);
    assert(exp_index(w) == w.len()) by {
        if exp_index(w) < w.len() {
            assert(is_digit(w[exp_index(w)]));
        }
    }
    assert(mantissa(w) =~= w);
    lemma_dot_index(mantissa(w));
    assert(dot_index(mantissa(w)) == w.len()) by {
        if dot_index(mantissa(w)) < w.len() {
            assert(is_digit(mantissa(w)[dot_index(mantissa(w))]));
        }
    }
    assert(int_digits(w) =~= w);
    assert(frac_digits(w) == Seq::<char>::empty());
    assert(!has_exp(w));
    assert(point_pos(w) == w.len());
    assert(int_digits(w) + frac_digits(w) =~= w);
    assert(shifted_digits(w) =~= w);
}

/// The decimal spelling of a number is a digit string spelling it back.
pub proof fn lemma_dec_str_digits(n: nat)
    ensures
        dec_str(n).len() > 0,
        all_digits(dec_str(n)),
        digits_val(dec_str(n)) == n,
    decreases n,
{
    if n < 10 {
        assert(dec_str(n) == seq![dec_digit(n)]);
        assert((dec_digit(n) as u32) == n + 48);
        assert(is_digit(dec_digit(n)));
        assert(seq![dec_digit(n)].drop_last() =~= Seq::<char>::empty());
        assert(seq![dec_digit(n)].last() == dec_digit(n));
        assert(digits_val(Seq::<char>::empty()) == 0);
        assert(digits_val(seq![dec_digit(n)]) == digit_val(dec_digit(n)));
        assert(digit_val(dec_digit(n)) == n);
    } else {
        lemma_dec_str_digits(n / 10);
        assert(dec_str(n) == dec_str(n / 10) + seq![dec_digit(n % 10)]);
        let w = dec_str(n);
        assert forall|i: int| 0 <= i < w.len() implies is_digit(#[trigger] w[i]) by {
            if i < dec_str(n / 10).len() {
                assert(w[i] == dec_str(n / 10)[i]);
            } else {
                assert(w[i] == dec_digit(n % 10));
            }
        }
        assert(w.drop_last() =~= dec_str(n / 10));
        assert(w.last() == dec_digit(n % 10));
        assert(digit_val(dec_digit(n % 10)) == n % 10);
        assert(digits_val(w) == (n / 10) * 10 + n % 10);
    }
}

/// A failing overflow branch really is out of range: a longer digit string
/// never has a smaller value.
proof fn lemma_digits_val_monotone(s: Seq<char>, i: int)
    requires
        0 <= i <= s.len(),
    ensures
        digits_val(s.take(i)) <= digits_val(s),
    decreases s.len() - i,
{
    if i < s.len() {
        assert(s.take(i + 1).drop_last() =~= s.take(i));
        lemma_digits_val_monotone(s, i + 1);
    } else {
        assert(s.take(i) =~= s);
    }
}

} // verus!
