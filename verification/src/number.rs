//! Recognisers for the numeric fields of a telemetry frame.

use vstd::prelude::*;

verus! {

/// An ASCII decimal digit `0`..`9`.
pub open spec fn is_digit(b: u8) -> bool {
    48 <= b <= 57
}

/// Every byte of `s` is a decimal digit.
pub open spec fn all_digits(s: Seq<u8>) -> bool {
    forall|i: int| 0 <= i < s.len() ==> #[trigger] is_digit(s[i])
}

/// The value of a string of decimal digits, most significant first.
pub open spec fn digits_value(s: Seq<u8>) -> nat
    decreases s.len(),
{
    if s.len() == 0 {
        0
    } else {
        digits_value(s.drop_last()) * 10 + (s.last() - 48) as nat
    }
}

/// The digits of an unsigned integer literal: one leading `+` is dropped.
pub open spec fn unsigned_digits(s: Seq<u8>) -> Seq<u8> {
    if s.len() > 0 && s[0] == 43 {
        s.drop_first()
    } else {
        s
    }
}

/// What `u32::from_str` gives for `s`: an optional `+`, then at least one
/// decimal digit and nothing else, with a value that fits in a `u32`.
pub open spec fn spec_parse_u32(s: Seq<u8>) -> Option<u32> {
    let d = unsigned_digits(s);
    if d.len() > 0 && all_digits(d) && digits_value(d) <= u32::MAX {
        Some(digits_value(d) as u32)
    } else {
        None
    }
}

/// A single digit reads as its value.
pub proof fn lemma_u32_one_digit(k: u8)
    requires
        k < 10,
    ensures
        spec_parse_u32(seq![(48 + k) as u8]) == Some(k as u32),
{
    let s = seq![(48 + k) as u8];
    assert(s.drop_last() =~= Seq::<u8>::empty());
    assert(digits_value(Seq::<u8>::empty()) == 0);
    assert(s[0] == (48 + k) as u8);
    assert(unsigned_digits(s) == s);
    assert(is_digit(s[0]));
    assert(all_digits(s));
    assert(digits_value(s) == k);
}

/// Appending a digit multiplies the value by ten and adds the digit, and the
/// text is refused once the value passes `u32::MAX`.
pub proof fn lemma_u32_append_digit(d: Seq<u8>, k: u8)
    requires
        d.len() > 0,
        all_digits(d),
        k < 10,
    ensures
        spec_parse_u32(d + seq![(48 + k) as u8]) == (match spec_parse_u32(d) {
            Some(v) => if 10 * v + k <= u32::MAX {
                Some((10 * v + k) as u32)
            } else {
                None
            },
            None => None,
        }),
{
    let e = d + seq![(48 + k) as u8];
    assert(e.drop_last() =~= d);
    assert(is_digit(d[0]));
    assert(e[0] == d[0]);
    assert(all_digits(e)) by {
        assert forall|i: int| 0 <= i < e.len() implies #[trigger] is_digit(e[i]) by {
            if i < d.len() {
                assert(e[i] == d[i]);
            }
        }
    }
}

/// One leading `+` changes nothing.
pub proof fn lemma_u32_plus(d: Seq<u8>)
    requires
        d.len() > 0,
        is_digit(d[0]),
    ensures
        spec_parse_u32(seq![43u8] + d) == spec_parse_u32(d),
{
    assert((seq![43u8] + d).drop_first() =~= d);
}

/// Empty text, a lone `+`, and text with any other non-digit byte are refused.
pub proof fn lemma_u32_refusals(s: Seq<u8>, i: int)
    requires
        0 <= i < s.len(),
        !is_digit(s[i]),
        !(i == 0 && s[i] == 43 && s.len() > 1),
    ensures
        spec_parse_u32(s) is None,
        spec_parse_u32(Seq::empty()) is None,
{
    let d = unsigned_digits(s);
    if s[0] == 43 && s.len() > 0 {
        if i > 0 {
            assert(d[i - 1] == s[i]);
        }
    } else {
        assert(d[i] == s[i]);
    }
}

/// Reads `s` as an unsigned 32-bit decimal integer, as `u32::from_str` does.
pub fn parse_u32(s: &[u8]) -> (r: Option<u32>)
    ensures
        r == spec_parse_u32(s@),
{
    let n = s.len();
    let mut i: usize = 0;
    if n > 0 && s[0] == 43 {
        i = 1;
        assert(s@.drop_first() =~= s@.subrange(1, n as int));
    } else {
        assert(s@ =~= s@.subrange(0, n as int));
    }
    let start: usize = i;
    if start == n {
        return None;
    }
    let ghost d = s@.subrange(start as int, n as int);
    assert(unsigned_digits(s@) == d);
    let mut acc: u64 = 0;
    let mut overflow: bool = false;
    while i < n
        invariant
            start <= i <= n,
            n == s@.len(),
            d == s@.subrange(start as int, n as int),
            unsigned_digits(s@) == d,
            d.len() > 0,
            all_digits(s@.subrange(start as int, i as int)),
            overflow ==> digits_value(s@.subrange(start as int, i as int)) > u32::MAX,
            !overflow ==> acc == digits_value(s@.subrange(start as int, i as int)),
            !overflow ==> acc <= u32::MAX,
        decreases n - i,
    {
        let b = s[i];
        let ghost prev = s@.subrange(start as int, i as int);
        let ghost next = s@.subrange(start as int, i + 1);
        assert(next.drop_last() =~= prev);
        if !(48 <= b && b <= 57) {
            assert(d[i - start] == b);
            assert(!is_digit(d[i - start]));
            assert(!all_digits(d));
            return None;
        }
        assert(all_digits(next)) by {
            assert forall|j: int| 0 <= j < next.len() implies #[trigger] is_digit(next[j]) by {
                if j < prev.len() {
                    assert(next[j] == prev[j]);
                }
            }
        }
        if !overflow {
            let v = acc * 10 + (b - 48) as u64;
            if v > 0xffff_ffff {
                overflow = true;
            }
            acc = v;
        }
        i = i + 1;
    }
    assert(s@.subrange(start as int, n as int) == d);
    if overflow {
        None
    } else {
        Some(acc as u32)
    }
}

/// ASCII upper-case letters folded to lower case; every other byte unchanged.
pub open spec fn ascii_lower(b: u8) -> u8 {
    if 65 <= b <= 90 {
        (b + 32) as u8
    } else {
        b
    }
}

/// `+` or `-`.
pub open spec fn is_sign(b: u8) -> bool {
    b == 43 || b == 45
}

/// `s` without one leading sign.
pub open spec fn unsigned_part(s: Seq<u8>) -> Seq<u8> {
    if s.len() > 0 && is_sign(s[0]) {
        s.drop_first()
    } else {
        s
    }
}

/// `s` spells `word` (given in lower case), ignoring ASCII case.
pub open spec fn matches_word(s: Seq<u8>, word: Seq<u8>) -> bool {
    &&& s.len() == word.len()
    &&& forall|i: int| 0 <= i < s.len() ==> ascii_lower(#[trigger] s[i]) == word[i]
}

/// `inf`.
pub open spec fn word_inf() -> Seq<u8> {
    seq!['i' as u8, 'n' as u8, 'f' as u8]
}

/// `infinity`.
pub open spec fn word_infinity() -> Seq<u8> {
    seq!['i' as u8, 'n' as u8, 'f' as u8, 'i' as u8, 'n' as u8, 'i' as u8, 't' as u8, 'y' as u8]
}

/// `nan`.
pub open spec fn word_nan() -> Seq<u8> {
    seq!['n' as u8, 'a' as u8, 'n' as u8]
}

/// The number of decimal digits at the start of `s`.
pub open spec fn digit_run(s: Seq<u8>) -> nat
    decreases s.len(),
{
    if s.len() > 0 && is_digit(s[0]) {
        1 + digit_run(s.drop_first())
    } else {
        0
    }
}

/// What may follow the `e` of an exponent: an optional sign, then digits only.
pub open spec fn is_exponent_digits(s: Seq<u8>) -> bool {
    let d = unsigned_part(s);
    d.len() > 0 && all_digits(d)
}

/// Nothing, or an exponent `e` (either case) with its digits.
pub open spec fn is_exponent_tail(t: Seq<u8>) -> bool {
    t.len() == 0 || (ascii_lower(t[0]) == 'e' as u8 && is_exponent_digits(t.drop_first()))
}

/// `Digit+ | Digit+ '.' Digit* | Digit* '.' Digit+`, then an optional exponent.
pub open spec fn is_decimal(s: Seq<u8>) -> bool {
    let a = digit_run(s);
    let r = s.skip(a as int);
    if r.len() > 0 && r[0] == '.' as u8 {
        let b = digit_run(r.drop_first());
        a + b > 0 && is_exponent_tail(r.skip(1 + b as int))
    } else {
        a > 0 && is_exponent_tail(r)
    }
}

/// The text that `f64::from_str` accepts, by the grammar in its documentation:
/// an optional sign, then `inf`, `infinity`, `nan` or a decimal number with an
/// optional exponent, letters in either case, nothing before or after.
pub open spec fn is_float_literal(s: Seq<u8>) -> bool {
    let u = unsigned_part(s);
    ||| matches_word(u, word_inf())
    ||| matches_word(u, word_infinity())
    ||| matches_word(u, word_nan())
    ||| is_decimal(u)
}

/// A run of digits followed by a non-digit (or by nothing) is read as exactly that run.
pub proof fn lemma_digit_run_concat(a: Seq<u8>, b: Seq<u8>)
    requires
        all_digits(a),
        b.len() == 0 || !is_digit(b[0]),
    ensures
        digit_run(a + b) == a.len(),
    decreases a.len(),
{
    if a.len() == 0 {
        assert(a + b =~= b);
    } else {
        let t = a.drop_first();
        assert forall|i: int| 0 <= i < t.len() implies #[trigger] is_digit(t[i]) by {
            assert(t[i] == a[i + 1]);
        }
        lemma_digit_run_concat(t, b);
        assert((a + b).drop_first() =~= t + b);
        assert((a + b)[0] == a[0]);
    }
}

/// A mantissa: digits, then, where `point` holds, a point and more digits.
pub open spec fn mantissa(int_digits: Seq<u8>, point: bool, frac_digits: Seq<u8>) -> Seq<u8> {
    if point {
        int_digits + seq!['.' as u8] + frac_digits
    } else {
        int_digits
    }
}

/// `f64::from_str` accepts every number in exponent notation: an optional sign,
/// a mantissa with at least one digit, `e` or `E`, an optional sign, and any
/// non-empty string of digits, leading zeros included.
pub proof fn lemma_exponent_notation_accepted(
    lead: Seq<u8>,
    int_digits: Seq<u8>,
    point: bool,
    frac_digits: Seq<u8>,
    e: u8,
    exp_sign: Seq<u8>,
    exp_digits: Seq<u8>,
)
    requires
        lead.len() == 0 || (lead.len() == 1 && is_sign(lead[0])),
        all_digits(int_digits),
        all_digits(frac_digits),
        point ==> int_digits.len() + frac_digits.len() > 0,
        !point ==> int_digits.len() > 0,
        e == 'e' as u8 || e == 'E' as u8,
        exp_sign.len() == 0 || (exp_sign.len() == 1 && is_sign(exp_sign[0])),
        exp_digits.len() > 0,
        all_digits(exp_digits),
    ensures
        is_float_literal(
            lead + mantissa(int_digits, point, frac_digits) + seq![e] + exp_sign + exp_digits,
        ),
{
    let exp = exp_sign + exp_digits;
    let tail = seq![e] + exp;
    let m = mantissa(int_digits, point, frac_digits);
    let u = m + tail;
    let s = lead + m + seq![e] + exp_sign + exp_digits;
    assert(s =~= lead + u);
    // What follows `e` is an exponent.
    if exp_sign.len() == 0 {
        assert(exp =~= exp_digits);
        assert(is_digit(exp_digits[0]));
    } else {
        assert(exp.drop_first() =~= exp_digits);
    }
    assert(unsigned_part(exp) == exp_digits);
    assert(tail.drop_first() =~= exp);
    assert(is_exponent_tail(tail));
    // The mantissa's digit runs end where the text says.
    if point {
        let rest = seq!['.' as u8] + frac_digits + tail;
        assert(u =~= int_digits + rest);
        lemma_digit_run_concat(int_digits, rest);
        assert(u.skip(int_digits.len() as int) =~= rest);
        assert(rest.drop_first() =~= frac_digits + tail);
        lemma_digit_run_concat(frac_digits, tail);
        assert(rest.skip(1 + frac_digits.len() as int) =~= tail);
    } else {
        lemma_digit_run_concat(int_digits, tail);
        assert(u.skip(int_digits.len() as int) =~= tail);
    }
    assert(is_decimal(u));
    // A mantissa starts with a digit or a point, so the sign is the lead's only.
    if lead.len() == 0 {
        assert(s =~= u);
        if int_digits.len() > 0 {
            assert(u[0] == int_digits[0]);
            assert(is_digit(int_digits[0]));
        } else {
            assert(u[0] == '.' as u8);
        }
    } else {
        assert(s.drop_first() =~= u);
    }
    assert(unsigned_part(s) == u);
}

/// An exponent needs digits: a mantissa followed by `e` or `E` and at most a
/// sign is refused, whatever the mantissa.
pub proof fn lemma_exponent_without_digits_refused(
    lead: Seq<u8>,
    int_digits: Seq<u8>,
    point: bool,
    frac_digits: Seq<u8>,
    e: u8,
    exp_sign: Seq<u8>,
)
    requires
        lead.len() == 0 || (lead.len() == 1 && is_sign(lead[0])),
        all_digits(int_digits),
        all_digits(frac_digits),
        point ==> int_digits.len() + frac_digits.len() > 0,
        !point ==> int_digits.len() > 0,
        e == 'e' as u8 || e == 'E' as u8,
        exp_sign.len() == 0 || (exp_sign.len() == 1 && is_sign(exp_sign[0])),
    ensures
        !is_float_literal(lead + mantissa(int_digits, point, frac_digits) + seq![e] + exp_sign),
{
    let tail = seq![e] + exp_sign;
    let m = mantissa(int_digits, point, frac_digits);
    let u = m + tail;
    let s = lead + m + seq![e] + exp_sign;
    assert(s =~= lead + u);
    assert(tail.drop_first() =~= exp_sign);
    assert(unsigned_part(exp_sign).len() == 0);
    assert(!is_exponent_tail(tail));
    if point {
        let rest = seq!['.' as u8] + frac_digits + tail;
        assert(u =~= int_digits + rest);
        lemma_digit_run_concat(int_digits, rest);
        assert(u.skip(int_digits.len() as int) =~= rest);
        assert(rest.drop_first() =~= frac_digits + tail);
        lemma_digit_run_concat(frac_digits, tail);
        assert(rest.skip(1 + frac_digits.len() as int) =~= tail);
    } else {
        lemma_digit_run_concat(int_digits, tail);
        assert(u.skip(int_digits.len() as int) =~= tail);
    }
    assert(!is_decimal(u));
    if lead.len() == 0 {
        assert(s =~= u);
    } else {
        assert(s.drop_first() =~= u);
    }
    assert(u[0] == m[0]);
    if int_digits.len() > 0 {
        assert(m[0] == int_digits[0]);
        assert(is_digit(int_digits[0]));
    } else {
        assert(m[0] == '.' as u8);
    }
    assert(unsigned_part(s) == u);
    assert(!matches_word(u, word_inf())) by {
        assert(word_inf()[0] == 'i' as u8);
    }
    assert(!matches_word(u, word_infinity())) by {
        assert(word_infinity()[0] == 'i' as u8);
    }
    assert(!matches_word(u, word_nan())) by {
        assert(word_nan()[0] == 'n' as u8);
    }
}

fn is_digit_byte(b: u8) -> (r: bool)
    ensures
        r == is_digit(b),
{
    48 <= b && b <= 57
}

fn lower_byte(b: u8) -> (r: u8)
    ensures
        r == ascii_lower(b),
{
    if 65 <= b && b <= 90 {
        b + 32
    } else {
        b
    }
}

/// The end of the run of digits that starts at `i`.
fn digit_run_end(s: &[u8], i: usize) -> (j: usize)
    requires
        i <= s@.len(),
    ensures
        i <= j <= s@.len(),
        j == i + digit_run(s@.skip(i as int)),
{
    let n = s.len();
    let mut j = i;
    while j < n && is_digit_byte(s[j])
        invariant
            i <= j <= n,
            n == s@.len(),
            digit_run(s@.skip(i as int)) == (j - i) + digit_run(s@.skip(j as int)),
        decreases n - j,
    {
        assert(s@.skip(j as int).drop_first() =~= s@.skip(j + 1));
        j = j + 1;
    }
    j
}

/// Whether the bytes of `s` from `p` on spell `word`, ignoring ASCII case.
fn matches_word_at(s: &[u8], p: usize, word: &[u8]) -> (r: bool)
    requires
        p <= s@.len(),
    ensures
        r == matches_word(s@.skip(p as int), word@),
{
    let n = s.len();
    let m = word.len();
    if n - p != m {
        return false;
    }
    let mut k: usize = 0;
    while k < m
        invariant
            k <= m,
            n == s@.len(),
            m == word@.len(),
            p + m == n,
            forall|i: int| 0 <= i < k ==> ascii_lower(#[trigger] s@.skip(p as int)[i]) == word@[i],
        decreases m - k,
    {
        if lower_byte(s[p + k]) != word[k] {
            assert(s@.skip(p as int)[k as int] == s@[p + k]);
            return false;
        }
        k = k + 1;
    }
    true
}

/// Whether the bytes of `s` from `p` on are an exponent's optional sign and digits.
fn exponent_digits_at(s: &[u8], p: usize) -> (r: bool)
    requires
        p <= s@.len(),
    ensures
        r == is_exponent_digits(s@.skip(p as int)),
{
    let n = s.len();
    let mut q = p;
    if q < n && (s[q] == 43 || s[q] == 45) {
        assert(s@.skip(p as int)[0] == s@[p as int]);
        q = q + 1;
        assert(s@.skip(p as int).drop_first() =~= s@.skip(q as int));
    } else {
        if q < n {
            assert(s@.skip(p as int)[0] == s@[p as int]);
        }
    }
    let ghost d = s@.skip(q as int);
    assert(unsigned_part(s@.skip(p as int)) == d);
    if q == n {
        return false;
    }
    let e = digit_run_end(s, q);
    proof {
        lemma_digit_run_prefix(d);
        if e < n {
            assert(d[(e - q) as int] == s@[e as int]);
            assert(!all_digits(d));
        } else {
            assert(d.subrange(0, d.len() as int) =~= d);
        }
    }
    e == n
}

/// Whether the bytes of `s` from `p` on are empty or an exponent.
fn exponent_tail_at(s: &[u8], p: usize) -> (r: bool)
    requires
        p <= s@.len(),
    ensures
        r == is_exponent_tail(s@.skip(p as int)),
{
    if p == s.len() {
        return true;
    }
    assert(s@.skip(p as int)[0] == s@[p as int]);
    if lower_byte(s[p]) != 101 {
        return false;
    }
    assert(s@.skip(p as int).drop_first() =~= s@.skip(p + 1));
    exponent_digits_at(s, p + 1)
}

/// The leading digit run of `s` holds digits only, and what follows it is no digit.
pub proof fn lemma_digit_run_prefix(s: Seq<u8>)
    ensures
        digit_run(s) <= s.len(),
        all_digits(s.subrange(0, digit_run(s) as int)),
        digit_run(s) < s.len() ==> !is_digit(s[digit_run(s) as int]),
    decreases s.len(),
{
    if s.len() > 0 && is_digit(s[0]) {
        let t = s.drop_first();
        lemma_digit_run_prefix(t);
        let k = digit_run(s) as int;
        assert forall|i: int| 0 <= i < k implies #[trigger] is_digit(s.subrange(0, k)[i]) by {
            if i > 0 {
                assert(s.subrange(0, k)[i] == t.subrange(0, k - 1)[i - 1]);
            }
        }
        if k < s.len() {
            assert(s[k] == t[k - 1]);
        }
    }
}

/// Whether the bytes of `s` from `p` on are a decimal number with an optional exponent.
fn decimal_at(s: &[u8], p: usize) -> (r: bool)
    requires
        p <= s@.len(),
    ensures
        r == is_decimal(s@.skip(p as int)),
{
    let n = s.len();
    let ghost u = s@.skip(p as int);
    let a_end = digit_run_end(s, p);
    assert(u.skip((a_end - p) as int) =~= s@.skip(a_end as int));
    if a_end < n && s[a_end] == 46 {
        assert(s@.skip(a_end as int)[0] == s@[a_end as int]);
        assert(s@.skip(a_end as int).drop_first() =~= s@.skip(a_end + 1));
        let b_end = digit_run_end(s, a_end + 1);
        assert(s@.skip(a_end as int).skip(1 + (b_end - a_end - 1)) =~= s@.skip(b_end as int));
        if a_end == p && b_end == a_end + 1 {
            return false;
        }
        exponent_tail_at(s, b_end)
    } else {
        if a_end < n {
            assert(s@.skip(a_end as int)[0] == s@[a_end as int]);
        }
        if a_end == p {
            return false;
        }
        exponent_tail_at(s, a_end)
    }
}

/// Whether `s` is text that `f64::from_str` accepts.
pub fn float_literal(s: &[u8]) -> (r: bool)
    ensures
        r == is_float_literal(s@),
{
    let n = s.len();
    let mut p: usize = 0;
    if n > 0 && (s[0] == 43 || s[0] == 45) {
        p = 1;
        assert(s@.drop_first() =~= s@.skip(1));
    } else {
        assert(s@ =~= s@.skip(0));
    }
    let inf: Vec<u8> = vec![105, 110, 102];
    let infinity: Vec<u8> = vec![105, 110, 102, 105, 110, 105, 116, 121];
    let nan: Vec<u8> = vec![110, 97, 110];
    assert(inf@ =~= word_inf());
    assert(infinity@ =~= word_infinity());
    assert(nan@ =~= word_nan());
    if matches_word_at(s, p, inf.as_slice()) {
        return true;
    }
    if matches_word_at(s, p, infinity.as_slice()) {
        return true;
    }
    if matches_word_at(s, p, nan.as_slice()) {
        return true;
    }
    decimal_at(s, p)
}

} // verus!
