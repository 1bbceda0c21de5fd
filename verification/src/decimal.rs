//! The numbers of the calculator's CSV tables.
//!
//! A field is read by the grammar that `f32::from_str` documents: an
//! optional sign, then `inf`, `infinity` or `nan` (in any case), or digits
//! with an optional `.` and an optional exponent `e`/`E` with its own sign.
//! The library holds a number as whole hundredths: a field that is a number
//! by that grammar but is infinite, not a number, not a whole number of
//! hundredths, or larger in magnitude than `MAX_HUNDREDTHS` hundredths lies
//! outside what the library holds, and is told apart from a field that is
//! no number at all.
use vstd::prelude::*;

verus! {

/// The largest magnitude, in hundredths, that the library holds.
pub const MAX_HUNDREDTHS: u32 = 2147483647;

/// Exponents of at least this magnitude all decide alike: a non-zero value
/// is then either too large or no whole number of hundredths.
pub const EXPONENT_CAP: i128 = 0x10_0000_0000_0000_0000_0000_0000;

/// Why a field gives no value.
#[derive(Debug, Clone, Copy, PartialEq, Eq, Structural)]
pub enum FieldError {
    /// The field is not a number by the grammar of `f32::from_str`.
    NotANumber,
    /// The field is a number, but one the library does not hold: infinite,
    /// not a number, not a whole number of hundredths, or beyond
    /// `MAX_HUNDREDTHS` hundredths.
    Unrepresentable,
}

pub open spec fn is_digit(b: u8) -> bool {
    48 <= b && b <= 57
}

pub open spec fn all_digits(s: Seq<u8>) -> bool {
    forall|i: int| 0 <= i < s.len() ==> is_digit(#[trigger] s[i])
}

/// The number that a run of decimal digits spells.
pub open spec fn digits_value(s: Seq<u8>) -> nat
    decreases s.len(),
{
    if s.len() == 0 {
        0
    } else {
        digits_value(s.drop_last()) * 10 + (s.last() - 48) as nat
    }
}

pub open spec fn pow10(n: nat) -> nat
    decreases n,
{
    if n == 0 {
        1
    } else {
        10 * pow10((n - 1) as nat)
    }
}

/// ASCII letters in lower case, other bytes unchanged.
pub open spec fn lower(b: u8) -> u8 {
    if 65 <= b && b <= 90 {
        (b + 32) as u8
    } else {
        b
    }
}

pub open spec fn is_word(s: Seq<u8>, w: Seq<u8>) -> bool {
    s.len() == w.len() && forall|i: int| 0 <= i < s.len() ==> lower(#[trigger] s[i]) == w[i]
}

/// `inf`, `infinity` or `nan`, in any case.
pub open spec fn non_finite_word(s: Seq<u8>) -> bool {
    ||| is_word(s, seq![105u8, 110u8, 102u8])
    ||| is_word(s, seq![105u8, 110u8, 102u8, 105u8, 110u8, 105u8, 116u8, 121u8])
    ||| is_word(s, seq![110u8, 97u8, 110u8])
}

/// 1 when `s` starts with `+` or `-`, else 0.
pub open spec fn sign_len(s: Seq<u8>) -> int {
    if s.len() > 0 && (s[0] == 43u8 || s[0] == 45u8) {
        1
    } else {
        0
    }
}

pub open spec fn is_negative(s: Seq<u8>) -> bool {
    s.len() > 0 && s[0] == 45u8
}

pub open spec fn body(s: Seq<u8>) -> Seq<u8> {
    s.subrange(sign_len(s), s.len() as int)
}

/// Index of the first `e` or `E` at or after `from`, or the length.
pub open spec fn exp_index(s: Seq<u8>, from: int) -> int
    decreases s.len() - from,
{
    if from < 0 || from >= s.len() {
        s.len() as int
    } else if s[from] == 101u8 || s[from] == 69u8 {
        from
    } else {
        exp_index(s, from + 1)
    }
}

/// Index of the first `.` in `from..end`, or `end`.
pub open spec fn dot_index(s: Seq<u8>, from: int, end: int) -> int
    decreases end - from,
{
    if from < 0 || from >= end || end > s.len() {
        end
    } else if s[from] == 46u8 {
        from
    } else {
        dot_index(s, from + 1, end)
    }
}

/// Where the digits before the exponent end.
pub open spec fn mantissa_end(s: Seq<u8>) -> int {
    exp_index(s, sign_len(s))
}

pub open spec fn dot_pos(s: Seq<u8>) -> int {
    dot_index(s, sign_len(s), mantissa_end(s))
}

pub open spec fn integer_part(s: Seq<u8>) -> Seq<u8> {
    s.subrange(sign_len(s), dot_pos(s))
}

pub open spec fn fraction_part(s: Seq<u8>) -> Seq<u8> {
    if dot_pos(s) < mantissa_end(s) {
        s.subrange(dot_pos(s) + 1, mantissa_end(s))
    } else {
        Seq::empty()
    }
}

/// What follows `e` or `E` (empty when there is no exponent).
pub open spec fn exponent_part(s: Seq<u8>) -> Seq<u8> {
    if mantissa_end(s) < s.len() {
        s.subrange(mantissa_end(s) + 1, s.len() as int)
    } else {
        Seq::empty()
    }
}

pub open spec fn exponent_digits(s: Seq<u8>) -> Seq<u8> {
    let x = exponent_part(s);
    x.subrange(sign_len(x), x.len() as int)
}

pub open spec fn exponent_value(s: Seq<u8>) -> int {
    if is_negative(exponent_part(s)) {
        -digits_value(exponent_digits(s))
    } else {
        digits_value(exponent_digits(s)) as int
    }
}

/// Digits with an optional `.`, at least one digit, and an optional
/// exponent of at least one digit.
pub open spec fn number_syntax(s: Seq<u8>) -> bool {
    &&& all_digits(integer_part(s))
    &&& all_digits(fraction_part(s))
    &&& integer_part(s).len() + fraction_part(s).len() >= 1
    &&& mantissa_end(s) < s.len() ==> exponent_digits(s).len() >= 1 && all_digits(exponent_digits(s))
}

/// The grammar of `f32::from_str`.
pub open spec fn float_syntax(s: Seq<u8>) -> bool {
    non_finite_word(body(s)) || number_syntax(s)
}

/// `m` without its trailing zeros.
pub open spec fn strip_zeros(m: Seq<u8>) -> Seq<u8>
    decreases m.len(),
{
    if m.len() > 0 && m.last() == 48u8 {
        strip_zeros(m.drop_last())
    } else {
        m
    }
}

pub open spec fn mantissa(s: Seq<u8>) -> Seq<u8> {
    integer_part(s) + fraction_part(s)
}

/// The value of a number field is `significand * 10^scale` hundredths, the
/// significand being its digits without trailing zeros.
pub open spec fn significand(s: Seq<u8>) -> nat {
    digits_value(strip_zeros(mantissa(s)))
}

pub open spec fn scale(s: Seq<u8>) -> int {
    exponent_value(s) - fraction_part(s).len() + 2 + (mantissa(s).len() - strip_zeros(mantissa(s)).len())
}

/// The value of a field in hundredths, or why there is none.
pub open spec fn spec_parse_field(s: Seq<u8>) -> Result<i32, FieldError> {
    if !float_syntax(s) {
        Err(FieldError::NotANumber)
    } else if non_finite_word(body(s)) {
        Err(FieldError::Unrepresentable)
    } else if significand(s) == 0 {
        Ok(0)
    } else if scale(s) < 0 || significand(s) * pow10(scale(s) as nat) > MAX_HUNDREDTHS {
        Err(FieldError::Unrepresentable)
    } else {
        Ok(
            (if is_negative(s) {
                -(significand(s) * pow10(scale(s) as nat))
            } else {
                significand(s) * pow10(scale(s) as nat) as int
            }) as i32,
        )
    }
}

/// A longer run of digits is worth at least as much as its prefix.
pub proof fn lemma_digits_value_prefix(s: Seq<u8>, k: int)
    requires
        all_digits(s),
        0 <= k <= s.len(),
    ensures
        digits_value(s.take(k)) <= digits_value(s),
    decreases s.len(),
{
    if k < s.len() {
        let t = s.drop_last();
        assert(t.take(k) =~= s.take(k));
        lemma_digits_value_prefix(t, k);
    } else {
        assert(s.take(k) =~= s);
    }
}

pub proof fn lemma_pow10_monotone(a: nat, b: nat)
    requires
        a <= b,
    ensures
        pow10(a) <= pow10(b),
        pow10(a) >= 1,
    decreases b,
{
    if a < b {
        lemma_pow10_monotone(a, (b - 1) as nat);
    } else if a > 0 {
        lemma_pow10_monotone((a - 1) as nat, (a - 1) as nat);
    }
}

/// From ten places on, a non-zero significand is too large.
pub proof fn lemma_large_scale(c: nat, t: nat)
    requires
        c >= 1,
        t >= 10,
    ensures
        c * pow10(t) > MAX_HUNDREDTHS,
{
    reveal_with_fuel(pow10, 11);
    assert(pow10(10) == 10000000000);
    lemma_pow10_monotone(10, t);
    assert(c * pow10(t) >= pow10(t)) by (nonlinear_arith)
        requires
            c >= 1,
    ;
}

/// Dropping trailing zeros divides the value by ten per zero: the mantissa
/// is worth its significand times ten to the number of zeros dropped.
pub proof fn lemma_strip_zeros_value(m: Seq<u8>)
    ensures
        digits_value(m) == digits_value(strip_zeros(m)) * pow10((m.len() - strip_zeros(m).len()) as nat),
        strip_zeros(m).len() <= m.len(),
    decreases m.len(),
{
    if m.len() > 0 && m.last() == 48u8 {
        let p = m.drop_last();
        lemma_strip_zeros_value(p);
        let z = (p.len() - strip_zeros(p).len()) as nat;
        assert(pow10(z + 1) == 10 * pow10(z));
        assert(strip_zeros(m) == strip_zeros(p));
        assert(digits_value(m) == digits_value(p) * 10);
        assert((m.len() - strip_zeros(m).len()) as nat == z + 1);
        let sig = digits_value(strip_zeros(p));
        assert(sig * pow10(z) * 10 == sig * pow10(z + 1)) by (nonlinear_arith)
            requires
                pow10(z + 1) == 10 * pow10(z),
        ;
        assert(digits_value(m) == sig * pow10(z + 1));
    } else {
        assert(strip_zeros(m) == m);
        assert(pow10(0) == 1);
        assert(digits_value(m) * pow10(0) == digits_value(m));
    }
}

proof fn lemma_digits_have_no_marker(s: Seq<u8>, from: int)
    requires
        0 <= from <= s.len(),
        forall|i: int| from <= i < s.len() ==> is_digit(#[trigger] s[i]),
    ensures
        exp_index(s, from) == s.len(),
        dot_index(s, from, s.len() as int) == s.len(),
    decreases s.len() - from,
{
    if from < s.len() {
        assert(is_digit(s[from]));
        lemma_digits_have_no_marker(s, from + 1);
    }
}

/// A field of plain digits, after an optional sign, is that many whole
/// units: a hundred hundredths each, negated after a `-`.
pub proof fn lemma_whole_number_field(s: Seq<u8>)
    requires
        s.len() >= 1,
        ({
            let p = if s[0] == 43u8 || s[0] == 45u8 { 1int } else { 0int };
            &&& s.len() > p
            &&& forall|i: int| p <= i < s.len() ==> is_digit(#[trigger] s[i])
            &&& 100 * digits_value(s.subrange(p, s.len() as int)) <= MAX_HUNDREDTHS
        }),
    ensures
        ({
            let p = if s[0] == 43u8 || s[0] == 45u8 { 1int } else { 0int };
            let v: int = 100 * (digits_value(s.subrange(p, s.len() as int)) as int);
            spec_parse_field(s) == Ok::<i32, FieldError>(
                (if s[0] == 45u8 {
                    -v
                } else {
                    v
                }) as i32,
            )
        }),
{
    let p = if s[0] == 43u8 || s[0] == 45u8 { 1int } else { 0int };
    let t = s.subrange(p, s.len() as int);
    assert(sign_len(s) == p);
    lemma_digits_have_no_marker(s, p);
    assert(mantissa_end(s) == s.len());
    assert(dot_pos(s) == s.len());
    assert(integer_part(s) == t);
    assert(fraction_part(s) =~= Seq::<u8>::empty());
    assert(exponent_part(s) =~= Seq::<u8>::empty());
    assert(exponent_digits(s) =~= Seq::<u8>::empty());
    assert(exponent_value(s) == 0);
    assert(mantissa(s) =~= t);
    assert(all_digits(t)) by {
        assert forall|i: int| 0 <= i < t.len() implies is_digit(#[trigger] t[i]) by {
            assert(t[i] == s[p + i]);
        }
    }
    assert(!non_finite_word(body(s))) by {
        assert(body(s) == t);
        assert(is_digit(t[0]));
        assert(lower(t[0]) == t[0]);
    }
    assert(number_syntax(s));
    lemma_strip_zeros_value(t);
    let z = (t.len() - strip_zeros(t).len()) as nat;
    let sig = digits_value(strip_zeros(t));
    assert(scale(s) == 2 + z);
    reveal_with_fuel(pow10, 3);
    assert(pow10(z + 2) == 100 * pow10(z)) by {
        assert(pow10(z + 2) == 10 * pow10(z + 1));
        assert(pow10(z + 1) == 10 * pow10(z));
    }
    assert(sig * pow10(z + 2) == 100 * (sig * pow10(z))) by (nonlinear_arith)
        requires
            pow10(z + 2) == 100 * pow10(z),
    ;
    if sig == 0 {
        assert(digits_value(t) == 0) by (nonlinear_arith)
            requires
                digits_value(t) == sig * pow10(z),
                sig == 0,
        ;
    }
}

proof fn lemma_exp_index_bounds(s: Seq<u8>, from: int)
    requires
        0 <= from <= s.len(),
    ensures
        from <= exp_index(s, from) <= s.len(),
        forall|j: int| from <= j < exp_index(s, from) ==> s[j] != 101u8 && s[j] != 69u8,
    decreases s.len() - from,
{
    if from < s.len() && s[from] != 101u8 && s[from] != 69u8 {
        lemma_exp_index_bounds(s, from + 1);
    }
}

proof fn lemma_dot_index_bounds(s: Seq<u8>, from: int, end: int)
    requires
        0 <= from <= end <= s.len(),
    ensures
        from <= dot_index(s, from, end) <= end,
    decreases end - from,
{
    if from < end && s[from] != 46u8 {
        lemma_dot_index_bounds(s, from + 1, end);
    }
}

fn lower_byte(b: u8) -> (r: u8)
    ensures
        r == lower(b),
{
    if 65 <= b && b <= 90 {
        b + 32
    } else {
        b
    }
}

/// Whether the field after its sign is `inf`, `infinity` or `nan`.
fn is_non_finite(field: &[u8], start: usize) -> (b: bool)
    requires
        start as int == sign_len(field@),
    ensures
        b == non_finite_word(body(field@)),
{
    let ghost w = body(field@);
    let ghost inf = seq![105u8, 110u8, 102u8];
    let ghost infinity = seq![105u8, 110u8, 102u8, 105u8, 110u8, 105u8, 116u8, 121u8];
    let ghost nan = seq![110u8, 97u8, 110u8];
    let len = field.len() - start;
    if len == 3 {
        let a = lower_byte(field[start]);
        let b = lower_byte(field[start + 1]);
        let c = lower_byte(field[start + 2]);
        assert(w[0] == field@[start as int] && w[1] == field@[start + 1] && w[2] == field@[start + 2]);
        assert(!is_word(w, infinity));
        if a == 105 && b == 110 && c == 102 {
            assert(is_word(w, inf));
            true
        } else if a == 110 && b == 97 && c == 110 {
            assert(is_word(w, nan));
            true
        } else {
            assert(!is_word(w, inf)) by {
                if a != 105 { assert(lower(w[0]) != inf[0]); }
                else if b != 110 { assert(lower(w[1]) != inf[1]); }
                else { assert(lower(w[2]) != inf[2]); }
            }
            assert(!is_word(w, nan)) by {
                if a != 110 { assert(lower(w[0]) != nan[0]); }
                else if b != 97 { assert(lower(w[1]) != nan[1]); }
                else { assert(lower(w[2]) != nan[2]); }
            }
            false
        }
    } else if len == 8 {
        let mut i: usize = 0;
        let word: [u8; 8] = [105u8, 110u8, 102u8, 105u8, 110u8, 105u8, 116u8, 121u8];
        assert(word@ == infinity);
        assert(!is_word(w, inf) && !is_word(w, nan));
        while i < 8
            invariant
                field.len() - start == 8,
                start as int == sign_len(field@),
                w == body(field@),
                word@ == infinity,
                infinity == seq![105u8, 110u8, 102u8, 105u8, 110u8, 105u8, 116u8, 121u8],
                !is_word(w, seq![105u8, 110u8, 102u8]),
                !is_word(w, seq![110u8, 97u8, 110u8]),
                0 <= i <= 8,
                forall|j: int| 0 <= j < i ==> lower(#[trigger] w[j]) == infinity[j],
            decreases 8 - i,
        {
            assert(w[i as int] == field@[start + i]);
            if lower_byte(field[start + i]) != word[i] {
                assert(lower(w[i as int]) != infinity[i as int]);
                return false;
            }
            i = i + 1;
        }
        assert(is_word(w, infinity));
        true
    } else {
        false
    }
}


/// An exponent with its magnitude held up to `EXPONENT_CAP`.
pub open spec fn clamp_exponent(e: int) -> int {
    if e >= EXPONENT_CAP {
        EXPONENT_CAP as int
    } else if e <= -EXPONENT_CAP {
        -EXPONENT_CAP
    } else {
        e
    }
}

/// The bytes `from..to` when they are all digits.
fn digits_in(field: &[u8], from: usize, to: usize) -> (res: Option<Vec<u8>>)
    requires
        from <= to <= field@.len(),
    ensures
        match res {
            Some(v) => all_digits(field@.subrange(from as int, to as int)) && v@ == field@.subrange(
                from as int,
                to as int,
            ),
            None => !all_digits(field@.subrange(from as int, to as int)),
        },
{
    let ghost sub = field@.subrange(from as int, to as int);
    let mut v: Vec<u8> = Vec::new();
    let mut j = from;
    while j < to
        invariant
            from <= j <= to <= field@.len(),
            sub == field@.subrange(from as int, to as int),
            v@ == field@.subrange(from as int, j as int),
            all_digits(v@),
        decreases to - j,
    {
        if field[j] < 48u8 || field[j] > 57u8 {
            assert(!is_digit(sub[j - from]));
            return None;
        }
        v.push(field[j]);
        assert(v@ =~= field@.subrange(from as int, j + 1));
        j = j + 1;
    }
    Some(v)
}

/// The value of a run of digits, held up to `EXPONENT_CAP`.
fn saturated_value(digits: &Vec<u8>) -> (res: i128)
    requires
        all_digits(digits@),
    ensures
        res == clamp_exponent(digits_value(digits@) as int),
{
    let mut acc: i128 = 0;
    let mut k: usize = 0;
    while k < digits.len()
        invariant
            all_digits(digits@),
            0 <= k <= digits.len(),
            acc == clamp_exponent(digits_value(digits@.take(k as int)) as int),
        decreases digits.len() - k,
    {
        assert(digits@.take(k + 1).drop_last() =~= digits@.take(k as int));
        assert(is_digit(digits@[k as int]));
        let next = acc * 10 + (digits[k] - 48u8) as i128;
        acc = if next < EXPONENT_CAP {
            next
        } else {
            EXPONENT_CAP
        };
        k = k + 1;
    }
    assert(digits@.take(k as int) =~= digits@);
    acc
}

/// The exponent that follows `e` or `E` (starting at `from`), when it is an
/// optional sign and at least one digit.
fn exponent_in(field: &[u8], from: usize) -> (res: Option<i128>)
    requires
        from <= field@.len(),
    ensures
        ({
            let x = field@.subrange(from as int, field@.len() as int);
            let xd = x.subrange(sign_len(x), x.len() as int);
            match res {
                Some(e) => xd.len() >= 1 && all_digits(xd) && e == clamp_exponent(
                    if is_negative(x) {
                        -digits_value(xd)
                    } else {
                        digits_value(xd) as int
                    },
                ),
                None => !(xd.len() >= 1 && all_digits(xd)),
            }
        }),
{
    let ghost x = field@.subrange(from as int, field@.len() as int);
    let n = field.len();
    let mut k = from;
    let mut negative = false;
    if k < n && (field[k] == 43u8 || field[k] == 45u8) {
        negative = field[k] == 45u8;
        k = k + 1;
    }
    assert(k - from == sign_len(x));
    assert(field@.subrange(k as int, n as int) =~= x.subrange(sign_len(x), x.len() as int));
    if k == n {
        return None;
    }
    match digits_in(field, k, n) {
        None => None,
        Some(v) => {
            let e = saturated_value(&v);
            Some(
                if negative {
                    -e
                } else {
                    e
                },
            )
        },
    }
}

/// The end of `m` without its trailing zeros.
fn strip_end(m: &Vec<u8>) -> (z: usize)
    ensures
        z <= m@.len(),
        m@.take(z as int) == strip_zeros(m@),
{
    let mut z = m.len();
    assert(m@.take(z as int) =~= m@);
    while z > 0 && m[z - 1] == 48u8
        invariant
            0 <= z <= m@.len(),
            strip_zeros(m@) == strip_zeros(m@.take(z as int)),
        decreases z,
    {
        assert(m@.take(z as int).drop_last() =~= m@.take(z - 1));
        z = z - 1;
    }
    z
}

/// The value of the digits when it is at most `MAX_HUNDREDTHS`.
fn bounded_value(digits: &Vec<u8>, end: usize) -> (res: Option<u64>)
    requires
        all_digits(digits@),
        end <= digits@.len(),
    ensures
        match res {
            Some(c) => c == digits_value(digits@.take(end as int)) && c <= MAX_HUNDREDTHS,
            None => digits_value(digits@.take(end as int)) > MAX_HUNDREDTHS,
        },
{
    let ghost st = digits@.take(end as int);
    assert(all_digits(st));
    let mut c: u64 = 0;
    let mut k: usize = 0;
    while k < end
        invariant
            all_digits(digits@),
            all_digits(st),
            end <= digits@.len(),
            st == digits@.take(end as int),
            0 <= k <= end,
            c == digits_value(st.take(k as int)),
            c <= MAX_HUNDREDTHS,
        decreases end - k,
    {
        assert(st.take(k + 1).drop_last() =~= st.take(k as int));
        assert(st[k as int] == digits@[k as int]);
        let next = c * 10 + (digits[k] - 48u8) as u64;
        if next > MAX_HUNDREDTHS as u64 {
            proof {
                lemma_digits_value_prefix(st, k + 1);
            }
            return None;
        }
        c = next;
        k = k + 1;
    }
    assert(st.take(k as int) =~= st);
    Some(c)
}

/// `c * 10^t` when it is at most `MAX_HUNDREDTHS`.
fn scaled(c: u64, t: i128) -> (res: Option<u64>)
    requires
        1 <= c <= MAX_HUNDREDTHS,
        t >= 0,
    ensures
        match res {
            Some(v) => v == c * pow10(t as nat) && v <= MAX_HUNDREDTHS,
            None => c * pow10(t as nat) > MAX_HUNDREDTHS,
        },
{
    let mut v: u64 = c;
    let mut p: i128 = 0;
    assert(pow10(0) == 1);
    assert(c * pow10(0nat) == c);
    while p < t
        invariant
            0 <= p <= t,
            1 <= c,
            v == c * pow10(p as nat),
            v <= MAX_HUNDREDTHS,
        decreases t - p,
    {
        assert(pow10((p + 1) as nat) == 10 * pow10(p as nat));
        assert(c * pow10((p + 1) as nat) == 10 * (c * pow10(p as nat))) by (nonlinear_arith)
            requires
                pow10((p + 1) as nat) == 10 * pow10(p as nat),
        ;
        if v * 10 > MAX_HUNDREDTHS as u64 {
            proof {
                lemma_pow10_monotone((p + 1) as nat, t as nat);
                assert(c * pow10(t as nat) >= c * pow10((p + 1) as nat)) by (nonlinear_arith)
                    requires
                        pow10(t as nat) >= pow10((p + 1) as nat),
                        c >= 1,
                ;
            }
            return None;
        }
        v = v * 10;
        p = p + 1;
    }
    Some(v)
}

/// Reads a field as whole hundredths.
pub fn parse_hundredths(field: &[u8]) -> (res: Result<i32, FieldError>)
    ensures
        res == spec_parse_field(field@),
{
    let n = field.len();
    let ghost s = field@;
    let mut start: usize = 0;
    let mut negative = false;
    if n > 0 && (field[0] == 43u8 || field[0] == 45u8) {
        negative = field[0] == 45u8;
        start = 1;
    }
    assert(start == sign_len(s) && negative == is_negative(s));
    if is_non_finite(field, start) {
        return Err(FieldError::Unrepresentable);
    }
    let mut ei = start;
    while ei < n && field[ei] != 101u8 && field[ei] != 69u8
        invariant
            n == s.len(),
            s == field@,
            start <= ei <= n,
            exp_index(s, start as int) == exp_index(s, ei as int),
        decreases n - ei,
    {
        ei = ei + 1;
    }
    let mut d = start;
    while d < ei && field[d] != 46u8
        invariant
            n == s.len(),
            s == field@,
            start <= d <= ei <= n,
            dot_index(s, start as int, ei as int) == dot_index(s, d as int, ei as int),
        decreases ei - d,
    {
        d = d + 1;
    }
    assert(ei == mantissa_end(s) && d == dot_pos(s));
    assert(integer_part(s) == s.subrange(start as int, d as int));
    let mut digits = match digits_in(field, start, d) {
        Some(v) => v,
        None => return Err(FieldError::NotANumber),
    };
    let int_len = digits.len();
    let mut frac = if d < ei {
        assert(fraction_part(s) == s.subrange(d + 1, ei as int));
        match digits_in(field, d + 1, ei) {
            Some(v) => v,
            None => return Err(FieldError::NotANumber),
        }
    } else {
        assert(fraction_part(s) =~= Seq::<u8>::empty());
        Vec::new()
    };
    let frac_len = frac.len();
    assert(frac@ == fraction_part(s));
    digits.append(&mut frac);
    assert(digits@ =~= mantissa(s));
    if digits.len() == 0 {
        return Err(FieldError::NotANumber);
    }
    let exp: i128 = if ei < n {
        assert(exponent_part(s) == s.subrange(ei + 1, n as int));
        match exponent_in(field, ei + 1) {
            Some(e) => e,
            None => return Err(FieldError::NotANumber),
        }
    } else {
        assert(exponent_part(s) =~= Seq::<u8>::empty());
        assert(exponent_digits(s) =~= Seq::<u8>::empty());
        0
    };
    assert(exp == clamp_exponent(exponent_value(s)));
    assert(number_syntax(s));
    let z = strip_end(&digits);
    assert(all_digits(digits@)) by {
        assert forall|i: int| 0 <= i < digits@.len() implies is_digit(#[trigger] digits@[i]) by {
            if i < int_len {
                assert(digits@[i] == integer_part(s)[i]);
            } else {
                assert(digits@[i] == fraction_part(s)[i - int_len]);
            }
        }
    }
    let c = match bounded_value(&digits, z) {
        Some(c) => c,
        None => {
            proof {
                let sc = scale(s);
                if sc >= 0 {
                    lemma_pow10_monotone(0, sc as nat);
                    assert(significand(s) * pow10(sc as nat) >= significand(s)) by (nonlinear_arith)
                        requires
                            pow10(sc as nat) >= 1,
                    ;
                }
            }
            return Err(FieldError::Unrepresentable);
        },
    };
    assert(c == significand(s));
    if c == 0 {
        return Ok(0);
    }
    let sc: i128 = exp - frac_len as i128 + 2 + (digits.len() - z) as i128;
    let ghost exact = scale(s);
    assert(exact == exponent_value(s) - frac_len + 2 + (digits@.len() - z));
    if sc < 0 {
        return Err(FieldError::Unrepresentable);
    }
    match scaled(c, sc) {
        None => {
            proof {
                if exact >= 10 {
                    lemma_large_scale(c as nat, exact as nat);
                }
            }
            Err(FieldError::Unrepresentable)
        },
        Some(v) => {
            proof {
                if sc >= 10 {
                    lemma_large_scale(c as nat, sc as nat);
                }
            }
            if negative {
                Ok(-(v as i32))
            } else {
                Ok(v as i32)
            }
        },
    }
}

} // verus!
