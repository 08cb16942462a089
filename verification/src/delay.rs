//! The delay field of the timing log.
//!
//! A delay is written as a decimal number of seconds. Reading one back
//! accepts the grammar that Rust documents for floating-point text —
//! `Sign? ( 'inf' | 'infinity' | 'nan' | Number )` with `Number` made of
//! digits, an optional fraction and an optional `e`/`E` exponent, keywords
//! case-insensitive — and yields the delay as whole microseconds, rounded
//! down. A negative value or `nan` never causes a sleep, so both read as
//! zero; `inf` and anything above `u64::MAX` microseconds saturate. A field
//! outside the grammar is rejected, which replay reports as invalid timing
//! data.

use vstd::prelude::*;

use crate::numbers::{
    all_digits, dec_val, dec_val_exact, dec_val_exact128, digit, digit_val, is_digit,
    lemma_dec_val_append_zeros,
    lemma_dec_val_lower, lemma_dec_val_strip_zeros, lemma_dec_val_truncate, lemma_dec_val_upper,
    lemma_pow10_mono, lemma_pow10_pos, pow10, zero_digits,
};
use crate::strings::{chars_of, copy_range};

verus! {

/// The first index at or after `j` that does not hold a digit, or the length
/// when digits run to the end.
pub open spec fn digits_end(s: Seq<char>, j: int) -> int
    recommends
        0 <= j,
    decreases s.len() - j,
{
    if j >= s.len() {
        j
    } else if !is_digit(s[j]) {
        j
    } else {
        digits_end(s, j + 1)
    }
}

proof fn lemma_digits_end(s: Seq<char>, j: int)
    requires
        0 <= j <= s.len(),
    ensures
        j <= digits_end(s, j) <= s.len(),
        forall|i: int| j <= i < digits_end(s, j) ==> is_digit(#[trigger] s[i]),
        digits_end(s, j) < s.len() ==> !is_digit(s[digits_end(s, j)]),
    decreases s.len() - j,
{
    if j < s.len() && is_digit(s[j]) {
        lemma_digits_end(s, j + 1);
    }
}

/// Where the integer digits of the mantissa end.
pub open spec fn int_end(t: Seq<char>) -> int {
    digits_end(t, 0)
}

/// Whether a fraction dot follows the integer digits.
pub open spec fn has_dot(t: Seq<char>) -> bool {
    int_end(t) < t.len() && t[int_end(t)] == '.'
}

/// Where the mantissa — integer digits, dot, fraction digits — ends.
pub open spec fn frac_end(t: Seq<char>) -> int {
    if has_dot(t) {
        digits_end(t, int_end(t) + 1)
    } else {
        int_end(t)
    }
}

/// The integer digits of the mantissa.
pub open spec fn int_digits(t: Seq<char>) -> Seq<char> {
    t.subrange(0, int_end(t))
}

/// The fraction digits of the mantissa.
pub open spec fn frac_digits(t: Seq<char>) -> Seq<char> {
    if has_dot(t) {
        t.subrange(int_end(t) + 1, frac_end(t))
    } else {
        Seq::empty()
    }
}

/// The mantissa holds at least one digit.
pub open spec fn mant_nonempty(t: Seq<char>) -> bool {
    int_end(t) > 0 || frac_digits(t).len() > 0
}

/// Where the exponent's digits begin, when an exponent marker stands at
/// `frac_end`.
pub open spec fn exp_digits_start(t: Seq<char>) -> int {
    let q = frac_end(t);
    if q + 1 < t.len() && (t[q + 1] == '+' || t[q + 1] == '-') {
        q + 2
    } else {
        q + 1
    }
}

/// Whether the exponent carries a minus sign.
pub open spec fn exp_negative(t: Seq<char>) -> bool {
    let q = frac_end(t);
    q + 1 < t.len() && t[q + 1] == '-'
}

/// An exponent — marker, optional sign, digits to the end — follows the
/// mantissa.
pub open spec fn valid_exp_tail(t: Seq<char>) -> bool {
    let q = frac_end(t);
    &&& q < t.len()
    &&& (t[q] == 'e' || t[q] == 'E')
    &&& exp_digits_start(t) < t.len()
    &&& digits_end(t, exp_digits_start(t)) == t.len()
}

/// `t` is a number of the delay grammar: a nonempty mantissa followed by
/// nothing or by a well-formed exponent.
pub open spec fn valid_number(t: Seq<char>) -> bool {
    &&& mant_nonempty(t)
    &&& (frac_end(t) == t.len() || valid_exp_tail(t))
}

/// The exponent's signed value; zero when no exponent is present.
pub open spec fn exp_value(t: Seq<char>) -> int {
    if frac_end(t) == t.len() {
        0
    } else if exp_negative(t) {
        -(dec_val(t.subrange(exp_digits_start(t), t.len() as int)) as int)
    } else {
        dec_val(t.subrange(exp_digits_start(t), t.len() as int)) as int
    }
}

/// The number's value in whole microseconds, rounded down: the mantissa
/// digits scaled by ten to the exponent, shifted six places up.
pub open spec fn number_micros(t: Seq<char>) -> nat {
    let digits = int_digits(t) + frac_digits(t);
    let shift = exp_value(t) + 6 - frac_digits(t).len();
    if shift >= 0 {
        dec_val(digits) * pow10(shift as nat)
    } else {
        dec_val(digits) / pow10((-shift) as nat)
    }
}

/// `n` clamped to what a `u64` can hold.
pub open spec fn sat64(n: nat) -> u64 {
    if n > u64::MAX {
        u64::MAX
    } else {
        n as u64
    }
}

/// Case-insensitive match of one character against a lowercase letter,
/// stated over code points.
pub open spec fn ci_letter_eq(c: char, lower: char) -> bool {
    (c as u32) == (lower as u32) || (c as u32) + 0x20 == (lower as u32)
}

/// Case-insensitive match of `t` against the lowercase keyword `kw`.
pub open spec fn matches_kw(t: Seq<char>, kw: Seq<char>) -> bool {
    t.len() == kw.len() && forall|i: int| 0 <= i < t.len() ==> ci_letter_eq(#[trigger] t[i], kw[i])
}

/// What a delay field means: `Some` microseconds when the field follows the
/// grammar, `None` otherwise.
pub open spec fn delay_micros(s: Seq<char>) -> Option<u64> {
    let signed = s.len() > 0 && (s[0] == '+' || s[0] == '-');
    let neg = s.len() > 0 && s[0] == '-';
    let t = if signed {
        s.drop_first()
    } else {
        s
    };
    if matches_kw(t, "inf"@) || matches_kw(t, "infinity"@) {
        Some(
            if neg {
                0
            } else {
                u64::MAX
            },
        )
    } else if matches_kw(t, "nan"@) {
        Some(0u64)
    } else if valid_number(t) {
        if neg {
            Some(0u64)
        } else {
            Some(sat64(number_micros(t)))
        }
    } else {
        None
    }
}

/// `digits_end` lands exactly on the first non-digit.
proof fn lemma_digits_end_at(s: Seq<char>, j: int, k: int)
    requires
        0 <= j <= k <= s.len(),
        forall|i: int| j <= i < k ==> is_digit(#[trigger] s[i]),
        k < s.len() ==> !is_digit(s[k]),
    ensures
        digits_end(s, j) == k,
    decreases k - j,
{
    if j < k {
        lemma_digits_end_at(s, j + 1, k);
    }
}

/// The delay text the recorder writes — seconds, a dot, six fraction digits
/// — reads back as exactly its microseconds.
#[verifier::rlimit(100)]
#[verifier::spinoff_prover]
pub proof fn lemma_written_delay_reads_back(micros: u64)
    ensures
        delay_micros(
            crate::numbers::dec_str((micros as nat) / 1000000) + seq!['.'] + crate::numbers::frac6(
                (micros as nat) % 1000000,
            ),
        ) == Some(micros),
{
    let d = crate::numbers::dec_str((micros as nat) / 1000000);
    let f = crate::numbers::frac6((micros as nat) % 1000000);
    let a = d + seq!['.'] + f;
    crate::numbers::lemma_dec_str_digits((micros as nat) / 1000000);
    crate::numbers::lemma_frac6_digits((micros as nat) % 1000000);
    let dn = d.len() as int;
    assert(a[0] == d[0]);
    assert(is_digit(a[0]));
    assert(a[0] != '+' && a[0] != '-') by {
        if a[0] == '+' {
            assert(is_digit('+'));
        }
        if a[0] == '-' {
            assert(is_digit('-'));
        }
    }
    // not a keyword: the first character is a digit, no keyword starts with one
    proof_kw_mismatch(a);
    // the mantissa: digits, one dot, six fraction digits, nothing after
    assert forall|i: int| 0 <= i < dn implies is_digit(#[trigger] a[i]) by {
        assert(a[i] == d[i]);
    }
    assert(a[dn] == '.');
    assert(!is_digit(a[dn])) by {
        if is_digit(a[dn]) {
            assert(is_digit('.'));
        }
    }
    lemma_digits_end_at(a, 0, dn);
    assert(int_end(a) == dn);
    assert(has_dot(a));
    assert forall|i: int| dn + 1 <= i < a.len() implies is_digit(#[trigger] a[i]) by {
        assert(a[i] == f[i - (dn + 1)]);
    }
    lemma_digits_end_at(a, dn + 1, a.len() as int);
    assert(frac_end(a) == a.len());
    assert(int_digits(a) =~= d);
    assert(frac_digits(a) =~= f);
    assert(mant_nonempty(a));
    assert(valid_number(a));
    assert(exp_value(a) == 0);
    // the value: integer digits shifted six places, plus the fraction
    let digits = int_digits(a) + frac_digits(a);
    crate::numbers::lemma_dec_val_split(digits, dn);
    assert(digits.subrange(0, dn) =~= d);
    assert(digits.subrange(dn, digits.len() as int) =~= f);
    assert(pow10(6) == 1000000) by {
        reveal_with_fuel(pow10, 7);
    }
    vstd::arithmetic::div_mod::lemma_fundamental_div_mod(micros as int, 1000000);
    assert((micros as nat) % 1000000 < 1000000) by (nonlinear_arith);
    assert(dec_val(d) == (micros as nat) / 1000000);
    assert(dec_val(f) == (micros as nat) % 1000000);
    assert(digits.len() == dn + 6);
    assert(dec_val(digits) == dec_val(digits.subrange(0, dn)) * pow10(
        (digits.len() - dn) as nat,
    ) + dec_val(digits.subrange(dn, digits.len() as int)));
    assert(dec_val(digits) == dec_val(d) * pow10(6) + dec_val(f));
    assert(dec_val(digits) == ((micros as nat) / 1000000) * 1000000 + (micros as nat) % 1000000);
    assert(micros as int == 1000000 * ((micros as int) / 1000000) + (micros as int) % 1000000);
    assert(((micros as nat) / 1000000) * 1000000 == 1000000 * ((micros as nat) / 1000000)) by (
    nonlinear_arith);
    assert(dec_val(digits) == micros);
    let shift = exp_value(a) + 6 - frac_digits(a).len();
    assert(shift == 0);
    assert(shift as nat == 0nat);
    assert(pow10(shift as nat) == 1);
    assert(number_micros(a) == ({
        let digits2 = int_digits(a) + frac_digits(a);
        let shift2 = exp_value(a) + 6 - frac_digits(a).len();
        if shift2 >= 0 {
            dec_val(digits2) * pow10(shift2 as nat)
        } else {
            dec_val(digits2) / pow10((-shift2) as nat)
        }
    }));
    assert(dec_val(digits) * pow10(shift as nat) == dec_val(digits) * 1) by (nonlinear_arith)
        requires
            pow10(shift as nat) == 1,
    ;
    assert(number_micros(a) == micros);
    assert(sat64(number_micros(a)) == micros);
    assert(delay_micros(a) == Some(micros));
}

/// No keyword matches text that begins with a digit.
proof fn proof_kw_mismatch(a: Seq<char>)
    requires
        a.len() > 0,
        is_digit(a[0]),
    ensures
        !matches_kw(a, "inf"@),
        !matches_kw(a, "infinity"@),
        !matches_kw(a, "nan"@),
{
    reveal_strlit("inf");
    reveal_strlit("infinity");
    reveal_strlit("nan");
    if matches_kw(a, "inf"@) {
        assert(ci_letter_eq(a[0], "inf"@[0]));
    }
    if matches_kw(a, "infinity"@) {
        assert(ci_letter_eq(a[0], "infinity"@[0]));
    }
    if matches_kw(a, "nan"@) {
        assert(ci_letter_eq(a[0], "nan"@[0]));
    }
}

fn ci_eq(c: char, lower: char) -> (r: bool)
    ensures
        r == ci_letter_eq(c, lower),
{
    let cu = c as u32;
    let lu = lower as u32;
    cu == lu || cu + 0x20 == lu
}

/// Case-insensitive comparison of `tv` as a whole against the keyword `kw`.
fn kw_match(tv: &Vec<char>, kw: &str) -> (r: bool)
    ensures
        r == matches_kw(tv@, kw@),
{
    let kchars = chars_of(kw);
    let m = tv.len();
    if m != kchars.len() {
        return false;
    }
    let mut i: usize = 0;
    while i < m
        invariant
            i <= m,
            m == tv@.len(),
            m == kchars@.len(),
            kchars@ == kw@,
            forall|j: int| 0 <= j < i ==> ci_letter_eq(#[trigger] tv@[j], kw@[j]),
        decreases m - i,
    {
        if !ci_eq(tv[i], kchars[i]) {
            return false;
        }
        i = i + 1;
    }
    true
}

/// Append the characters `src[from..to]` to `out`.
fn push_range(out: &mut Vec<char>, src: &Vec<char>, from: usize, to: usize)
    requires
        from <= to <= src@.len(),
    ensures
        final(out)@ == old(out)@ + src@.subrange(from as int, to as int),
{
    let mut i: usize = from;
    while i < to
        invariant
            from <= i <= to <= src@.len(),
            out@ == old(out)@ + src@.subrange(from as int, i as int),
        decreases to - i,
    {
        out.push(src[i]);
        proof {
            assert(old(out)@ + src@.subrange(from as int, i + 1) =~= (old(out)@ + src@.subrange(
                from as int,
                i as int,
            )).push(src@[i as int]));
        }
        i = i + 1;
    }
    proof {
        assert(out@ =~= old(out)@ + src@.subrange(from as int, to as int));
    }
}

/// Append `k` zero digits to `out`.
fn push_zeros(out: &mut Vec<char>, k: usize)
    ensures
        final(out)@ == old(out)@ + zero_digits(k as nat),
{
    let mut i: usize = 0;
    while i < k
        invariant
            i <= k,
            out@ == old(out)@ + zero_digits(i as nat),
        decreases k - i,
    {
        out.push('0');
        proof {
            assert(old(out)@ + zero_digits((i + 1) as nat) =~= (old(out)@ + zero_digits(
                i as nat,
            )).push('0'));
        }
        i = i + 1;
    }
}

/// Parse a delay field into whole microseconds; `None` when the field is
/// outside the delay grammar.
#[verifier::rlimit(60)]
pub fn parse_delay_micros(field: &Vec<char>) -> (r: Option<u64>)
    ensures
        r == delay_micros(field@),
{
    let n = field.len();
    let signed = n > 0 && {
        let c0 = field[0];
        c0 == '+' || c0 == '-'
    };
    let neg = n > 0 && field[0] == '-';
    let start: usize = if signed {
        1
    } else {
        0
    };
    let ghost t = if signed {
        field@.drop_first()
    } else {
        field@
    };
    let tv = copy_range(field, start, n);
    proof {
        assert(tv@ =~= t);
    }
    // keywords
    if kw_match(&tv, "inf") || kw_match(&tv, "infinity") {
        return Some(
            if neg {
                0
            } else {
                u64::MAX
            },
        );
    }
    if kw_match(&tv, "nan") {
        return Some(0);
    }
    let m = tv.len();
    // integer digits of the mantissa
    let mut p1: usize = 0;
    while p1 < m && digit(tv[p1])
        invariant
            p1 <= m,
            m == tv@.len(),
            digits_end(tv@, 0) == digits_end(tv@, p1 as int),
        decreases m - p1,
    {
        p1 = p1 + 1;
    }
    proof {
        assert(digits_end(tv@, p1 as int) == p1 as int);
        assert(int_end(tv@) == p1 as int);
    }
    // optional dot and fraction digits
    let dotted = p1 < m && tv[p1] == '.';
    let mut p2: usize = if dotted {
        p1 + 1
    } else {
        p1
    };
    if dotted {
        while p2 < m && digit(tv[p2])
            invariant
                p1 + 1 <= p2 <= m,
                m == tv@.len(),
                digits_end(tv@, p1 + 1) == digits_end(tv@, p2 as int),
            decreases m - p2,
        {
            p2 = p2 + 1;
        }
        proof {
            assert(digits_end(tv@, p2 as int) == p2 as int);
        }
    }
    proof {
        assert(dotted == has_dot(tv@));
        assert(frac_end(tv@) == p2 as int);
    }
    proof {
        if dotted {
            assert(frac_digits(tv@).len() == p2 - (p1 + 1));
        } else {
            assert(frac_digits(tv@).len() == 0);
        }
    }
    if !(p1 > 0 || (dotted && p2 > p1 + 1)) {
        assert(!mant_nonempty(tv@));
        return None;
    }
    // optional exponent
    let mut eneg = false;
    let mut es: usize = m;
    if p2 < m {
        let ec = tv[p2];
        if !(ec == 'e' || ec == 'E') {
            assert(!valid_exp_tail(tv@));
            return None;
        }
        let mut r0: usize = p2 + 1;
        if r0 < m && (tv[r0] == '+' || tv[r0] == '-') {
            eneg = tv[r0] == '-';
            r0 = r0 + 1;
        }
        proof {
            assert(r0 as int == exp_digits_start(tv@));
            assert(eneg == exp_negative(tv@));
        }
        if r0 >= m {
            assert(!valid_exp_tail(tv@));
            return None;
        }
        let mut q: usize = r0;
        while q < m && digit(tv[q])
            invariant
                r0 <= q <= m,
                m == tv@.len(),
                digits_end(tv@, r0 as int) == digits_end(tv@, q as int),
            decreases m - q,
        {
            q = q + 1;
        }
        proof {
            assert(digits_end(tv@, q as int) == q as int);
        }
        if q < m {
            assert(digits_end(tv@, r0 as int) != m as int);
            assert(!valid_exp_tail(tv@));
            return None;
        }
        es = r0;
    }
    proof {
        assert(valid_number(tv@));
    }
    if neg {
        return Some(0);
    }
    eval_number(&tv, p1, p2, dotted, es, eneg)
}

/// Evaluate a validated number. `p1`, `p2` bound the mantissa, `es` the
/// exponent digits (`es == tv.len()` when there is no exponent), `eneg` its
/// sign.
#[verifier::rlimit(60)]
fn eval_number(tv: &Vec<char>, p1: usize, p2: usize, dotted: bool, es: usize, eneg: bool) -> (r:
    Option<u64>)
    requires
        valid_number(tv@),
        p1 as int == int_end(tv@),
        dotted == has_dot(tv@),
        p2 as int == frac_end(tv@),
        frac_end(tv@) == tv@.len() ==> es == tv@.len(),
        frac_end(tv@) != tv@.len() ==> es as int == exp_digits_start(tv@) && es < tv@.len(),
        eneg == (frac_end(tv@) != tv@.len() && exp_negative(tv@)),
    ensures
        r == Some(sat64(number_micros(tv@))),
{
    let m = tv.len();
    proof {
        lemma_digits_end(tv@, 0);
        if dotted {
            lemma_digits_end(tv@, p1 + 1);
        }
        if frac_end(tv@) != tv@.len() {
            lemma_digits_end(tv@, es as int);
        }
    }
    let flen: usize = if dotted {
        p2 - (p1 + 1)
    } else {
        0
    };
    proof {
        assert(flen as int == frac_digits(tv@).len());
    }
    // mantissa digits, integer part then fraction part
    let mut dv: Vec<char> = Vec::new();
    push_range(&mut dv, &tv, 0, p1);
    if dotted {
        push_range(&mut dv, &tv, p1 + 1, p2);
    }
    let ghost digits = int_digits(tv@) + frac_digits(tv@);
    proof {
        assert(dv@ =~= digits);
        lemma_digits_end(tv@, 0);
        if dotted {
            lemma_digits_end(tv@, p1 + 1);
        }
        assert(all_digits(dv@));
    }
    // strip leading zeros of the mantissa digits
    let dlen = dv.len();
    let mut ds: usize = 0;
    while ds < dlen && (dv[ds] as u32) == 0x30
        invariant
            ds <= dlen,
            dlen == dv@.len(),
            forall|i: int| 0 <= i < ds ==> digit_val(#[trigger] dv@[i]) == 0,
        decreases dlen - ds,
    {
        ds = ds + 1;
    }
    proof {
        lemma_dec_val_strip_zeros(dv@, ds as int);
        if ds < dlen {
            assert(is_digit(dv@[ds as int]) && (dv@[ds as int] as u32) != 0x30);
            assert(digit_val(dv@[ds as int]) >= 1);
        }
    }
    // exponent value
    let ghost ev_spec = exp_value(tv@);
    if es >= m {
        proof {
            assert(ev_spec == 0);
        }
        return finish_number(&dv, ds, 0, flen, Ghost(tv@));
    }
    // strip leading zeros of the exponent digits
    let mut ez: usize = es;
    while ez < m && (tv[ez] as u32) == 0x30
        invariant
            es <= ez <= m,
            m == tv@.len(),
            forall|i: int| es <= i < ez ==> digit_val(#[trigger] tv@[i]) == 0,
        decreases m - ez,
    {
        ez = ez + 1;
    }
    let ghost emag = dec_val(tv@.subrange(es as int, m as int));
    proof {
        let whole = tv@.subrange(es as int, m as int);
        let stripped = whole.subrange(ez - es, whole.len() as int);
        assert forall|i: int| 0 <= i < ez - es implies digit_val(#[trigger] whole[i]) == 0 by {
            assert(whole[i] == tv@[es + i]);
        }
        lemma_dec_val_strip_zeros(whole, ez - es);
        assert(stripped =~= tv@.subrange(ez as int, m as int));
        assert(emag == dec_val(tv@.subrange(ez as int, m as int)));
        if eneg {
            assert(ev_spec == -(emag as int));
        } else {
            assert(ev_spec == emag as int);
        }
    }
    if m - ez > 20 {
        proof {
            assert(is_digit(tv@[ez as int]));
            assert((tv@[ez as int] as u32) != 0x30);
            assert(digit_val(tv@[ez as int]) >= 1);
        }
        return eval_huge_exponent(&dv, ds, eneg, flen, tv, ez, Ghost(emag));
    }
    // at most 20 exponent digits: the magnitude is exact in a u128
    let mag: u128 = match dec_val_exact128(&tv, ez, m) {
        Some(v) => v,
        None => {
            proof {
                lemma_dec_val_upper(tv@.subrange(ez as int, m as int));
                lemma_pow10_mono(tv@.subrange(ez as int, m as int).len() as nat, 20);
                pow10_20_fact();
            }
            0
        },
    };
    proof {
        assert(mag == emag);
        lemma_dec_val_upper(tv@.subrange(ez as int, m as int));
        lemma_pow10_mono(tv@.subrange(ez as int, m as int).len() as nat, 20);
        pow10_20_fact();
        assert(emag <= pow10(20));
    }
    let e_signed: i128 = if eneg {
        -(mag as i128)
    } else {
        mag as i128
    };
    proof {
        assert(e_signed as int == ev_spec);
    }
    finish_number(&dv, ds, e_signed, flen, Ghost(tv@))
}

/// Evaluate a validated number whose exponent has more than twenty
/// significant digits: the scale dwarfs every possible digit count, so the
/// value saturates to `u64::MAX`, or rounds down to zero when the exponent
/// is negative or the mantissa is zero.
fn eval_huge_exponent(dv: &Vec<char>, ds: usize, eneg: bool, flen: usize, tv: &Vec<char>, ez: usize, Ghost(emag): Ghost<nat>) -> (r: Option<u64>)
    requires
        valid_number(tv@),
        ds <= dv@.len(),
        dv@ =~= int_digits(tv@) + frac_digits(tv@),
        forall|i: int| 0 <= i < ds ==> digit_val(#[trigger] dv@[i]) == 0,
        ds < dv@.len() ==> digit_val(dv@[ds as int]) >= 1,
        flen as int == frac_digits(tv@).len(),
        frac_end(tv@) != tv@.len(),
        eneg == exp_negative(tv@),
        exp_digits_start(tv@) <= ez < tv@.len(),
        tv@.len() - ez > 20,
        emag == dec_val(tv@.subrange(ez as int, tv@.len() as int)),
        emag == dec_val(tv@.subrange(exp_digits_start(tv@), tv@.len() as int)),
        is_digit(tv@[ez as int]),
        digit_val(tv@[ez as int]) >= 1,
    ensures
        r == Some(sat64(number_micros(tv@))),
{
    let ghost digits = int_digits(tv@) + frac_digits(tv@);
    let ghost ev_spec = exp_value(tv@);
    let ghost shift = ev_spec + 6 - flen;
    let dlen = dv.len();
    proof {
        lemma_dec_val_strip_zeros(dv@, ds as int);
        let stripped = tv@.subrange(ez as int, tv@.len() as int);
        assert(stripped[0] == tv@[ez as int]);
        lemma_dec_val_lower(stripped);
        lemma_pow10_mono(20, (stripped.len() - 1) as nat);
        pow10_20_fact();
        assert(emag >= pow10(20));
        if eneg {
            assert(ev_spec == -(emag as int));
        } else {
            assert(ev_spec == emag as int);
        }
    }
    if eneg {
        // the shift is hugely negative: everything rounds down to zero
        proof {
            assert(shift < 0);
            let dn = dv@.subrange(ds as int, dv@.len() as int);
            lemma_dec_val_upper(dn);
            lemma_pow10_mono(dn.len() as nat, (-shift) as nat);
            vstd::arithmetic::div_mod::lemma_basic_div(
                dec_val(digits) as int,
                pow10((-shift) as nat) as int,
            );
        }
        Some(0)
    } else if ds >= dv.len() {
        // a zero mantissa stays zero at any scale
        proof {
            let dn = dv@.subrange(ds as int, dv@.len() as int);
            assert(dn =~= Seq::<char>::empty());
            assert(dec_val(dn) == 0);
            assert(dec_val(digits) == 0);
            assert(shift >= 0);
            assert(dec_val(digits) * pow10(shift as nat) == 0) by (nonlinear_arith)
                requires
                    dec_val(digits) == 0,
            ;
        }
        Some(0)
    } else {
        // the shift is hugely positive: saturate
        proof {
            let dn = dv@.subrange(ds as int, dv@.len() as int);
            assert(dn[0] == dv@[ds as int]);
            lemma_dec_val_lower(dn);
            lemma_pow10_pos((dn.len() - 1) as nat);
            assert(dec_val(dn) >= 1);
            assert(dec_val(digits) >= 1);
            assert(shift >= 21);
            lemma_pow10_mono(21, shift as nat);
            pow10_20_fact();
            assert(dec_val(digits) * pow10(shift as nat) >= 1 * pow10(shift as nat)) by (
            nonlinear_arith)
                requires
                    dec_val(digits) >= 1,
            ;
            assert(number_micros(tv@) > u64::MAX);
        }
        Some(u64::MAX)
    }
}

proof fn pow10_20_fact()
    ensures
        pow10(20) == 0x56bc75e2d63100000,
        pow10(20) > u64::MAX,
        pow10(21) > u64::MAX,
{
    reveal_with_fuel(pow10, 22);
}

/// Finish evaluating a validated number: scale the stripped mantissa digits
/// `dv[ds..]` by ten to `e_signed` less the fraction width, six places up,
/// saturating into a `u64`.
fn finish_number(dv: &Vec<char>, ds: usize, e_signed: i128, flen: usize, Ghost(t): Ghost<Seq<char>>) -> (r:
    Option<u64>)
    requires
        -(pow10(20) as int) <= e_signed as int <= pow10(20) as int,
        ds <= dv@.len(),
        all_digits(dv@),
        dv@ =~= int_digits(t) + frac_digits(t),
        valid_number(t),
        forall|i: int| 0 <= i < ds ==> digit_val(#[trigger] dv@[i]) == 0,
        ds < dv@.len() ==> digit_val(dv@[ds as int]) >= 1,
        e_signed as int == exp_value(t),
        flen as int == frac_digits(t).len(),
    ensures
        r == Some(sat64(number_micros(t))),
{
    let ghost digits = int_digits(t) + frac_digits(t);
    let ghost shift_spec = exp_value(t) + 6 - frac_digits(t).len();
    proof {
        lemma_dec_val_strip_zeros(dv@, ds as int);
    }
    let dlen = dv.len();
    let dnlen = dlen - ds;
    let ghost dn = dv@.subrange(ds as int, dlen as int);
    if dnlen == 0 {
        proof {
            assert(dn =~= Seq::<char>::empty());
            assert(dec_val(digits) == 0);
            if shift_spec >= 0 {
                assert(dec_val(digits) * pow10(shift_spec as nat) == 0) by (nonlinear_arith)
                    requires
                        dec_val(digits) == 0,
                ;
            } else {
                lemma_pow10_pos((-shift_spec) as nat);
                vstd::arithmetic::div_mod::lemma_basic_div(
                    0int,
                    pow10((-shift_spec) as nat) as int,
                );
            }
        }
        return Some(0);
    }
    proof {
        pow10_20_fact();
    }
    let shift: i128 = e_signed + 6 - (flen as i128);
    proof {
        assert(shift as int == shift_spec);
    }
    if shift >= 0 {
        if shift > 20 {
            proof {
                lemma_dec_val_lower(dn);
                lemma_pow10_pos((dn.len() - 1) as nat);
                lemma_pow10_mono(21, shift_spec as nat);
                pow10_20_fact();
                assert(dec_val(dn) >= 1);
                assert(dec_val(digits) * pow10(shift_spec as nat) >= 1 * pow10(shift_spec as nat))
                    by (nonlinear_arith)
                    requires
                        dec_val(digits) >= 1,
                ;
            }
            return Some(u64::MAX);
        }
        let sh = shift as usize;
        let mut ext: Vec<char> = Vec::new();
        push_range(&mut ext, dv, ds, dlen);
        push_zeros(&mut ext, sh);
        proof {
            lemma_dec_val_append_zeros(dn, sh as nat);
            assert(ext@ =~= dn + zero_digits(sh as nat));
        }
        match dec_val_exact(&ext, 0, ext.len()) {
            Some(v) => {
                proof {
                    assert(ext@.subrange(0, ext@.len() as int) =~= ext@);
                    assert(v == dec_val(digits) * pow10(shift_spec as nat));
                }
                Some(v)
            },
            None => {
                proof {
                    assert(ext@.subrange(0, ext@.len() as int) =~= ext@);
                    assert(dec_val(digits) * pow10(shift_spec as nat) > u64::MAX);
                }
                Some(u64::MAX)
            },
        }
    } else {
        let k = -(shift as i128);
        if k >= dnlen as i128 {
            proof {
                lemma_dec_val_upper(dn);
                lemma_pow10_mono(dn.len() as nat, (-shift_spec) as nat);
                vstd::arithmetic::div_mod::lemma_basic_div(
                    dec_val(digits) as int,
                    pow10((-shift_spec) as nat) as int,
                );
            }
            return Some(0);
        }
        let kk = k as usize;
        let keep = dnlen - kk;
        proof {
            lemma_dec_val_truncate(dn, kk as int);
            assert(dn.subrange(0, dn.len() - kk) =~= dv@.subrange(ds as int, (ds + keep) as int));
        }
        match dec_val_exact(dv, ds, ds + keep) {
            Some(v) => {
                proof {
                    assert(v == dec_val(digits) / pow10((-shift_spec) as nat));
                }
                Some(v)
            },
            None => {
                proof {
                    assert(dec_val(digits) / pow10((-shift_spec) as nat) > u64::MAX);
                }
                Some(u64::MAX)
            },
        }
    }
}

} // verus!
