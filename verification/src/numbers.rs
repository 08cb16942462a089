//! Decimal text: the digit arithmetic behind the timing format.
//!
//! The legacy timing log stores each delay as a decimal number of seconds
//! with six fractional digits, and each byte count as a plain decimal
//! integer. This module holds the verified parsing and formatting of such
//! text. Delays are measured in whole microseconds, which six fractional
//! digits represent exactly.

use vstd::arithmetic::div_mod::lemma_fundamental_div_mod_converse;
use vstd::prelude::*;

verus! {

/// An ASCII decimal digit.
pub open spec fn is_digit(c: char) -> bool {
    0x30 <= (c as u32) && (c as u32) <= 0x39
}

/// The numeric value of a digit; other characters count as zero so that the
/// definition is total.
pub open spec fn digit_val(c: char) -> nat {
    if is_digit(c) {
        ((c as u32) - 0x30) as nat
    } else {
        0
    }
}

/// Every character of `s` is a decimal digit.
pub open spec fn all_digits(s: Seq<char>) -> bool {
    forall|i: int| 0 <= i < s.len() ==> is_digit(#[trigger] s[i])
}

/// The value of `s` read as a big-endian decimal numeral.
pub open spec fn dec_val(s: Seq<char>) -> nat
    decreases s.len(),
{
    if s.len() == 0 {
        0
    } else {
        dec_val(s.drop_last()) * 10 + digit_val(s.last())
    }
}

/// Ten to the `n`.
pub open spec fn pow10(n: nat) -> nat
    decreases n,
{
    if n == 0 {
        1
    } else {
        10 * pow10((n - 1) as nat)
    }
}

pub proof fn lemma_pow10_pos(n: nat)
    ensures
        pow10(n) >= 1,
    decreases n,
{
    if n > 0 {
        lemma_pow10_pos((n - 1) as nat);
    }
}

pub proof fn lemma_pow10_mono(a: nat, b: nat)
    requires
        a <= b,
    ensures
        pow10(a) <= pow10(b),
    decreases b,
{
    if a < b {
        lemma_pow10_mono(a, (b - 1) as nat);
        lemma_pow10_pos((b - 1) as nat);
    }
}

/// A numeral is smaller than ten to its width.
pub proof fn lemma_dec_val_upper(s: Seq<char>)
    ensures
        dec_val(s) < pow10(s.len() as nat),
    decreases s.len(),
{
    if s.len() > 0 {
        lemma_dec_val_upper(s.drop_last());
    }
}

/// A numeral with a nonzero leading digit is at least ten to one less than
/// its width.
pub proof fn lemma_dec_val_lower(s: Seq<char>)
    requires
        s.len() > 0,
        digit_val(s[0]) >= 1,
    ensures
        dec_val(s) >= pow10((s.len() - 1) as nat),
    decreases s.len(),
{
    if s.len() == 1 {
        assert(s.drop_last() =~= Seq::<char>::empty());
        assert(dec_val(s) == dec_val(s.drop_last()) * 10 + digit_val(s.last()));
        assert(s.last() == s[0]);
    } else {
        assert(s.drop_last()[0] == s[0]);
        lemma_dec_val_lower(s.drop_last());
        lemma_pow10_pos((s.len() - 2) as nat);
    }
}

/// Splitting a numeral at `j` splits its value.
pub proof fn lemma_dec_val_split(s: Seq<char>, j: int)
    requires
        0 <= j <= s.len(),
    ensures
        dec_val(s) == dec_val(s.subrange(0, j)) * pow10((s.len() - j) as nat) + dec_val(
            s.subrange(j, s.len() as int),
        ),
    decreases s.len() - j,
{
    let pre = s.subrange(0, j);
    let suf = s.subrange(j, s.len() as int);
    if j == s.len() {
        assert(pre =~= s);
        assert(suf =~= Seq::<char>::empty());
        assert(pow10((s.len() - j) as nat) == 1);
        assert(dec_val(suf) == 0);
        assert(dec_val(pre) * 1 == dec_val(pre));
    } else {
        let dl = s.drop_last();
        lemma_dec_val_split(dl, j);
        assert(dl.subrange(0, j) =~= pre);
        assert(dl.subrange(j, dl.len() as int) =~= suf.drop_last());
        assert(suf.last() == s.last());
        let q = dec_val(pre);
        let a = dec_val(suf.drop_last());
        let d = digit_val(s.last());
        let k = (s.len() - 1 - j) as nat;
        assert(dec_val(dl) == q * pow10(k) + a);
        assert(dec_val(s) == dec_val(dl) * 10 + digit_val(s.last()));
        assert(suf.len() > 0);
        assert(dec_val(suf) == dec_val(suf.drop_last()) * 10 + digit_val(suf.last()));
        assert(dec_val(suf) == a * 10 + d);
        assert((q * pow10(k) + a) * 10 + d == q * (10 * pow10(k)) + (a * 10 + d))
            by (nonlinear_arith);
        assert(pow10((s.len() - j) as nat) == 10 * pow10(k));
        assert(dec_val(s) == q * pow10((s.len() - j) as nat) + dec_val(suf));
    }
}

/// Leading zeros do not change a numeral's value.
pub proof fn lemma_dec_val_strip_zeros(s: Seq<char>, z: int)
    requires
        0 <= z <= s.len(),
        forall|i: int| 0 <= i < z ==> digit_val(#[trigger] s[i]) == 0,
    ensures
        dec_val(s) == dec_val(s.subrange(z, s.len() as int)),
    decreases z,
{
    if z > 0 {
        lemma_dec_val_split(s, 1);
        assert(s.subrange(0, 1) =~= seq![s[0]]);
        assert(seq![s[0]].drop_last() =~= Seq::<char>::empty());
        assert(dec_val(seq![s[0]]) == dec_val(Seq::<char>::empty()) * 10 + digit_val(
            seq![s[0]].last(),
        ));
        assert(dec_val(Seq::<char>::empty()) == 0);
        assert(digit_val(s[0]) == 0);
        assert(dec_val(seq![s[0]]) == 0);
        let t = s.subrange(1, s.len() as int);
        lemma_dec_val_strip_zeros(t, z - 1);
        assert(t.subrange(z - 1, t.len() as int) =~= s.subrange(z, s.len() as int));
    } else {
        assert(s.subrange(0, s.len() as int) =~= s);
    }
}

/// `k` zero digits.
pub open spec fn zero_digits(k: nat) -> Seq<char> {
    Seq::new(k, |i: int| '0')
}

/// Appending `k` zero digits multiplies a numeral's value by ten to the `k`.
pub proof fn lemma_dec_val_append_zeros(s: Seq<char>, k: nat)
    ensures
        dec_val(s + zero_digits(k)) == dec_val(s) * pow10(k),
    decreases k,
{
    let z = zero_digits(k);
    if k == 0 {
        assert(s + z =~= s);
        assert(pow10(0) == 1);
        assert(dec_val(s) * 1 == dec_val(s));
    } else {
        let z1 = zero_digits((k - 1) as nat);
        assert((s + z).drop_last() =~= s + z1);
        assert((s + z).last() == '0');
        assert((s + z).len() > 0);
        lemma_dec_val_append_zeros(s, (k - 1) as nat);
        assert(dec_val(s + z) == dec_val((s + z).drop_last()) * 10 + digit_val((s + z).last()));
        assert(digit_val('0') == 0);
        assert(dec_val(s + z) == dec_val(s) * pow10((k - 1) as nat) * 10);
        assert(dec_val(s) * pow10((k - 1) as nat) * 10 == dec_val(s) * (10 * pow10(
            (k - 1) as nat,
        ))) by (nonlinear_arith);
        assert(pow10(k) == 10 * pow10((k - 1) as nat));
    }
}

/// Dropping the last `k` digits of a numeral divides its value by ten to the
/// `k`, rounding down.
pub proof fn lemma_dec_val_truncate(s: Seq<char>, k: int)
    requires
        0 <= k <= s.len(),
    ensures
        dec_val(s) / pow10(k as nat) == dec_val(s.subrange(0, s.len() - k)),
{
    let j = s.len() - k;
    lemma_dec_val_split(s, j);
    let q = dec_val(s.subrange(0, j));
    let r = dec_val(s.subrange(j, s.len() as int));
    lemma_dec_val_upper(s.subrange(j, s.len() as int));
    lemma_pow10_pos(k as nat);
    lemma_fundamental_div_mod_converse(
        dec_val(s) as int,
        pow10(k as nat) as int,
        q as int,
        r as int,
    );
}

/// A prefix never exceeds the whole numeral in value.
pub proof fn lemma_dec_val_prefix_le(s: Seq<char>, j: int)
    requires
        0 <= j <= s.len(),
    ensures
        dec_val(s.subrange(0, j)) <= dec_val(s),
{
    lemma_dec_val_split(s, j);
    let q = dec_val(s.subrange(0, j));
    let p = pow10((s.len() - j) as nat);
    lemma_pow10_pos((s.len() - j) as nat);
    assert(q * p >= q * 1) by (nonlinear_arith)
        requires
            p >= 1,
            q >= 0,
    ;
}

/// Whether `c` is a decimal digit.
pub fn digit(c: char) -> (r: bool)
    ensures
        r == is_digit(c),
{
    let u = c as u32;
    0x30 <= u && u <= 0x39
}

/// The exact value of the numeral `digits@.subrange(from, to)`, or `None`
/// when it does not fit in a `u64`.
pub fn dec_val_exact(digits: &Vec<char>, from: usize, to: usize) -> (r: Option<u64>)
    requires
        from <= to <= digits@.len(),
    ensures
        match r {
            Some(v) => v == dec_val(digits@.subrange(from as int, to as int)),
            None => dec_val(digits@.subrange(from as int, to as int)) > u64::MAX,
        },
{
    let ghost whole = digits@.subrange(from as int, to as int);
    let mut acc: u64 = 0;
    let mut i: usize = from;
    while i < to
        invariant
            from <= i <= to <= digits@.len(),
            whole == digits@.subrange(from as int, to as int),
            acc == dec_val(digits@.subrange(from as int, i as int)),
        decreases to - i,
    {
        let c = digits[i];
        let d: u64 = if digit(c) {
            (c as u32 as u64) - 0x30
        } else {
            0
        };
        assert(d == digit_val(c));
        let ghost pre = digits@.subrange(from as int, i as int);
        let ghost pre1 = digits@.subrange(from as int, i + 1);
        assert(pre1.drop_last() =~= pre);
        assert(pre1.last() == digits@[i as int]);
        let step = match acc.checked_mul(10) {
            Some(x) => x.checked_add(d),
            None => None,
        };
        match step {
            Some(v) => {
                acc = v;
            },
            None => {
                proof {
                    assert(dec_val(pre1) > u64::MAX);
                    lemma_dec_val_prefix_le(whole, i + 1 - from);
                    assert(whole.subrange(0, i + 1 - from) =~= pre1);
                }
                return None;
            },
        }
        i = i + 1;
    }
    proof {
        assert(digits@.subrange(from as int, i as int) =~= whole);
    }
    Some(acc)
}

/// The exact value of the numeral `digits@.subrange(from, to)`, or `None`
/// when it does not fit in a `u128`.
pub fn dec_val_exact128(digits: &Vec<char>, from: usize, to: usize) -> (r: Option<u128>)
    requires
        from <= to <= digits@.len(),
    ensures
        match r {
            Some(v) => v == dec_val(digits@.subrange(from as int, to as int)),
            None => dec_val(digits@.subrange(from as int, to as int)) > u128::MAX,
        },
{
    let ghost whole = digits@.subrange(from as int, to as int);
    let mut acc: u128 = 0;
    let mut i: usize = from;
    while i < to
        invariant
            from <= i <= to <= digits@.len(),
            whole == digits@.subrange(from as int, to as int),
            acc == dec_val(digits@.subrange(from as int, i as int)),
        decreases to - i,
    {
        let c = digits[i];
        let d: u128 = if digit(c) {
            (c as u32 as u128) - 0x30
        } else {
            0
        };
        assert(d == digit_val(c));
        let ghost pre = digits@.subrange(from as int, i as int);
        let ghost pre1 = digits@.subrange(from as int, i + 1);
        assert(pre1.drop_last() =~= pre);
        assert(pre1.last() == digits@[i as int]);
        let step = match acc.checked_mul(10) {
            Some(x) => x.checked_add(d),
            None => None,
        };
        match step {
            Some(v) => {
                acc = v;
            },
            None => {
                proof {
                    assert(dec_val(pre1) > u128::MAX);
                    lemma_dec_val_prefix_le(whole, i + 1 - from);
                    assert(whole.subrange(0, i + 1 - from) =~= pre1);
                }
                return None;
            },
        }
        i = i + 1;
    }
    proof {
        assert(digits@.subrange(from as int, i as int) =~= whole);
    }
    Some(acc)
}

/// The value of the field read as a decimal `usize` the way the byte counts
/// of the timing log are read: an optional leading `+`, then digits, with
/// anything else — including overflow — rejected.
pub open spec fn usize_literal(s: Seq<char>) -> Option<usize> {
    let t = if s.len() > 0 && s[0] == '+' {
        s.drop_first()
    } else {
        s
    };
    if t.len() > 0 && all_digits(t) && dec_val(t) <= usize::MAX {
        Some(dec_val(t) as usize)
    } else {
        None
    }
}

/// Parse a byte-count field.
pub fn parse_usize(field: &Vec<char>) -> (r: Option<usize>)
    ensures
        r == usize_literal(field@),
{
    let n = field.len();
    let start: usize = if n > 0 && field[0] == '+' {
        1
    } else {
        0
    };
    let ghost t = if field@.len() > 0 && field@[0] == '+' {
        field@.drop_first()
    } else {
        field@
    };
    proof {
        assert(t =~= field@.subrange(start as int, n as int));
    }
    if start >= n {
        return None;
    }
    let mut i: usize = start;
    while i < n
        invariant
            start <= i <= n,
            n == field@.len(),
            t == field@.subrange(start as int, n as int),
            t == (if field@.len() > 0 && field@[0] == '+' {
                field@.drop_first()
            } else {
                field@
            }),
            forall|k: int| start <= k < i ==> is_digit(#[trigger] field@[k]),
        decreases n - i,
    {
        if !digit(field[i]) {
            proof {
                assert(t[i - start] == field@[i as int]);
                assert(!is_digit(t[i - start]));
            }
            return None;
        }
        i = i + 1;
    }
    proof {
        assert forall|k: int| 0 <= k < t.len() implies is_digit(#[trigger] t[k]) by {
            assert(t[k] == field@[start + k]);
        }
    }
    match dec_val_exact(field, start, n) {
        Some(v) => {
            if v <= usize::MAX as u64 {
                Some(v as usize)
            } else {
                None
            }
        },
        None => None,
    }
}

/// The decimal numeral of `n`, without leading zeros (`0` itself is `"0"`).
pub open spec fn dec_str(n: nat) -> Seq<char>
    decreases n,
{
    if n < 10 {
        seq![digit_char(n)]
    } else {
        dec_str(n / 10).push(digit_char(n % 10))
    }
}

/// The digit character for a value below ten.
pub open spec fn digit_char(d: nat) -> char {
    if d == 0 {
        '0'
    } else if d == 1 {
        '1'
    } else if d == 2 {
        '2'
    } else if d == 3 {
        '3'
    } else if d == 4 {
        '4'
    } else if d == 5 {
        '5'
    } else if d == 6 {
        '6'
    } else if d == 7 {
        '7'
    } else if d == 8 {
        '8'
    } else if d == 9 {
        '9'
    } else {
        '0'
    }
}

fn digit_char_of(d: u64) -> (r: char)
    requires
        d < 10,
    ensures
        r == digit_char(d as nat),
{
    if d == 0 {
        '0'
    } else if d == 1 {
        '1'
    } else if d == 2 {
        '2'
    } else if d == 3 {
        '3'
    } else if d == 4 {
        '4'
    } else if d == 5 {
        '5'
    } else if d == 6 {
        '6'
    } else if d == 7 {
        '7'
    } else if d == 8 {
        '8'
    } else {
        '9'
    }
}

/// Append the decimal numeral of `n` to `out`.
pub fn push_dec(out: &mut Vec<char>, n: u64)
    ensures
        final(out)@ == old(out)@ + dec_str(n as nat),
    decreases n,
{
    if n < 10 {
        out.push(digit_char_of(n));
        proof {
            assert(old(out)@.push(digit_char(n as nat)) =~= old(out)@ + dec_str(n as nat));
        }
    } else {
        push_dec(out, n / 10);
        out.push(digit_char_of(n % 10));
        proof {
            assert((old(out)@ + dec_str((n / 10) as nat)).push(digit_char((n % 10) as nat)) =~= old(
                out,
            )@ + dec_str(n as nat));
        }
    }
}

/// Each digit character carries its value.
pub proof fn lemma_digit_char_val(d: nat)
    requires
        d < 10,
    ensures
        is_digit(digit_char(d)),
        digit_val(digit_char(d)) == d,
{
}

/// A written numeral is nonempty, all digits, and reads back as its value.
pub proof fn lemma_dec_str_digits(n: nat)
    ensures
        dec_str(n).len() >= 1,
        all_digits(dec_str(n)),
        dec_val(dec_str(n)) == n,
    decreases n,
{
    if n < 10 {
        lemma_digit_char_val(n);
        assert(dec_str(n) == seq![digit_char(n)]);
        assert(seq![digit_char(n)].drop_last() =~= Seq::<char>::empty());
        assert(dec_val(Seq::<char>::empty()) == 0);
        assert(seq![digit_char(n)].last() == digit_char(n));
        assert(dec_val(dec_str(n)) == n);
        assert forall|i: int| 0 <= i < dec_str(n).len() implies is_digit(
            #[trigger] dec_str(n)[i],
        ) by {
            assert(dec_str(n)[i] == digit_char(n));
        }
    } else {
        lemma_dec_str_digits(n / 10);
        lemma_digit_char_val(n % 10);
        let pre = dec_str(n / 10);
        assert(dec_str(n) == pre.push(digit_char(n % 10)));
        assert(pre.push(digit_char(n % 10)).drop_last() =~= pre);
        assert(pre.push(digit_char(n % 10)).last() == digit_char(n % 10));
        vstd::arithmetic::div_mod::lemma_fundamental_div_mod(n as int, 10);
        assert forall|i: int| 0 <= i < dec_str(n).len() implies is_digit(
            #[trigger] dec_str(n)[i],
        ) by {
            if i < pre.len() {
                assert(dec_str(n)[i] == pre[i]);
            } else {
                assert(dec_str(n)[i] == digit_char(n % 10));
            }
        }
    }
}

/// Six zero-padded fractional digits: the microsecond part of a delay.
pub open spec fn frac6(f: nat) -> Seq<char> {
    seq![
        digit_char((f / 100000) % 10),
        digit_char((f / 10000) % 10),
        digit_char((f / 1000) % 10),
        digit_char((f / 100) % 10),
        digit_char((f / 10) % 10),
        digit_char(f % 10),
    ]
}

/// The six fraction digits are digits, and for a value below a million they
/// read back as the value.
pub proof fn lemma_frac6_digits(f: nat)
    ensures
        frac6(f).len() == 6,
        all_digits(frac6(f)),
        f < 1000000 ==> dec_val(frac6(f)) == f,
{
    lemma_digit_char_val((f / 100000) % 10);
    lemma_digit_char_val((f / 10000) % 10);
    lemma_digit_char_val((f / 1000) % 10);
    lemma_digit_char_val((f / 100) % 10);
    lemma_digit_char_val((f / 10) % 10);
    lemma_digit_char_val(f % 10);
    let w = frac6(f);
    assert forall|i: int| 0 <= i < w.len() implies is_digit(#[trigger] w[i]) by {
        assert(w[0] == digit_char((f / 100000) % 10) && w[1] == digit_char((f / 10000) % 10) && w[2]
            == digit_char((f / 1000) % 10) && w[3] == digit_char((f / 100) % 10) && w[4]
            == digit_char((f / 10) % 10) && w[5] == digit_char(f % 10));
    }
    if f < 1000000 {
        reveal_with_fuel(dec_val, 8);
        assert(w.drop_last() =~= w.subrange(0, 5));
        assert(w.subrange(0, 5).drop_last() =~= w.subrange(0, 4));
        assert(w.subrange(0, 4).drop_last() =~= w.subrange(0, 3));
        assert(w.subrange(0, 3).drop_last() =~= w.subrange(0, 2));
        assert(w.subrange(0, 2).drop_last() =~= w.subrange(0, 1));
        assert(w.subrange(0, 1).drop_last() =~= Seq::<char>::empty());
        assert(dec_val(w) == ((((((f / 100000) % 10) * 10 + (f / 10000) % 10) * 10 + (f / 1000)
            % 10) * 10 + (f / 100) % 10) * 10 + (f / 10) % 10) * 10 + f % 10);
        vstd::arithmetic::div_mod::lemma_div_denominator(f as int, 10, 10);
        vstd::arithmetic::div_mod::lemma_div_denominator(f as int, 100, 10);
        vstd::arithmetic::div_mod::lemma_div_denominator(f as int, 1000, 10);
        vstd::arithmetic::div_mod::lemma_div_denominator(f as int, 10000, 10);
        vstd::arithmetic::div_mod::lemma_fundamental_div_mod(f as int, 10);
        vstd::arithmetic::div_mod::lemma_fundamental_div_mod((f / 10) as int, 10);
        vstd::arithmetic::div_mod::lemma_fundamental_div_mod((f / 100) as int, 10);
        vstd::arithmetic::div_mod::lemma_fundamental_div_mod((f / 1000) as int, 10);
        vstd::arithmetic::div_mod::lemma_fundamental_div_mod((f / 10000) as int, 10);
        assert((f / 100000) % 10 == f / 100000) by {
            assert(f / 100000 < 10) by (nonlinear_arith)
                requires
                    f < 1000000,
            ;
        }
    }
}

/// Append the six zero-padded fractional digits of `f` to `out`.
pub fn push_frac6(out: &mut Vec<char>, f: u64)
    ensures
        final(out)@ == old(out)@ + frac6(f as nat),
{
    out.push(digit_char_of((f / 100000) % 10));
    out.push(digit_char_of((f / 10000) % 10));
    out.push(digit_char_of((f / 1000) % 10));
    out.push(digit_char_of((f / 100) % 10));
    out.push(digit_char_of((f / 10) % 10));
    out.push(digit_char_of(f % 10));
    proof {
        assert(out@ =~= old(out)@ + frac6(f as nat));
    }
}

} // verus!
