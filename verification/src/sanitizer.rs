//! The ANSI sanitizer: a single left-to-right scan that removes
//! display-unsafe sequences while preserving colour and cursor-movement
//! escapes.
//!
//! Rules, first match wins at each position:
//! 1. ESC followed by `[` bounds a CSI sequence at the first ASCII letter or
//!    `~` (inclusive); if the sequence's text contains `2004` (bracketed
//!    paste), the whole sequence is dropped, otherwise the scan keeps the ESC
//!    and moves on one character, so the sequence passes through verbatim.
//! 2. Any other ESC, including one at the end of the input, is kept verbatim.
//! 3. A literal `?2004h` or `?2004l` not preceded by ESC is dropped whole.
//! 4. Any other control character except TAB, LF and CR is dropped.
//! 5. Everything else passes through unchanged.
//!
//! Truncated or partial sequences are never an error: unmatched prefixes are
//! emitted verbatim.

use vstd::prelude::*;

use crate::strings::{chars_of, chars_to_string};

verus! {

/// A control character that rule 4 drops: the Unicode control categories
/// (`U+0000..=U+001F` and `U+007F..=U+009F`) minus TAB, LF and CR. Note that
/// ESC falls in this class but is handled by rules 1 and 2 before rule 4.
pub open spec fn is_dropped_control(c: char) -> bool {
    &&& (c as u32) <= 0x1f || (0x7f <= (c as u32) && (c as u32) <= 0x9f)
    &&& c != '\t'
    &&& c != '\n'
    &&& c != '\r'
}

/// A character that ends the bounding scan of a CSI sequence: an ASCII
/// letter or `~`.
pub open spec fn is_csi_terminator(c: char) -> bool {
    ||| 0x41 <= (c as u32) && (c as u32) <= 0x5a
    ||| 0x61 <= (c as u32) && (c as u32) <= 0x7a
    ||| c == '~'
}

/// The four digits whose presence inside a CSI sequence, or in a literal
/// `?…h`/`?…l` group, marks bracketed-paste noise.
pub open spec fn marker_digits() -> Seq<char> {
    seq!['2', '0', '0', '4']
}

/// `t` has `2004` as a contiguous substring.
pub open spec fn contains_marker(t: Seq<char>) -> bool {
    exists|k: int| 0 <= k && k + 4 <= t.len() && #[trigger] t.subrange(k, k + 4) == marker_digits()
}

/// The index of the first CSI terminator at or after `j`, or `s.len()` when
/// none follows.
pub open spec fn csi_scan_end(s: Seq<char>, j: int) -> int
    recommends
        0 <= j,
    decreases s.len() - j,
{
    if j >= s.len() {
        j
    } else if is_csi_terminator(s[j]) {
        j
    } else {
        csi_scan_end(s, j + 1)
    }
}

proof fn lemma_csi_scan_end_bounds(s: Seq<char>, j: int)
    ensures
        j <= csi_scan_end(s, j),
        j <= s.len() ==> csi_scan_end(s, j) <= s.len(),
    decreases s.len() - j,
{
    if j < s.len() && !is_csi_terminator(s[j]) {
        lemma_csi_scan_end_bounds(s, j + 1);
    }
}

/// The sanitizer's result on the suffix of `s` that starts at `i`.
pub open spec fn clean_from(s: Seq<char>, i: int) -> Seq<char>
    recommends
        0 <= i,
    decreases s.len() - i,
    via clean_from_decreases
{
    if i >= s.len() {
        Seq::empty()
    } else {
        let c = s[i];
        if c == '\x1b' {
            if i + 1 < s.len() && s[i + 1] == '[' {
                let e = csi_scan_end(s, i + 2);
                let body = if e < s.len() {
                    s.subrange(i + 2, e + 1)
                } else {
                    s.subrange(i + 2, s.len() as int)
                };
                if contains_marker(body) {
                    let next = if e + 1 <= s.len() {
                        e + 1
                    } else {
                        s.len() as int
                    };
                    clean_from(s, next)
                } else {
                    seq!['\x1b'] + clean_from(s, i + 1)
                }
            } else {
                seq!['\x1b'] + clean_from(s, i + 1)
            }
        } else if c == '?' && i + 5 < s.len() && s.subrange(i + 1, i + 5) == marker_digits() && (
        s[i + 5] == 'h' || s[i + 5] == 'l') {
            clean_from(s, i + 6)
        } else if is_dropped_control(c) {
            clean_from(s, i + 1)
        } else {
            seq![c] + clean_from(s, i + 1)
        }
    }
}

#[via_fn]
proof fn clean_from_decreases(s: Seq<char>, i: int) {
    if i < s.len() && s[i] == '\x1b' && i + 1 < s.len() && s[i + 1] == '[' {
        lemma_csi_scan_end_bounds(s, i + 2);
    }
}

/// What the sanitizer returns on `s` as a whole.
pub open spec fn clean_spec(s: Seq<char>) -> Seq<char> {
    clean_from(s, 0)
}

fn dropped_control(c: char) -> (r: bool)
    ensures
        r == is_dropped_control(c),
{
    let u = c as u32;
    (u <= 0x1f || (0x7f <= u && u <= 0x9f)) && c != '\t' && c != '\n' && c != '\r'
}

fn csi_terminator(c: char) -> (r: bool)
    ensures
        r == is_csi_terminator(c),
{
    let u = c as u32;
    (0x41 <= u && u <= 0x5a) || (0x61 <= u && u <= 0x7a) || c == '~'
}

/// Whether `chars[from..to]` contains the four marker digits contiguously.
fn window_has_marker(chars: &Vec<char>, from: usize, to: usize) -> (r: bool)
    requires
        from <= to <= chars@.len(),
    ensures
        r == contains_marker(chars@.subrange(from as int, to as int)),
{
    let ghost t = chars@.subrange(from as int, to as int);
    if to - from < 4 {
        assert(!contains_marker(t));
        return false;
    }
    let mut k = from;
    while k <= to - 4
        invariant
            from <= k,
            from + 4 <= to <= chars@.len(),
            k <= to - 3,
            t == chars@.subrange(from as int, to as int),
            forall|m: int|
                0 <= m < k - from ==> #[trigger] t.subrange(m, m + 4) != marker_digits(),
        decreases to - k,
    {
        if chars[k] == '2' && chars[k + 1] == '0' && chars[k + 2] == '0' && chars[k + 3] == '4' {
            proof {
                assert(t.subrange(k - from, k - from + 4) =~= marker_digits());
            }
            return true;
        }
        proof {
            assert(t.subrange(k - from, k - from + 4) != marker_digits()) by {
                assert(t.subrange(k - from, k - from + 4)[0] == chars@[k as int]);
                assert(t.subrange(k - from, k - from + 4)[1] == chars@[k + 1]);
                assert(t.subrange(k - from, k - from + 4)[2] == chars@[k + 2]);
                assert(t.subrange(k - from, k - from + 4)[3] == chars@[k + 3]);
            }
        }
        k = k + 1;
    }
    proof {
        assert forall|m: int| 0 <= m && m + 4 <= t.len() implies #[trigger] t.subrange(m, m + 4)
            != marker_digits() by {
            assert(0 <= m < k - from);
        }
    }
    false
}

/// The characters of `s` that are not dropped controls, in order. This is the
/// text a terminal would be asked to display, with every control character
/// that rule 4 drops — ESC among them — taken out.
pub open spec fn visible(s: Seq<char>) -> Seq<char>
    decreases s.len(),
{
    if s.len() == 0 {
        Seq::empty()
    } else if is_dropped_control(s[0]) {
        visible(s.drop_first())
    } else {
        seq![s[0]] + visible(s.drop_first())
    }
}

/// A character the sanitizer can ever keep: ESC survives through rules 1
/// and 2, and everything outside the dropped control class survives rules
/// 4 and 5.
pub open spec fn kept_char(c: char) -> bool {
    c == '\x1b' || !is_dropped_control(c)
}

/// `s` with every character the sanitizer cannot keep removed.
pub open spec fn kept(s: Seq<char>) -> Seq<char>
    decreases s.len(),
{
    if s.len() == 0 {
        Seq::empty()
    } else if kept_char(s[0]) {
        seq![s[0]] + kept(s.drop_first())
    } else {
        kept(s.drop_first())
    }
}

/// `s` carries no bracketed-paste marker: the digits `2004` do not occur
/// contiguously among its visible characters. This is stronger than asking
/// that `s` itself has no `2004` substring — dropped control characters
/// standing between the digits would otherwise be removed by one pass and
/// leave a fresh marker for the next.
pub open spec fn marker_free(s: Seq<char>) -> bool {
    !contains_marker(visible(s))
}

proof fn lemma_visible_add(a: Seq<char>, b: Seq<char>)
    ensures
        visible(a + b) == visible(a) + visible(b),
    decreases a.len(),
{
    if a.len() == 0 {
        assert(a + b =~= b);
        assert(visible(a) + visible(b) =~= visible(b));
    } else {
        assert((a + b).drop_first() =~= a.drop_first() + b);
        lemma_visible_add(a.drop_first(), b);
        if !is_dropped_control(a[0]) {
            assert(seq![a[0]] + (visible(a.drop_first()) + visible(b)) =~= (seq![a[0]] + visible(
                a.drop_first(),
            )) + visible(b));
        }
    }
}

proof fn lemma_marker_digits_visible()
    ensures
        visible(marker_digits()) == marker_digits(),
{
    let m = marker_digits();
    reveal_with_fuel(visible, 6);
    assert(m.drop_first() =~= seq!['0', '0', '4']);
    assert(seq!['0', '0', '4'].drop_first() =~= seq!['0', '4']);
    assert(seq!['0', '4'].drop_first() =~= seq!['4']);
    assert(seq!['4'].drop_first() =~= Seq::<char>::empty());
    assert(visible(seq!['4']) =~= seq!['4']);
    assert(visible(seq!['0', '4']) =~= seq!['0', '4']);
    assert(visible(seq!['0', '0', '4']) =~= seq!['0', '0', '4']);
    assert(visible(m) =~= m);
}

/// A marker that stands contiguously in `s` stands contiguously among its
/// visible characters too.
proof fn lemma_marker_in_visible(s: Seq<char>, k: int)
    requires
        0 <= k,
        k + 4 <= s.len(),
        s.subrange(k, k + 4) == marker_digits(),
    ensures
        contains_marker(visible(s)),
{
    let a = s.subrange(0, k);
    let m = s.subrange(k, k + 4);
    let b = s.subrange(k + 4, s.len() as int);
    assert(s =~= (a + m) + b);
    lemma_visible_add(a + m, b);
    lemma_visible_add(a, m);
    lemma_marker_digits_visible();
    let va = visible(a);
    let vb = visible(b);
    assert(visible(s) == (va + marker_digits()) + vb);
    let kk = va.len() as int;
    assert(visible(s).subrange(kk, kk + 4) =~= marker_digits());
}

/// In a marker-free sequence the four digits never stand contiguously.
proof fn lemma_marker_free_no_substring(s: Seq<char>)
    requires
        marker_free(s),
    ensures
        forall|k: int|
            0 <= k && k + 4 <= s.len() ==> #[trigger] s.subrange(k, k + 4) != marker_digits(),
{
    assert forall|k: int| 0 <= k && k + 4 <= s.len() implies #[trigger] s.subrange(k, k + 4)
        != marker_digits() by {
        if s.subrange(k, k + 4) == marker_digits() {
            lemma_marker_in_visible(s, k);
        }
    }
}

/// When the four digits never stand contiguously in `s`, the scan takes no
/// marker branch: it simply keeps every keepable character.
proof fn lemma_clean_is_kept(s: Seq<char>, i: int)
    requires
        0 <= i <= s.len(),
        forall|k: int|
            0 <= k && k + 4 <= s.len() ==> #[trigger] s.subrange(k, k + 4) != marker_digits(),
    ensures
        clean_from(s, i) == kept(s.subrange(i, s.len() as int)),
    decreases s.len() - i,
{
    let suffix = s.subrange(i, s.len() as int);
    if i >= s.len() {
        assert(suffix =~= Seq::<char>::empty());
    } else {
        let c = s[i];
        assert(suffix.drop_first() =~= s.subrange(i + 1, s.len() as int));
        if c == '\x1b' {
            if i + 1 < s.len() && s[i + 1] == '[' {
                let e = csi_scan_end(s, i + 2);
                lemma_csi_scan_end_bounds(s, i + 2);
                let body = if e < s.len() {
                    s.subrange(i + 2, e + 1)
                } else {
                    s.subrange(i + 2, s.len() as int)
                };
                if contains_marker(body) {
                    let k = choose|k: int|
                        0 <= k && k + 4 <= body.len() && #[trigger] body.subrange(k, k + 4)
                            == marker_digits();
                    assert(body.subrange(k, k + 4) =~= s.subrange(i + 2 + k, i + 2 + k + 4));
                    assert(false);
                }
                lemma_clean_is_kept(s, i + 1);
            } else {
                lemma_clean_is_kept(s, i + 1);
            }
        } else if c == '?' && i + 5 < s.len() && s.subrange(i + 1, i + 5) == marker_digits() && (
        s[i + 5] == 'h' || s[i + 5] == 'l') {
            assert(s.subrange(i + 1, i + 5) =~= s.subrange(i + 1, i + 1 + 4));
            assert(false);
        } else {
            lemma_clean_is_kept(s, i + 1);
        }
    }
}

proof fn lemma_visible_kept(s: Seq<char>)
    ensures
        visible(kept(s)) == visible(s),
    decreases s.len(),
{
    if s.len() > 0 {
        lemma_visible_kept(s.drop_first());
        let c = s[0];
        if kept_char(c) {
            assert((seq![c] + kept(s.drop_first())).drop_first() =~= kept(s.drop_first()));
            assert((seq![c] + kept(s.drop_first()))[0] == c);
        }
    }
}

proof fn lemma_kept_idempotent(s: Seq<char>)
    ensures
        kept(kept(s)) == kept(s),
    decreases s.len(),
{
    if s.len() > 0 {
        lemma_kept_idempotent(s.drop_first());
        let c = s[0];
        if kept_char(c) {
            assert((seq![c] + kept(s.drop_first())).drop_first() =~= kept(s.drop_first()));
            assert((seq![c] + kept(s.drop_first()))[0] == c);
        }
    }
}

/// On input free of bracketed-paste markers the sanitizer is idempotent:
/// one pass removes everything a second pass could remove. The premise
/// matters — around a marker, or around digits that dropped controls
/// separate, a first pass can uncover text that only a second pass would
/// drop.
pub proof fn lemma_clean_idempotent(s: Seq<char>)
    requires
        marker_free(s),
    ensures
        clean_spec(clean_spec(s)) == clean_spec(s),
{
    lemma_marker_free_no_substring(s);
    lemma_clean_is_kept(s, 0);
    assert(s.subrange(0, s.len() as int) =~= s);
    assert(clean_spec(s) == kept(s));
    lemma_visible_kept(s);
    lemma_marker_free_no_substring(kept(s));
    lemma_clean_is_kept(kept(s), 0);
    assert(kept(s).subrange(0, kept(s).len() as int) =~= kept(s));
    lemma_kept_idempotent(s);
}

/// Remove display-unsafe control sequences from `input` while preserving
/// colour and cursor-movement escapes. See the module description for the
/// exact rules; [`clean_spec`] states them over character sequences.
pub fn clean_for_display(input: &str) -> (r: String)
    ensures
        r@ == clean_spec(input@),
{
    let chars = chars_of(input);
    let n = chars.len();
    let mut out: Vec<char> = Vec::new();
    let mut i: usize = 0;
    while i < n
        invariant
            chars@ == input@,
            n == chars@.len(),
            i <= n,
            clean_spec(input@) == out@ + clean_from(chars@, i as int),
        decreases n - i,
    {
        let c = chars[i];
        if c == '\x1b' {
            if i + 1 < n && chars[i + 1] == '[' {
                let mut j = i + 2;
                while j < n && !csi_terminator(chars[j])
                    invariant
                        i + 2 <= j <= n,
                        n == chars@.len(),
                        csi_scan_end(chars@, i as int + 2) == csi_scan_end(chars@, j as int),
                    decreases n - j,
                {
                    j = j + 1;
                }
                proof {
                    assert(csi_scan_end(chars@, j as int) == j as int);
                }
                let bend = if j < n {
                    j + 1
                } else {
                    n
                };
                if window_has_marker(&chars, i + 2, bend) {
                    i = if j < n {
                        j + 1
                    } else {
                        n
                    };
                } else {
                    out.push('\x1b');
                    i = i + 1;
                }
            } else {
                out.push('\x1b');
                i = i + 1;
            }
        } else if c == '?' && n - i > 5 && chars[i + 1] == '2' && chars[i + 2] == '0' && chars[i
            + 3] == '0' && chars[i + 4] == '4' && (chars[i + 5] == 'h' || chars[i + 5] == 'l') {
            proof {
                assert(chars@.subrange(i + 1, i + 5) =~= marker_digits());
            }
            i = i + 6;
        } else if c != '?' && dropped_control(c) {
            i = i + 1;
        } else {
            proof {
                if c == '?' {
                    assert(!is_dropped_control(c));
                    if i + 5 < n && chars@.subrange(i + 1, i + 5) == marker_digits() && (chars@[i
                        + 5] == 'h' || chars@[i + 5] == 'l') {
                        assert(chars@.subrange(i + 1, i + 5)[0] == chars@[i + 1]);
                        assert(chars@.subrange(i + 1, i + 5)[1] == chars@[i + 2]);
                        assert(chars@.subrange(i + 1, i + 5)[2] == chars@[i + 3]);
                        assert(chars@.subrange(i + 1, i + 5)[3] == chars@[i + 4]);
                        assert(false);
                    }
                }
            }
            out.push(c);
            i = i + 1;
        }
    }
    chars_to_string(&out)
}

} // verus!
