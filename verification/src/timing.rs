//! The legacy timing log: writing its lines, and planning a replay from a
//! timing log and the session blob it indexes into.
//!
//! Each line pairs a delay with a byte count: `"<seconds>.<6 digits>
//! <count>"`. On replay, blank lines and lines with fewer than two fields
//! are skipped; a line whose delay or count field does not read as a number
//! is fatal. Each valid record takes the next `count` bytes of the blob; a
//! record the blob can no longer cover keeps its delay but ends the plan
//! cleanly with no further output.

use vstd::prelude::*;
use vstd::slice::{slice_subrange, slice_to_vec};

use crate::delay::{delay_micros, lemma_written_delay_reads_back, parse_delay_micros};
use crate::errors::Error;
use crate::numbers::{
    dec_str, frac6, is_digit, lemma_dec_str_digits, lemma_frac6_digits, parse_usize,
    usize_literal, push_dec, push_frac6,
};
use crate::strings::{
    chars_of, chars_to_string, fields_from, fields_of, is_space, lemma_skip_space_at,
    lemma_token_end_at, split_fields, split_lines, split_lines_of,
};

verus! {

/// One record of the timing log, without its line feed: the delay as
/// seconds, a dot, six fraction digits, one space, the byte count.
pub open spec fn timing_record_text(micros: nat, count: nat) -> Seq<char> {
    dec_str(micros / 1000000) + seq!['.'] + frac6(micros % 1000000) + seq![' '] + dec_str(count)
}

/// One line of the timing log: a record and its line feed.
pub open spec fn timing_line(micros: nat, count: nat) -> Seq<char> {
    timing_record_text(micros, count) + seq!['\n']
}

/// Render one timing-log line for a chunk of `count` bytes arriving
/// `delay_micros` after the previous one.
pub fn format_timing_line(delay_micros: u64, count: usize) -> (r: String)
    ensures
        r@ == timing_line(delay_micros as nat, count as nat),
{
    let mut out: Vec<char> = Vec::new();
    push_dec(&mut out, delay_micros / 1000000);
    out.push('.');
    push_frac6(&mut out, delay_micros % 1000000);
    out.push(' ');
    push_dec(&mut out, count as u64);
    out.push('\n');
    proof {
        assert(out@ =~= timing_line(delay_micros as nat, count as nat));
    }
    chars_to_string(&out)
}

/// One planned replay step: sleep the delay, then print the block.
#[derive(Debug)]
pub struct LegacyStep {
    pub delay_micros: u64,
    pub bytes: Vec<u8>,
}

impl DeepView for LegacyStep {
    type V = (u64, Seq<u8>);

    open spec fn deep_view(&self) -> (u64, Seq<u8>) {
        (self.delay_micros, self.bytes@)
    }
}

/// The replay plan drawn from timing lines `li` on, with the blob cursor at
/// `cur`: skip lines with fewer than two fields, fail on a malformed number,
/// stop cleanly when the blob runs short, otherwise pair each record's delay
/// with its block of the blob.
pub open spec fn legacy_steps(
    lines: Seq<Seq<char>>,
    blob: Seq<u8>,
    li: int,
    cur: int,
) -> Result<Seq<(u64, Seq<u8>)>, Error>
    recommends
        0 <= cur <= blob.len(),
    decreases lines.len() - li,
{
    if li < 0 || li >= lines.len() {
        Ok(Seq::empty())
    } else {
        let f = fields_of(lines[li]);
        if f.len() < 2 {
            legacy_steps(lines, blob, li + 1, cur)
        } else {
            match delay_micros(f[0]) {
                Option::None => Err(Error::InvalidTimingData),
                Option::Some(d) => match usize_literal(f[1]) {
                    Option::None => Err(Error::InvalidTimingData),
                    Option::Some(sz) => if cur + sz <= blob.len() && 0 <= cur {
                        match legacy_steps(lines, blob, li + 1, cur + sz) {
                            Ok(rest) => Ok(seq![(d, blob.subrange(cur, cur + sz))] + rest),
                            Err(e) => Err(e),
                        }
                    } else {
                        // the delay is still paced; the short read then ends
                        // the replay with no further output
                        Ok(seq![(d, Seq::<u8>::empty())])
                    },
                },
            }
        }
    }
}

/// No character of a timing record is a line feed, so each record written
/// with its line feed reads back as one line.
pub proof fn lemma_timing_record_no_newline(micros: nat, count: nat)
    ensures
        forall|i: int|
            0 <= i < timing_record_text(micros, count).len() ==> #[trigger] timing_record_text(
                micros,
                count,
            )[i] != '\n',
{
    lemma_dec_str_digits(micros / 1000000);
    lemma_frac6_digits(micros % 1000000);
    lemma_dec_str_digits(count);
    let d = dec_str(micros / 1000000);
    let f = frac6(micros % 1000000);
    let c = dec_str(count);
    let t = timing_record_text(micros, count);
    assert forall|i: int| 0 <= i < t.len() implies #[trigger] t[i] != '\n' by {
        let dn = d.len() as int;
        if i < dn {
            assert(t[i] == d[i]);
            assert(is_digit(t[i]));
        } else if i == dn {
            assert(t[i] == '.');
        } else if i < dn + 7 {
            assert(t[i] == f[i - (dn + 1)]);
            assert(is_digit(t[i]));
        } else if i == dn + 7 {
            assert(t[i] == ' ');
        } else {
            assert(t[i] == c[i - (dn + 8)]);
            assert(is_digit(t[i]));
        }
    }
}

/// A written timing record splits into exactly its two fields, and they read
/// back as exactly the delay and the count that were written: the writer and
/// the replay parser agree, record by record.
pub proof fn lemma_timing_record_fields(micros: u64, count: nat)
    requires
        count <= usize::MAX,
    ensures
        ({
            let fields = fields_of(timing_record_text(micros as nat, count));
            &&& fields.len() == 2
            &&& delay_micros(fields[0]) == Some(micros)
            &&& usize_literal(fields[1]) == Some(count as usize)
        }),
{
    lemma_dec_str_digits((micros as nat) / 1000000);
    lemma_frac6_digits((micros as nat) % 1000000);
    lemma_dec_str_digits(count);
    let d = dec_str((micros as nat) / 1000000);
    let f = frac6((micros as nat) % 1000000);
    let c = dec_str(count);
    let a = d + seq!['.'] + f;
    let s = timing_record_text(micros as nat, count);
    let an = a.len() as int;
    assert(s =~= a + seq![' '] + c);
    // no character of the delay field or the count field is whitespace
    assert forall|i: int| 0 <= i < an implies !is_space(#[trigger] s[i]) by {
        assert(s[i] == a[i]);
        if i < d.len() {
            assert(a[i] == d[i]);
            assert(is_digit(a[i]));
        } else if i == d.len() {
            assert(a[i] == '.');
        } else {
            assert(a[i] == f[i - (d.len() + 1)]);
            assert(is_digit(a[i]));
        }
    }
    assert(s[an] == ' ');
    assert(is_space(s[an]));
    assert forall|i: int| an + 1 <= i < s.len() implies !is_space(#[trigger] s[i]) by {
        assert(s[i] == c[i - (an + 1)]);
        assert(is_digit(s[i]));
    }
    // the two fields
    lemma_skip_space_at(s, 0, 0);
    lemma_token_end_at(s, 1, an);
    lemma_skip_space_at(s, an, an + 1);
    lemma_token_end_at(s, an + 2, s.len() as int);
    let fields = fields_of(s);
    assert(s.subrange(0, an) =~= a);
    assert(s.subrange(an + 1, s.len() as int) =~= c);
    assert(fields_from(s, an) == seq![c] + fields_from(s, s.len() as int));
    assert(fields =~= seq![a, c]);
    // the delay field reads back
    lemma_written_delay_reads_back(micros);
    // the count field reads back
    assert(c[0] != '+') by {
        if c[0] == '+' {
            assert(is_digit('+'));
        }
    }
    assert(usize_literal(c) == Some(count as usize));
}

/// `legacy_steps` looks only at the lines from its index on: one line ahead
/// of the index can be dropped together.
pub proof fn lemma_legacy_steps_shift(
    l0: Seq<char>,
    rest: Seq<Seq<char>>,
    blob: Seq<u8>,
    li: int,
    cur: int,
)
    requires
        0 <= li,
    ensures
        legacy_steps(seq![l0] + rest, blob, li + 1, cur) == legacy_steps(rest, blob, li, cur),
    decreases rest.len() - li,
{
    let cons = seq![l0] + rest;
    if li < rest.len() {
        assert(cons[li + 1] == rest[li]);
        let fds = fields_of(rest[li]);
        if fds.len() < 2 {
            lemma_legacy_steps_shift(l0, rest, blob, li + 1, cur);
        } else {
            match delay_micros(fds[0]) {
                Option::None => {},
                Option::Some(dd) => match usize_literal(fds[1]) {
                    Option::None => {},
                    Option::Some(sz) => {
                        if cur + sz <= blob.len() && 0 <= cur {
                            lemma_legacy_steps_shift(l0, rest, blob, li + 1, cur + sz);
                        }
                    },
                },
            }
        }
    }
}

/// The replay plan of a whole timing log against a session blob.
pub open spec fn legacy_plan(timing: Seq<char>, blob: Seq<u8>) -> Result<
    Seq<(u64, Seq<u8>)>,
    Error,
> {
    legacy_steps(split_lines(timing), blob, 0, 0)
}

/// Plan the replay of a legacy session: parse the timing text and cut the
/// blob into the blocks its records call for.
pub fn plan_legacy(timing: &str, blob: &[u8]) -> (r: Result<Vec<LegacyStep>, Error>)
    ensures
        ({
            let plan = legacy_plan(timing@, blob@);
            match r {
                Ok(steps) => plan is Ok && steps.deep_view() == plan->Ok_0,
                Err(e) => plan is Err && e == plan->Err_0,
            }
        }),
{
    let tchars = chars_of(timing);
    let lines = split_lines_of(&tchars);
    let nlines = lines.len();
    let nblob = blob.len();
    let mut steps: Vec<LegacyStep> = Vec::new();
    let mut cur: usize = 0;
    let mut li: usize = 0;
    loop
        invariant_except_break
            li <= nlines,
            nlines == lines@.len(),
            nblob == blob@.len(),
            cur <= nblob,
            lines.deep_view() == split_lines(timing@),
            legacy_plan(timing@, blob@) == (match legacy_steps(
                lines.deep_view(),
                blob@,
                li as int,
                cur as int,
            ) {
                Ok(rest) => Ok(steps.deep_view() + rest),
                Err(e) => Err::<Seq<(u64, Seq<u8>)>, Error>(e),
            }),
        ensures
            legacy_plan(timing@, blob@) is Ok,
            steps.deep_view() == legacy_plan(timing@, blob@)->Ok_0,
        decreases nlines - li + 1,
    {
        if li >= nlines {
            proof {
                assert(steps.deep_view() + legacy_steps(lines.deep_view(), blob@, li as int, cur as int)->Ok_0
                    =~= steps.deep_view());
            }
            break ;
        }
        let ghost lseq = lines.deep_view();
        proof {
            assert(lseq[li as int] == lines@[li as int].deep_view());
            assert(lines@[li as int].deep_view() =~= lines@[li as int]@);
        }
        let f = split_fields(&lines[li]);
        let ghost fseq = fields_of(lseq[li as int]);
        proof {
            assert(f.deep_view() == fseq);
        }
        if f.len() < 2 {
            li = li + 1;
            continue ;
        }
        proof {
            assert(f@[0].deep_view() == fseq[0]);
            assert(f@[1].deep_view() == fseq[1]);
            assert(f@[0].deep_view() =~= f@[0]@);
            assert(f@[1].deep_view() =~= f@[1]@);
        }
        let d = match parse_delay_micros(&f[0]) {
            Option::Some(d) => d,
            Option::None => {
                return Err(Error::InvalidTimingData);
            },
        };
        let sz = match parse_usize(&f[1]) {
            Option::Some(sz) => sz,
            Option::None => {
                return Err(Error::InvalidTimingData);
            },
        };
        if sz > nblob - cur {
            let ghost dv_before = steps.deep_view();
            steps.push(LegacyStep { delay_micros: d, bytes: Vec::new() });
            proof {
                assert(steps@[steps@.len() - 1].deep_view() == (d, Seq::<u8>::empty()));
                assert(steps.deep_view() =~~= dv_before.push((d, Seq::<u8>::empty())));
                assert(dv_before + seq![(d, Seq::<u8>::empty())] =~= steps.deep_view());
                assert(steps.deep_view() + legacy_steps(lines.deep_view(), blob@, li as int, cur as int)->Ok_0
                    =~= steps.deep_view() + legacy_steps(lines.deep_view(), blob@, li as int, cur as int)->Ok_0);
            }
            break ;
        }
        let block = slice_to_vec(slice_subrange(blob, cur, cur + sz));
        let ghost dv_before = steps.deep_view();
        steps.push(LegacyStep { delay_micros: d, bytes: block });
        proof {
            assert(steps@[steps@.len() - 1].deep_view() == (d, blob@.subrange(
                cur as int,
                cur + sz,
            )));
            assert(steps.deep_view() =~~= dv_before.push((d, blob@.subrange(cur as int, cur + sz))));
            let rest = legacy_steps(lines.deep_view(), blob@, li + 1, cur + sz);
            if rest is Ok {
                assert(dv_before + (seq![(d, blob@.subrange(cur as int, cur + sz))] + rest->Ok_0)
                    =~= steps.deep_view() + rest->Ok_0);
            }
        }
        cur = cur + sz;
        li = li + 1;
    }
    Ok(steps)
}

} // verus!
