//! The asciicast v2 format: one JSON-lines file, a header object on the
//! first line and one `[time, type, data]` event per following line.
//!
//! Writing is verified end to end: the header and event lines are built
//! character by character against a specification of the JSON text,
//! including string escaping. Reading leans on `serde_json` to decode one
//! line into plain fields, behind a trusted boundary; every decision that
//! follows — which lines are fatal, which are skipped, how event times turn
//! into delays — is verified.

use vstd::prelude::*;

use crate::delay::{delay_micros, parse_delay_micros};
use crate::errors::Error;
use crate::numbers::{dec_str, frac6, push_dec, push_frac6};
use crate::strings::{
    chars_of, chars_to_string, copy_range, is_space, skip_space, split_lines, split_lines_of,
};

verus! {

/// A hexadecimal digit character, lowercase.
pub open spec fn hex_digit(d: nat) -> char {
    if d < 10 {
        crate::numbers::digit_char(d)
    } else if d == 10 {
        'a'
    } else if d == 11 {
        'b'
    } else if d == 12 {
        'c'
    } else if d == 13 {
        'd'
    } else if d == 14 {
        'e'
    } else {
        'f'
    }
}

/// How one character appears inside a JSON string: quote and backslash get
/// a backslash, the named control characters their short escapes, other
/// control characters a `\u00..` escape, everything else stands as itself.
pub open spec fn json_escaped_char(c: char) -> Seq<char> {
    if c == '"' {
        seq!['\\', '"']
    } else if c == '\\' {
        seq!['\\', '\\']
    } else if (c as u32) == 0x08 {
        seq!['\\', 'b']
    } else if (c as u32) == 0x09 {
        seq!['\\', 't']
    } else if (c as u32) == 0x0a {
        seq!['\\', 'n']
    } else if (c as u32) == 0x0c {
        seq!['\\', 'f']
    } else if (c as u32) == 0x0d {
        seq!['\\', 'r']
    } else if (c as u32) < 0x20 {
        seq!['\\', 'u', '0', '0', hex_digit(((c as u32) / 16) as nat), hex_digit(
            ((c as u32) % 16) as nat,
        )]
    } else {
        seq![c]
    }
}

/// The JSON escaping of `s` from position `i` on.
pub open spec fn json_escape_from(s: Seq<char>, i: int) -> Seq<char>
    recommends
        0 <= i,
    decreases s.len() - i,
{
    if i >= s.len() {
        Seq::empty()
    } else {
        json_escaped_char(s[i]) + json_escape_from(s, i + 1)
    }
}

/// A JSON string literal holding `s`.
pub open spec fn json_string(s: Seq<char>) -> Seq<char> {
    seq!['"'] + json_escape_from(s, 0) + seq!['"']
}

fn hex_digit_of(d: u32) -> (r: char)
    requires
        d < 16,
    ensures
        r == hex_digit(d as nat),
{
    if d == 0 {
        '0'
    } else if d == 1 {
        '1'
    } else if d == 2 {
        '2'
    } else if d == 3 {
        '3'
    } else if d == 4 {
        '4'
    } else if d == 5 {
        '5'
    } else if d == 6 {
        '6'
    } else if d == 7 {
        '7'
    } else if d == 8 {
        '8'
    } else if d == 9 {
        '9'
    } else if d == 10 {
        'a'
    } else if d == 11 {
        'b'
    } else if d == 12 {
        'c'
    } else if d == 13 {
        'd'
    } else if d == 14 {
        'e'
    } else {
        'f'
    }
}

/// Append the JSON string literal holding `s` to `out`.
fn push_json_string(out: &mut Vec<char>, s: &str)
    ensures
        final(out)@ == old(out)@ + json_string(s@),
{
    let chars = chars_of(s);
    let n = chars.len();
    out.push('"');
    let mut i: usize = 0;
    while i < n
        invariant
            i <= n,
            n == chars@.len(),
            chars@ == s@,
            out@ + json_escape_from(s@, i as int) == old(out)@ + seq!['"'] + json_escape_from(
                s@,
                0,
            ),
        decreases n - i,
    {
        let c = chars[i];
        let ghost before = out@;
        let u = c as u32;
        if c == '"' {
            out.push('\\');
            out.push('"');
        } else if c == '\\' {
            out.push('\\');
            out.push('\\');
        } else if u == 0x08 {
            out.push('\\');
            out.push('b');
        } else if u == 0x09 {
            out.push('\\');
            out.push('t');
        } else if u == 0x0a {
            out.push('\\');
            out.push('n');
        } else if u == 0x0c {
            out.push('\\');
            out.push('f');
        } else if u == 0x0d {
            out.push('\\');
            out.push('r');
        } else if u < 0x20 {
            out.push('\\');
            out.push('u');
            out.push('0');
            out.push('0');
            out.push(hex_digit_of(u / 16));
            out.push(hex_digit_of(u % 16));
        } else {
            out.push(c);
        }
        proof {
            assert(out@ =~= before + json_escaped_char(s@[i as int]));
            assert(before + (json_escaped_char(s@[i as int]) + json_escape_from(s@, i + 1)) =~= (
            before + json_escaped_char(s@[i as int])) + json_escape_from(s@, i + 1));
        }
        i = i + 1;
    }
    proof {
        assert(out@ + json_escape_from(s@, n as int) =~= out@);
        assert((old(out)@ + seq!['"'] + json_escape_from(s@, 0)).push('"') =~= old(out)@
            + json_string(s@));
    }
    out.push('"');
}

/// Append `s` to `out`.
fn push_str(out: &mut Vec<char>, s: &str)
    ensures
        final(out)@ == old(out)@ + s@,
{
    let mut chars = chars_of(s);
    out.append(&mut chars);
}

/// A time in whole microseconds written as decimal seconds with six
/// fractional digits.
pub open spec fn seconds_text(micros: nat) -> Seq<char> {
    dec_str(micros / 1000000) + seq!['.'] + frac6(micros % 1000000)
}

/// One asciicast output event line: a three-element JSON array holding the
/// absolute time in seconds, the event type `o`, and the data.
pub open spec fn event_line(time_micros: nat, data: Seq<char>) -> Seq<char> {
    seq!['['] + seconds_text(time_micros) + seq![','] + json_string("o"@) + seq![','] + json_string(
        data,
    ) + seq![']'] + seq!['\n']
}

/// Render one event line for output `data` at `time_micros` since the
/// session began.
pub fn format_event_line(time_micros: u64, data: &str) -> (r: String)
    ensures
        r@ == event_line(time_micros as nat, data@),
{
    let mut out: Vec<char> = Vec::new();
    out.push('[');
    push_dec(&mut out, time_micros / 1000000);
    out.push('.');
    push_frac6(&mut out, time_micros % 1000000);
    out.push(',');
    push_json_string(&mut out, "o");
    out.push(',');
    push_json_string(&mut out, data);
    out.push(']');
    out.push('\n');
    proof {
        assert(out@ =~= event_line(time_micros as nat, data@));
    }
    chars_to_string(&out)
}

/// The view of an optional text field.
pub open spec fn opt_text(o: Option<&str>) -> Option<Seq<char>> {
    match o {
        Option::Some(s) => Option::Some(s@),
        Option::None => Option::None,
    }
}

/// An optional header field: nothing, or a comma, the quoted field name, a
/// colon and the value as a JSON string.
pub open spec fn header_field(name: Seq<char>, value: Option<Seq<char>>) -> Seq<char> {
    match value {
        Option::Some(v) => seq![','] + json_string(name) + seq![':'] + json_string(v),
        Option::None => Seq::empty(),
    }
}

/// The asciicast v2 header line: a JSON object carrying the format version,
/// the terminal size, the start timestamp in whole seconds, and the optional
/// title, command and shell fields.
pub open spec fn header_line(
    width: u16,
    height: u16,
    timestamp: u64,
    title: Option<Seq<char>>,
    command: Option<Seq<char>>,
    shell: Option<Seq<char>>,
) -> Seq<char> {
    "{\"version\":2,\"width\":"@ + dec_str(width as nat) + ",\"height\":"@ + dec_str(height as nat)
        + ",\"timestamp\":"@ + dec_str(timestamp as nat) + header_field("title"@, title)
        + header_field("command"@, command) + header_field("shell"@, shell) + "}\n"@
}

/// Render the header line.
pub fn format_header_line(
    width: u16,
    height: u16,
    timestamp: u64,
    title: Option<&str>,
    command: Option<&str>,
    shell: Option<&str>,
) -> (r: String)
    ensures
        r@ == header_line(width, height, timestamp, opt_text(title), opt_text(command), opt_text(shell)),
{
    let mut out: Vec<char> = Vec::new();
    push_str(&mut out, "{\"version\":2,\"width\":");
    push_dec(&mut out, width as u64);
    push_str(&mut out, ",\"height\":");
    push_dec(&mut out, height as u64);
    push_str(&mut out, ",\"timestamp\":");
    push_dec(&mut out, timestamp);
    match title {
        Option::Some(t) => {
            out.push(',');
            push_json_string(&mut out, "title");
            out.push(':');
            push_json_string(&mut out, t);
        },
        Option::None => {},
    }
    match command {
        Option::Some(c) => {
            out.push(',');
            push_json_string(&mut out, "command");
            out.push(':');
            push_json_string(&mut out, c);
        },
        Option::None => {},
    }
    match shell {
        Option::Some(s) => {
            out.push(',');
            push_json_string(&mut out, "shell");
            out.push(':');
            push_json_string(&mut out, s);
        },
        Option::None => {},
    }
    push_str(&mut out, "}\n");
    proof {
        assert(out@ =~= header_line(
            width,
            height,
            timestamp,
            opt_text(title),
            opt_text(command),
            opt_text(shell),
        ));
    }
    chars_to_string(&out)
}

/// One plain field of a decoded JSON array: a number rendered back as its
/// decimal text, a string's contents, or anything else.
pub enum JsonField {
    Num(String),
    Str(String),
    Other,
}

/// The view of one decoded field.
pub enum JsonFieldView {
    Num(Seq<char>),
    Str(Seq<char>),
    Other,
}

impl DeepView for JsonField {
    type V = JsonFieldView;

    open spec fn deep_view(&self) -> JsonFieldView {
        match self {
            JsonField::Num(t) => JsonFieldView::Num(t@),
            JsonField::Str(s) => JsonFieldView::Str(s@),
            JsonField::Other => JsonFieldView::Other,
        }
    }
}

/// What decoding one line as a JSON array yields: `None` when the line is
/// not a JSON array, otherwise each element as a plain field.
pub uninterp spec fn json_fields_of(line: Seq<char>) -> Option<Seq<JsonFieldView>>;

/// Relies on `serde_json::from_str::<Vec<Value>>` to parse one line as a
/// JSON array, and on `serde_json`'s `Number` rendering (`itoa`/`zmij`
/// decimal text, within the delay grammar) to carry each number through as
/// text. Each element is converted to its plain field, one for one.
#[verifier::external_body]
fn decode_json_array_line(line: &str) -> (r: Option<Vec<JsonField>>)
    ensures
        r.deep_view() == json_fields_of(line@),
{
    match serde_json::from_str::<Vec<serde_json::Value>>(line) {
        Err(_) => None,
        Ok(vals) => Some(
            vals.into_iter().map(
                |v|
                    match v {
                        serde_json::Value::Number(n) => JsonField::Num(n.to_string()),
                        serde_json::Value::String(s) => JsonField::Str(s),
                        _ => JsonField::Other,
                    },
            ).collect(),
        ),
    }
}

/// One planned replay step: sleep the delay, then print the text.
#[derive(Debug)]
pub struct CastStep {
    pub delay_micros: u64,
    pub data: String,
}

impl DeepView for CastStep {
    type V = (u64, Seq<char>);

    open spec fn deep_view(&self) -> (u64, Seq<char>) {
        (self.delay_micros, self.data@)
    }
}

/// Where the non-whitespace part of `s` ends.
pub open spec fn rstrip_end(s: Seq<char>) -> int
    decreases s.len(),
{
    if s.len() == 0 {
        0
    } else if is_space(s.last()) {
        rstrip_end(s.drop_last())
    } else {
        s.len() as int
    }
}

proof fn lemma_rstrip_end(s: Seq<char>)
    ensures
        0 <= rstrip_end(s) <= s.len(),
    decreases s.len(),
{
    if s.len() > 0 && is_space(s.last()) {
        lemma_rstrip_end(s.drop_last());
    }
}

/// The replay plan drawn from the event lines `li` on, with the previous
/// output event's time at `last` microseconds: skip blank lines and arrays
/// of the wrong arity, fail on a line that is not a JSON array or whose
/// three fields are not number, string, string, keep only `o` events, and
/// pace each by its distance from the previous output event.
pub open spec fn cast_steps(lines: Seq<Seq<char>>, li: int, last: u64) -> Result<
    Seq<(u64, Seq<char>)>,
    Error,
>
    decreases lines.len() - li,
{
    if li < 0 || li >= lines.len() {
        Ok(Seq::empty())
    } else {
        let line = lines[li];
        let a = skip_space(line, 0);
        let b = rstrip_end(line);
        if a >= b {
            cast_steps(lines, li + 1, last)
        } else {
            let t = line.subrange(a, b);
            match json_fields_of(t) {
                Option::None => Err(Error::InvalidEventData),
                Option::Some(fs) => {
                    if fs.len() != 3 {
                        cast_steps(lines, li + 1, last)
                    } else {
                        match (fs[0], fs[1], fs[2]) {
                            (
                                JsonFieldView::Num(ts),
                                JsonFieldView::Str(ty),
                                JsonFieldView::Str(data),
                            ) => {
                                match delay_micros(ts) {
                                    Option::None => Err(Error::InvalidEventData),
                                    Option::Some(tm) => {
                                        if ty != "o"@ {
                                            cast_steps(lines, li + 1, last)
                                        } else {
                                            let d = if tm > last {
                                                (tm - last) as u64
                                            } else {
                                                0u64
                                            };
                                            match cast_steps(lines, li + 1, tm) {
                                                Ok(rest) => Ok(seq![(d, data)] + rest),
                                                Err(e) => Err(e),
                                            }
                                        }
                                    },
                                }
                            },
                            _ => Err(Error::InvalidEventData),
                        }
                    }
                },
            }
        }
    }
}

/// The replay plan of a whole asciicast file: the first line is the header
/// and is not replayed; a file with no content at all is rejected.
pub open spec fn cast_plan(content: Seq<char>) -> Result<Seq<(u64, Seq<char>)>, Error> {
    if content.len() == 0 {
        Err(Error::InvalidEventData)
    } else {
        cast_steps(split_lines(content), 1, 0)
    }
}

/// Plan the replay of an asciicast session from the file's text.
pub fn plan_asciicast(content: &str) -> (r: Result<Vec<CastStep>, Error>)
    ensures
        ({
            let plan = cast_plan(content@);
            match r {
                Ok(steps) => plan is Ok && steps.deep_view() == plan->Ok_0,
                Err(e) => plan is Err && e == plan->Err_0,
            }
        }),
{
    let cchars = chars_of(content);
    if cchars.len() == 0 {
        return Err(Error::InvalidEventData);
    }
    let lines = split_lines_of(&cchars);
    let nlines = lines.len();
    let mut steps: Vec<CastStep> = Vec::new();
    let mut last: u64 = 0;
    let mut li: usize = 1;
    loop
        invariant_except_break
            1 <= li <= nlines,
            nlines == lines@.len(),
            lines.deep_view() == split_lines(content@),
            content@.len() > 0,
            cast_plan(content@) == (match cast_steps(lines.deep_view(), li as int, last) {
                Ok(rest) => Ok(steps.deep_view() + rest),
                Err(e) => Err::<Seq<(u64, Seq<char>)>, Error>(e),
            }),
        ensures
            cast_plan(content@) is Ok,
            steps.deep_view() == cast_plan(content@)->Ok_0,
        decreases nlines - li + 1,
    {
        if li >= nlines {
            proof {
                assert(steps.deep_view() + cast_steps(lines.deep_view(), li as int, last)->Ok_0
                    =~= steps.deep_view());
            }
            break ;
        }
        let ghost lseq = lines.deep_view();
        let line = &lines[li];
        proof {
            assert(lseq[li as int] == lines@[li as int].deep_view());
            assert(lines@[li as int].deep_view() =~= line@);
        }
        let n = line.len();
        // leading whitespace
        let mut a: usize = 0;
        while a < n && crate::strings::space(line[a])
            invariant
                a <= n,
                n == line@.len(),
                skip_space(line@, 0) == skip_space(line@, a as int),
            decreases n - a,
        {
            a = a + 1;
        }
        proof {
            assert(skip_space(line@, a as int) == a as int);
        }
        // trailing whitespace
        let mut b: usize = n;
        proof {
            assert(line@.subrange(0, n as int) =~= line@);
        }
        while b > 0 && crate::strings::space(line[b - 1])
            invariant
                b <= n,
                n == line@.len(),
                rstrip_end(line@.subrange(0, b as int)) == rstrip_end(line@),
            decreases b,
        {
            proof {
                assert(line@.subrange(0, b as int).drop_last() =~= line@.subrange(0, b - 1));
                assert(line@.subrange(0, b as int).last() == line@[b - 1]);
            }
            b = b - 1;
        }
        proof {
            if b > 0 {
                assert(line@.subrange(0, b as int).last() == line@[b - 1]);
                assert(rstrip_end(line@.subrange(0, b as int)) == b as int);
            } else {
                assert(line@.subrange(0, 0int) =~= Seq::<char>::empty());
                assert(rstrip_end(line@) == 0);
            }
        }
        if a >= b {
            li = li + 1;
            continue ;
        }
        let tvec = copy_range(line, a, b);
        let tstr = chars_to_string(&tvec);
        let ghost t = lseq[li as int].subrange(a as int, b as int);
        proof {
            assert(tstr@ =~= t);
        }
        let fs = match decode_json_array_line(tstr.as_str()) {
            Option::Some(fs) => fs,
            Option::None => {
                return Err(Error::InvalidEventData);
            },
        };
        let ghost fsv = json_fields_of(t)->Some_0;
        proof {
            assert(fs.deep_view() == fsv);
        }
        if fs.len() != 3 {
            li = li + 1;
            continue ;
        }
        proof {
            assert(fs@[0].deep_view() == fsv[0]);
            assert(fs@[1].deep_view() == fsv[1]);
            assert(fs@[2].deep_view() == fsv[2]);
        }
        let (tm, ty, data) = match (&fs[0], &fs[1], &fs[2]) {
            (JsonField::Num(ts), JsonField::Str(ty), JsonField::Str(data)) => {
                let tchars = chars_of(ts.as_str());
                match parse_delay_micros(&tchars) {
                    Option::Some(tm) => (tm, ty, data),
                    Option::None => {
                        return Err(Error::InvalidEventData);
                    },
                }
            },
            _ => {
                return Err(Error::InvalidEventData);
            },
        };
        let is_output = ty.unicode_len() == 1 && {
            let c = ty.as_str().get_char(0);
            c == 'o'
        };
        proof {
            reveal_strlit("o");
            if is_output {
                assert(ty@ =~= "o"@);
            } else {
                assert(ty@ != "o"@);
            }
        }
        if !is_output {
            li = li + 1;
            continue ;
        }
        let d: u64 = if tm > last {
            tm - last
        } else {
            0
        };
        let ghost dv_before = steps.deep_view();
        steps.push(CastStep { delay_micros: d, data: data.clone() });
        proof {
            assert(steps@[steps@.len() - 1].deep_view() == (d, data@));
            assert(steps.deep_view() =~~= dv_before.push((d, data@)));
            let rest = cast_steps(lines.deep_view(), li + 1, tm);
            if rest is Ok {
                assert(dv_before + (seq![(d, data@)] + rest->Ok_0) =~= steps.deep_view()
                    + rest->Ok_0);
            }
        }
        last = tm;
        li = li + 1;
    }
    Ok(steps)
}

} // verus!
