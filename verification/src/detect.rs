//! Format detection: classifying a session file as legacy or asciicast from
//! its first line.
//!
//! A session file is asciicast exactly when its text decodes as UTF-8 and
//! its first line is a JSON object whose `version` field is the integer 2.
//! Anything else — binary data, a non-JSON first line, a missing or
//! different version — is legacy.

use vstd::prelude::*;

use crate::strings::{chars_of, chars_to_string, copy_range, line_break};

verus! {

/// The two on-disk representations of a session.
#[derive(Debug, Clone, Copy, PartialEq, Eq, Structural)]
pub enum SessionFormat {
    Legacy,
    Asciicast,
}

/// What the `version` field of the JSON object on this line holds, read as
/// an unsigned integer; `None` when the line is not a JSON value, the value
/// has no `version` field, or the field is not an unsigned integer.
pub uninterp spec fn version_field_of(line: Seq<char>) -> Option<u64>;

/// Relies on `serde_json::from_str::<Value>`, `Value::get` and
/// `Value::as_u64`: the `version` field of the JSON object on the line.
#[verifier::external_body]
fn header_version(line: &str) -> (r: Option<u64>)
    ensures
        r == version_field_of(line@),
{
    match serde_json::from_str::<serde_json::Value>(line) {
        Ok(v) => match v.get("version") {
            Some(x) => x.as_u64(),
            None => None,
        },
        Err(_) => None,
    }
}

/// The first line of `content`: everything before the first line feed.
pub open spec fn first_line(content: Seq<char>) -> Seq<char> {
    content.subrange(0, line_break(content, 0))
}

/// How a session file classifies, given its text — `None` when the file is
/// not valid UTF-8, which can only be legacy binary data.
pub open spec fn classification(content: Option<Seq<char>>) -> SessionFormat {
    match content {
        Option::Some(c) => if version_field_of(first_line(c)) == Option::Some(2u64) {
            SessionFormat::Asciicast
        } else {
            SessionFormat::Legacy
        },
        Option::None => SessionFormat::Legacy,
    }
}

/// Classify a session file from its text; pass `None` when the file did not
/// read as UTF-8.
pub fn detect_format(content: Option<&str>) -> (r: SessionFormat)
    ensures
        r == classification(
            match content {
                Option::Some(c) => Option::Some(c@),
                Option::None => Option::None,
            },
        ),
{
    let text = match content {
        Option::Some(c) => c,
        Option::None => {
            return SessionFormat::Legacy;
        },
    };
    let chars = chars_of(text);
    let n = chars.len();
    let mut j: usize = 0;
    while j < n && chars[j] != '\n'
        invariant
            j <= n,
            n == chars@.len(),
            line_break(chars@, 0) == line_break(chars@, j as int),
        decreases n - j,
    {
        j = j + 1;
    }
    proof {
        assert(line_break(chars@, j as int) == j as int);
    }
    let head = chars_to_string(&copy_range(&chars, 0, j));
    proof {
        assert(head@ =~= first_line(text@));
    }
    match header_version(head.as_str()) {
        Option::Some(v) => {
            if v == 2 {
                SessionFormat::Asciicast
            } else {
                SessionFormat::Legacy
            }
        },
        Option::None => SessionFormat::Legacy,
    }
}

} // verus!
