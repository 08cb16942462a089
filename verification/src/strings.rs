//! Helpers for moving between `&str`/`String` and character vectors.
//!
//! The transformations in this crate are specified over sequences of
//! characters, so executable code first explodes a string into a `Vec<char>`,
//! works on that, and finally rebuilds a `String`.

use vstd::prelude::*;
use vstd::std_specs::iter::IteratorSpec;

verus! {

broadcast use vstd::string::group_string_axioms;

/// The characters of `s`, in order.
pub fn chars_of(s: &str) -> (r: Vec<char>)
    ensures
        r@ == s@,
{
    let mut it = s.chars();
    let mut v: Vec<char> = Vec::new();
    loop
        invariant
            it.decrease() is Some,
            v@ + it.remaining() == s@,
        ensures
            v@ == s@,
        decreases it.decrease().unwrap(),
    {
        match it.next() {
            Some(c) => {
                v.push(c);
            },
            None => {
                proof {
                    assert(v@ + it.remaining() =~= v@);
                }
                break ;
            },
        }
    }
    v
}

/// Relies on `String`'s `FromIterator<char>`: collecting characters yields
/// the string made of exactly those characters, in order.
#[verifier::external_body]
pub fn chars_to_string(v: &Vec<char>) -> (r: String)
    ensures
        r@ == v@,
{
    v.iter().collect()
}

/// The characters `src[from..to]`, as their own vector.
pub fn copy_range(src: &Vec<char>, from: usize, to: usize) -> (r: Vec<char>)
    requires
        from <= to <= src@.len(),
    ensures
        r@ == src@.subrange(from as int, to as int),
{
    let mut out: Vec<char> = Vec::new();
    let mut i: usize = from;
    while i < to
        invariant
            from <= i <= to <= src@.len(),
            out@ == src@.subrange(from as int, i as int),
        decreases to - i,
    {
        out.push(src[i]);
        proof {
            assert(src@.subrange(from as int, i + 1) =~= src@.subrange(from as int, i as int).push(
                src@[i as int],
            ));
        }
        i = i + 1;
    }
    out
}

/// A whitespace character: the Unicode `White_Space` set that field
/// splitting goes by, stated over code points.
pub open spec fn is_space(c: char) -> bool {
    ||| 0x09 <= (c as u32) && (c as u32) <= 0x0d
    ||| (c as u32) == 0x20
    ||| (c as u32) == 0x85
    ||| (c as u32) == 0xa0
    ||| (c as u32) == 0x1680
    ||| 0x2000 <= (c as u32) && (c as u32) <= 0x200a
    ||| (c as u32) == 0x2028
    ||| (c as u32) == 0x2029
    ||| (c as u32) == 0x202f
    ||| (c as u32) == 0x205f
    ||| (c as u32) == 0x3000
}

/// Whether `c` is whitespace.
pub fn space(c: char) -> (r: bool)
    ensures
        r == is_space(c),
{
    let u = c as u32;
    (0x09 <= u && u <= 0x0d) || u == 0x20 || u == 0x85 || u == 0xa0 || u == 0x1680 || (0x2000 <= u
        && u <= 0x200a) || u == 0x2028 || u == 0x2029 || u == 0x202f || u == 0x205f || u == 0x3000
}

/// The index of the first line feed at or after `j`, or the length when none
/// follows.
pub open spec fn line_break(s: Seq<char>, j: int) -> int
    recommends
        0 <= j,
    decreases s.len() - j,
{
    if j >= s.len() {
        j
    } else if s[j] == '\n' {
        j
    } else {
        line_break(s, j + 1)
    }
}

proof fn lemma_line_break(s: Seq<char>, j: int)
    requires
        j <= s.len(),
    ensures
        j <= line_break(s, j) <= s.len(),
        forall|i: int| j <= i < line_break(s, j) ==> s[i] != '\n',
        line_break(s, j) < s.len() ==> s[line_break(s, j)] == '\n',
    decreases s.len() - j,
{
    if j < s.len() && s[j] != '\n' {
        lemma_line_break(s, j + 1);
    }
}

/// The lines of `s` from position `i` on: the segments between line feeds,
/// the final one unterminated. The empty text is one empty line.
pub open spec fn lines_from(s: Seq<char>, i: int) -> Seq<Seq<char>>
    recommends
        0 <= i <= s.len(),
    decreases s.len() - i,
    via lines_from_decreases
{
    let p = line_break(s, i);
    if p >= s.len() {
        seq![s.subrange(i, s.len() as int)]
    } else {
        seq![s.subrange(i, p)] + lines_from(s, p + 1)
    }
}

#[via_fn]
proof fn lines_from_decreases(s: Seq<char>, i: int) {
    if i <= s.len() {
        lemma_line_break(s, i);
    }
}

/// The lines of `s`.
pub open spec fn split_lines(s: Seq<char>) -> Seq<Seq<char>> {
    lines_from(s, 0)
}

/// The lines from a position are the lines of the text from that position
/// on: splitting ignores whatever stands before.
pub proof fn lemma_lines_from_concat(prefix: Seq<char>, rest: Seq<char>)
    ensures
        lines_from(prefix + rest, prefix.len() as int) == split_lines(rest),
    decreases rest.len(),
{
    let s = prefix + rest;
    let pn = prefix.len() as int;
    lemma_line_break(rest, 0);
    let pr = line_break(rest, 0);
    assert forall|i: int| pn <= i < pn + pr implies s[i] != '\n' by {
        assert(s[i] == rest[i - pn]);
    }
    if pr < rest.len() {
        assert(s[pn + pr] == rest[pr]);
    }
    lemma_line_break_at(s, pn, pn + pr);
    if pr >= rest.len() {
        assert(s.subrange(pn, s.len() as int) =~= rest.subrange(0, rest.len() as int));
        assert(rest.subrange(0, rest.len() as int) =~= rest);
    } else {
        assert(s.subrange(pn, pn + pr) =~= rest.subrange(0, pr));
        let tail = rest.subrange(pr + 1, rest.len() as int);
        assert(s =~= (prefix + rest.subrange(0, pr + 1)) + tail);
        lemma_lines_from_concat(prefix + rest.subrange(0, pr + 1), tail);
        assert(rest =~= rest.subrange(0, pr + 1) + tail);
        lemma_lines_from_concat(rest.subrange(0, pr + 1), tail);
        assert(lines_from(s, pn + pr + 1) == split_lines(tail));
        assert(lines_from(rest, pr + 1) == split_lines(tail));
    }
}

/// A line feed ends the first line: splitting text that starts with a
/// feed-free line yields that line and then the lines of what follows.
pub proof fn lemma_split_lines_prepend(l: Seq<char>, rest: Seq<char>)
    requires
        forall|i: int| 0 <= i < l.len() ==> l[i] != '\n',
    ensures
        split_lines(l + seq!['\n'] + rest) == seq![l] + split_lines(rest),
{
    let s = l + seq!['\n'] + rest;
    let ln = l.len() as int;
    assert forall|i: int| 0 <= i < ln implies s[i] != '\n' by {
        assert(s[i] == l[i]);
    }
    assert(s[ln] == '\n');
    lemma_line_break_at(s, 0, ln);
    assert(s.subrange(0, ln) =~= l);
    assert(s =~= (l + seq!['\n']) + rest);
    lemma_lines_from_concat(l + seq!['\n'], rest);
}

/// Split `content` into its lines.
pub fn split_lines_of(content: &Vec<char>) -> (r: Vec<Vec<char>>)
    ensures
        r.deep_view() == split_lines(content@),
{
    let n = content.len();
    let mut out: Vec<Vec<char>> = Vec::new();
    let mut i: usize = 0;
    loop
        invariant_except_break
            i <= n,
            n == content@.len(),
            split_lines(content@) == out.deep_view() + lines_from(content@, i as int),
        ensures
            out.deep_view() == split_lines(content@),
        decreases n - i + 1,
    {
        let mut j = i;
        while j < n && content[j] != '\n'
            invariant
                i <= j <= n,
                n == content@.len(),
                line_break(content@, i as int) == line_break(content@, j as int),
            decreases n - j,
        {
            j = j + 1;
        }
        proof {
            assert(line_break(content@, j as int) == j as int);
        }
        let mut line: Vec<char> = Vec::new();
        let mut k = i;
        while k < j
            invariant
                i <= k <= j <= n,
                n == content@.len(),
                line@ == content@.subrange(i as int, k as int),
            decreases j - k,
        {
            line.push(content[k]);
            proof {
                assert(content@.subrange(i as int, k + 1) =~= content@.subrange(
                    i as int,
                    k as int,
                ).push(content@[k as int]));
            }
            k = k + 1;
        }
        let ghost dv_before = out.deep_view();
        out.push(line);
        proof {
            assert(out.deep_view() =~~= dv_before.push(line@));
        }
        if j >= n {
            proof {
                assert(dv_before + lines_from(content@, i as int) =~= out.deep_view());
            }
            break ;
        }
        proof {
            assert(dv_before + lines_from(content@, i as int) =~= out.deep_view() + lines_from(
                content@,
                j + 1,
            ));
        }
        i = j + 1;
    }
    out
}

/// `line_break` lands exactly on the first line feed: a stretch of other
/// characters followed by a line feed, or running to the end, pins it.
pub proof fn lemma_line_break_at(s: Seq<char>, j: int, k: int)
    requires
        0 <= j <= k <= s.len(),
        forall|i: int| j <= i < k ==> s[i] != '\n',
        k < s.len() ==> s[k] == '\n',
    ensures
        line_break(s, j) == k,
    decreases k - j,
{
    if j < k {
        lemma_line_break_at(s, j + 1, k);
    }
}

/// The index of the first non-whitespace character at or after `j`, or the
/// length when none follows.
pub open spec fn skip_space(s: Seq<char>, j: int) -> int
    recommends
        0 <= j,
    decreases s.len() - j,
{
    if j >= s.len() {
        j
    } else if !is_space(s[j]) {
        j
    } else {
        skip_space(s, j + 1)
    }
}

proof fn lemma_skip_space(s: Seq<char>, j: int)
    requires
        j <= s.len(),
    ensures
        j <= skip_space(s, j) <= s.len(),
        skip_space(s, j) < s.len() ==> !is_space(s[skip_space(s, j)]),
    decreases s.len() - j,
{
    if j < s.len() && is_space(s[j]) {
        lemma_skip_space(s, j + 1);
    }
}

/// `skip_space` lands exactly on the first non-whitespace character.
pub proof fn lemma_skip_space_at(s: Seq<char>, j: int, k: int)
    requires
        0 <= j <= k <= s.len(),
        forall|i: int| j <= i < k ==> is_space(#[trigger] s[i]),
        k < s.len() ==> !is_space(s[k]),
    ensures
        skip_space(s, j) == k,
    decreases k - j,
{
    if j < k {
        lemma_skip_space_at(s, j + 1, k);
    }
}

/// The index of the first whitespace character at or after `j`, or the
/// length when none follows.
pub open spec fn token_end(s: Seq<char>, j: int) -> int
    recommends
        0 <= j,
    decreases s.len() - j,
{
    if j >= s.len() {
        j
    } else if is_space(s[j]) {
        j
    } else {
        token_end(s, j + 1)
    }
}

proof fn lemma_token_end(s: Seq<char>, j: int)
    requires
        j <= s.len(),
    ensures
        j <= token_end(s, j) <= s.len(),
    decreases s.len() - j,
{
    if j < s.len() && !is_space(s[j]) {
        lemma_token_end(s, j + 1);
    }
}

/// `token_end` lands exactly on the first whitespace character.
pub proof fn lemma_token_end_at(s: Seq<char>, j: int, k: int)
    requires
        0 <= j <= k <= s.len(),
        forall|i: int| j <= i < k ==> !is_space(#[trigger] s[i]),
        k < s.len() ==> is_space(s[k]),
    ensures
        token_end(s, j) == k,
    decreases k - j,
{
    if j < k {
        lemma_token_end_at(s, j + 1, k);
    }
}

/// The whitespace-separated fields of `s` from position `i` on.
pub open spec fn fields_from(s: Seq<char>, i: int) -> Seq<Seq<char>>
    recommends
        0 <= i <= s.len(),
    decreases s.len() - i,
    via fields_from_decreases
{
    let j = skip_space(s, i);
    if j >= s.len() {
        Seq::empty()
    } else {
        let e = token_end(s, j + 1);
        seq![s.subrange(j, e)] + fields_from(s, e)
    }
}

#[via_fn]
proof fn fields_from_decreases(s: Seq<char>, i: int) {
    if i <= s.len() {
        lemma_skip_space(s, i);
        let j = skip_space(s, i);
        if j < s.len() {
            lemma_token_end(s, j + 1);
        }
    }
}

/// The whitespace-separated fields of `s`: what splitting on whitespace
/// yields, with no empty fields.
pub open spec fn fields_of(s: Seq<char>) -> Seq<Seq<char>> {
    fields_from(s, 0)
}

/// Split `line` into its whitespace-separated fields.
pub fn split_fields(line: &Vec<char>) -> (r: Vec<Vec<char>>)
    ensures
        r.deep_view() == fields_of(line@),
{
    let n = line.len();
    let mut out: Vec<Vec<char>> = Vec::new();
    let mut i: usize = 0;
    loop
        invariant
            i <= n,
            n == line@.len(),
            fields_of(line@) == out.deep_view() + fields_from(line@, i as int),
        ensures
            out.deep_view() == fields_of(line@),
        decreases n - i + 1,
    {
        let mut j = i;
        while j < n && space(line[j])
            invariant
                i <= j <= n,
                n == line@.len(),
                skip_space(line@, i as int) == skip_space(line@, j as int),
            decreases n - j,
        {
            j = j + 1;
        }
        proof {
            assert(skip_space(line@, j as int) == j as int);
        }
        if j >= n {
            proof {
                assert(out.deep_view() + fields_from(line@, i as int) =~= out.deep_view());
            }
            break ;
        }
        let mut e = j + 1;
        while e < n && !space(line[e])
            invariant
                j + 1 <= e <= n,
                n == line@.len(),
                token_end(line@, j + 1) == token_end(line@, e as int),
            decreases n - e,
        {
            e = e + 1;
        }
        proof {
            assert(token_end(line@, e as int) == e as int);
        }
        let mut field: Vec<char> = Vec::new();
        let mut k = j;
        while k < e
            invariant
                j <= k <= e <= n,
                n == line@.len(),
                field@ == line@.subrange(j as int, k as int),
            decreases e - k,
        {
            field.push(line[k]);
            proof {
                assert(line@.subrange(j as int, k + 1) =~= line@.subrange(j as int, k as int).push(
                    line@[k as int],
                ));
            }
            k = k + 1;
        }
        let ghost dv_before = out.deep_view();
        out.push(field);
        proof {
            assert(out.deep_view() =~~= dv_before.push(field@));
            assert(dv_before + fields_from(line@, i as int) =~= out.deep_view() + fields_from(
                line@,
                e as int,
            ));
        }
        i = e;
    }
    out
}

} // verus!
