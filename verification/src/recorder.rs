//! The recorder: naming the output files of a session, and turning each
//! captured chunk into what the chosen format persists.
//!
//! The caller spawns the command, reads its stdout in bounded chunks,
//! measures each chunk's arrival, writes what these functions hand back, and
//! echoes it; this module holds the verified per-chunk work. A legacy
//! session accumulates a timing line and a block of blob bytes per chunk; an
//! asciicast session turns each chunk into one event line.

use vstd::prelude::*;
use vstd::slice::slice_to_vec;
use vstd::utf8::encode_utf8;

use crate::asciicast::{event_line, format_event_line};
use crate::errors::Error;
use crate::sanitizer::{clean_for_display, clean_spec};
use crate::strings::split_lines;
use crate::timing::{
    format_timing_line, legacy_plan, legacy_steps, lemma_legacy_steps_shift,
    lemma_timing_record_fields, lemma_timing_record_no_newline, timing_line, timing_record_text,
};

verus! {

/// A recorder for one session, naming the files the caller will write.
#[derive(Debug)]
pub struct Recorder {
    pub output_file: String,
    pub timing_file: String,
}

impl Recorder {
    /// Create a recorder that will write the session to `output_file` and,
    /// for the legacy format, timing data to `timing_file`. Any paths are
    /// accepted; the files come into being only when recording starts.
    pub fn new(output_file: &str, timing_file: &str) -> (r: Result<Recorder, Error>)
        ensures
            r is Ok,
            r->Ok_0.output_file@ == output_file@,
            r->Ok_0.timing_file@ == timing_file@,
    {
        Ok(Recorder { output_file: output_file.to_owned(), timing_file: timing_file.to_owned() })
    }
}

/// What decoding one captured chunk's bytes yields: the decoded text is
/// sanitized in plain-text mode and kept as decoded otherwise.
pub open spec fn chunk_text(sanitize: bool, bytes: Seq<u8>) -> Seq<char> {
    if sanitize {
        clean_spec(lossy_utf8(bytes))
    } else {
        lossy_utf8(bytes)
    }
}

/// What a legacy session persists for one chunk: the raw bytes, or the
/// sanitized text re-encoded as UTF-8.
pub open spec fn chunk_bytes(sanitize: bool, bytes: Seq<u8>) -> Seq<u8> {
    if sanitize {
        encode_utf8(clean_spec(lossy_utf8(bytes)))
    } else {
        bytes
    }
}

/// What decoding arbitrary bytes as UTF-8, replacing invalid sequences,
/// yields. The result depends on the bytes alone.
pub uninterp spec fn lossy_utf8(bytes: Seq<u8>) -> Seq<char>;

/// Relies on `String::from_utf8_lossy`: the lossy UTF-8 decoding of the
/// bytes.
#[verifier::external_body]
fn lossy_decode(bytes: &[u8]) -> (r: String)
    ensures
        r@ == lossy_utf8(bytes@),
{
    String::from_utf8_lossy(bytes).into_owned()
}

/// The sum of the byte counts of a sequence of timing records.
pub open spec fn count_total(records: Seq<(u64, nat)>) -> nat
    decreases records.len(),
{
    if records.len() == 0 {
        0
    } else {
        count_total(records.drop_last()) + records.last().1
    }
}

/// One legacy recording in progress. The ghost state mirrors what has been
/// handed out for the timing log and the blob, and the invariant ties the
/// two: the counts written to the timing log always total exactly the
/// blob's length.
pub struct LegacyRecording {
    sanitize: bool,
    records: Ghost<Seq<(u64, nat)>>,
    blob: Ghost<Seq<u8>>,
}

impl LegacyRecording {
    /// The timing records handed out so far: delay and byte count, in order.
    pub closed spec fn records(self) -> Seq<(u64, nat)> {
        self.records@
    }

    /// The blob bytes handed out so far.
    pub closed spec fn blob(self) -> Seq<u8> {
        self.blob@
    }

    /// Whether chunks pass through the sanitizer.
    pub closed spec fn sanitize_on(self) -> bool {
        self.sanitize
    }

    /// The recording's invariant: the timing log's counts total the blob's
    /// length, and each count is a real block's length.
    pub open spec fn wf(self) -> bool {
        &&& count_total(self.records()) == self.blob().len()
        &&& forall|i: int|
            0 <= i < self.records().len() ==> (#[trigger] self.records()[i]).1 <= usize::MAX
    }

    /// Begin a legacy recording.
    pub fn start(sanitize: bool) -> (r: LegacyRecording)
        ensures
            r.wf(),
            r.records() == Seq::<(u64, nat)>::empty(),
            r.blob() == Seq::<u8>::empty(),
            r.sanitize_on() == sanitize,
    {
        LegacyRecording { sanitize, records: Ghost(Seq::empty()), blob: Ghost(Seq::empty()) }
    }

    /// Turn one captured chunk into what the session persists: the timing
    /// line to append to the timing log, and the bytes to append to the
    /// blob. The line's count is exactly the block's length, so the
    /// invariant is kept.
    pub fn chunk(&mut self, delay_micros: u64, raw: &[u8]) -> (r: (String, Vec<u8>))
        requires
            old(self).wf(),
        ensures
            final(self).wf(),
            final(self).sanitize_on() == old(self).sanitize_on(),
            r.1@ == chunk_bytes(old(self).sanitize_on(), raw@),
            r.0@ == timing_line(delay_micros as nat, r.1@.len()),
            final(self).records() == old(self).records().push((delay_micros, r.1@.len())),
            final(self).blob() == old(self).blob() + r.1@,
    {
        let data: Vec<u8> = if self.sanitize {
            let text = lossy_decode(raw);
            let cleaned = clean_for_display(text.as_str());
            slice_to_vec(cleaned.as_str().as_bytes())
        } else {
            slice_to_vec(raw)
        };
        let line = format_timing_line(delay_micros, data.len());
        proof {
            self.records@ = self.records@.push((delay_micros, data@.len()));
            self.blob@ = self.blob@ + data@;
            assert(self.records@.drop_last() =~= old(self).records());
        }
        (line, data)
    }
}

/// For a recording produced here, the sum of the timing log's byte counts
/// never exceeds the blob's length: the invariant keeps them equal.
pub proof fn lemma_counts_match_blob(r: LegacyRecording)
    requires
        r.wf(),
    ensures
        count_total(r.records()) <= r.blob().len(),
{
}

/// The whole timing log of a recording: one line per record, in order.
pub open spec fn timing_text(records: Seq<(u64, nat)>) -> Seq<char>
    decreases records.len(),
{
    if records.len() == 0 {
        Seq::empty()
    } else {
        timing_line(records[0].0 as nat, records[0].1) + timing_text(records.drop_first())
    }
}

/// The replay a recording calls for: one step per record, each taking its
/// block of the blob in order from position `cur`.
pub open spec fn replay_blocks(records: Seq<(u64, nat)>, blob: Seq<u8>, cur: int) -> Seq<
    (u64, Seq<u8>),
>
    decreases records.len(),
{
    if records.len() == 0 {
        Seq::empty()
    } else {
        seq![(records[0].0, blob.subrange(cur, cur + records[0].1))] + replay_blocks(
            records.drop_first(),
            blob,
            cur + records[0].1,
        )
    }
}

proof fn lemma_count_total_first(records: Seq<(u64, nat)>)
    requires
        records.len() > 0,
    ensures
        count_total(records) == records[0].1 + count_total(records.drop_first()),
    decreases records.len(),
{
    if records.len() == 1 {
        assert(records.drop_first() =~= Seq::<(u64, nat)>::empty());
        assert(records.drop_last() =~= Seq::<(u64, nat)>::empty());
        assert(records.last() == records[0]);
    } else {
        let dl = records.drop_last();
        lemma_count_total_first(dl);
        assert(dl[0] == records[0]);
        assert(dl.drop_first() =~= records.drop_first().drop_last());
        assert(records.drop_first().last() == records.last());
    }
}

proof fn lemma_replay_of_records(records: Seq<(u64, nat)>, blob: Seq<u8>, cur: int)
    requires
        0 <= cur,
        cur + count_total(records) <= blob.len(),
        forall|i: int| 0 <= i < records.len() ==> (#[trigger] records[i]).1 <= usize::MAX,
    ensures
        legacy_steps(split_lines(timing_text(records)), blob, 0, cur) == Ok::<
            Seq<(u64, Seq<u8>)>,
            Error,
        >(replay_blocks(records, blob, cur)),
    decreases records.len(),
{
    if records.len() == 0 {
        let tt = timing_text(records);
        assert(tt.len() == 0);
        let lines = split_lines(tt);
        assert(crate::strings::line_break(tt, 0) == 0);
        assert(lines == seq![tt.subrange(0, 0)]);
        assert(crate::strings::skip_space(tt.subrange(0, 0), 0) == 0);
        assert(crate::strings::fields_of(lines[0]).len() == 0);
        assert(legacy_steps(lines, blob, 1, cur) == Ok::<Seq<(u64, Seq<u8>)>, Error>(Seq::empty()));
    } else {
        let d0 = records[0].0;
        let c0 = records[0].1;
        let rest = records.drop_first();
        let body = timing_record_text(d0 as nat, c0);
        let tt_rest = timing_text(rest);
        lemma_count_total_first(records);
        lemma_timing_record_no_newline(d0 as nat, c0);
        assert(timing_text(records) =~= body + seq!['\n'] + tt_rest);
        crate::strings::lemma_split_lines_prepend(body, tt_rest);
        let lines = split_lines(timing_text(records));
        let rl = split_lines(tt_rest);
        assert(lines == seq![body] + rl);
        assert(lines[0] == body);
        lemma_timing_record_fields(d0, c0);
        let fields = crate::strings::fields_of(body);
        assert(fields.len() == 2);
        assert(crate::delay::delay_micros(fields[0]) == Some(d0));
        assert(crate::numbers::usize_literal(fields[1]) == Some(c0 as usize));
        assert(cur + c0 <= blob.len());
        lemma_legacy_steps_shift(body, rl, blob, 0, cur + c0 as int);
        assert forall|i: int| 0 <= i < rest.len() implies (#[trigger] rest[i]).1 <= usize::MAX by {
            assert(rest[i] == records[i + 1]);
        }
        lemma_replay_of_records(rest, blob, cur + c0 as int);
        assert(legacy_steps(lines, blob, 0, cur) == Ok::<Seq<(u64, Seq<u8>)>, Error>(
            seq![(d0, blob.subrange(cur, cur + c0 as int))] + replay_blocks(
                rest,
                blob,
                cur + c0 as int,
            ),
        ));
    }
}

/// What a legacy recording writes replays to exactly its own chunks: planned
/// against its blob, the recording's timing text yields one step per
/// recorded chunk, with that chunk's delay and bytes and nothing else. The
/// writer and the replay parser agree over whole sessions.
pub proof fn lemma_recording_replays_exactly(r: LegacyRecording)
    requires
        r.wf(),
    ensures
        legacy_plan(timing_text(r.records()), r.blob()) == Ok::<Seq<(u64, Seq<u8>)>, Error>(
            replay_blocks(r.records(), r.blob(), 0),
        ),
{
    lemma_replay_of_records(r.records(), r.blob(), 0);
}

/// Turn one captured chunk into an asciicast event line and the text to
/// echo, for a chunk arriving `time_micros` after the session began.
pub fn cast_event(sanitize: bool, time_micros: u64, raw: &[u8]) -> (r: (String, String))
    ensures
        r.1@ == chunk_text(sanitize, raw@),
        r.0@ == event_line(time_micros as nat, chunk_text(sanitize, raw@)),
{
    let text = lossy_decode(raw);
    let shown = if sanitize {
        clean_for_display(text.as_str())
    } else {
        text
    };
    let line = format_event_line(time_micros, shown.as_str());
    (line, shown)
}

} // verus!
