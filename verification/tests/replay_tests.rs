use replay_rs::{detect_format, plan_asciicast, plan_legacy, Error, SessionFormat};

#[test]
fn test_legacy_plan_two_blocks() {
    // Two timing records cut the blob into two paced blocks.
    let steps = plan_legacy("0.1 12\n0.5 5\n", b"Hello World! Test").unwrap();
    assert_eq!(steps.len(), 2);
    assert_eq!(steps[0].delay_micros, 100000);
    assert_eq!(steps[0].bytes, b"Hello World!");
    assert_eq!(steps[1].delay_micros, 500000);
    assert_eq!(steps[1].bytes, b" Test");
}

#[test]
fn test_legacy_plan_short_blob_ends_cleanly() {
    // A record the blob can no longer cover keeps its delay, prints nothing,
    // and ends the plan without an error.
    let steps = plan_legacy("0.1 12\n0.5 6\n0.9 1\n", b"Hello World! Test").unwrap();
    assert_eq!(steps.len(), 2);
    assert_eq!(steps[0].bytes, b"Hello World!");
    assert_eq!(steps[1].delay_micros, 500000);
    assert_eq!(steps[1].bytes, b"");

    let steps = plan_legacy("0.001 100\n", b"Short").unwrap();
    assert_eq!(steps.len(), 1);
    assert_eq!(steps[0].bytes, b"");
}

#[test]
fn test_legacy_plan_invalid_delay_is_fatal() {
    // A malformed delay fails the whole replay, whatever follows.
    let r = plan_legacy("invalid_delay 5\n0.1 2\n", b"abcdefgh");
    assert!(matches!(r.unwrap_err(), Error::InvalidTimingData));

    let r = plan_legacy("0.1 invalid_size\n", b"abcdefgh");
    assert!(matches!(r.unwrap_err(), Error::InvalidTimingData));
}

#[test]
fn test_legacy_plan_skips_malformed_shapes() {
    // Blank lines and lines with fewer than two fields are skipped, not
    // fatal; a malformed numeric field on a two-field line is fatal.
    let timing = "\n0.1\n0.1 5\n   \n";
    let steps = plan_legacy(timing, b"Hello").unwrap();
    assert_eq!(steps.len(), 1);
    assert_eq!(steps[0].bytes, b"Hello");

    let steps = plan_legacy("", b"Hello").unwrap();
    assert_eq!(steps.len(), 0);
}

#[test]
fn test_legacy_plan_extra_fields_ignored() {
    let steps = plan_legacy("0.25 3 trailing junk\n", b"abcdef").unwrap();
    assert_eq!(steps.len(), 1);
    assert_eq!(steps[0].delay_micros, 250000);
    assert_eq!(steps[0].bytes, b"abc");
}

#[test]
fn test_legacy_plan_delay_grammar() {
    let blob: &[u8] = b"abcdefghij";
    let one = |t: &str| {
        let steps = plan_legacy(t, blob).unwrap();
        assert_eq!(steps.len(), 1);
        steps[0].delay_micros
    };
    assert_eq!(one("0.1 1\n"), 100000);
    assert_eq!(one("1e-3 1\n"), 1000);
    assert_eq!(one("1E2 1\n"), 100000000);
    assert_eq!(one(".5 1\n"), 500000);
    assert_eq!(one("5. 1\n"), 5000000);
    assert_eq!(one("+2.5e1 1\n"), 25000000);
    assert_eq!(one("0.0000001 1\n"), 0);
    assert_eq!(one("-0.5 1\n"), 0);
    assert_eq!(one("nan 1\n"), 0);
    assert_eq!(one("-inf 1\n"), 0);
    assert_eq!(one("inf 1\n"), u64::MAX);
    assert_eq!(one("Infinity 1\n"), u64::MAX);
    assert_eq!(one("1e25 1\n"), u64::MAX);
    assert_eq!(one("1e-25 1\n"), 0);
    assert_eq!(one("00012.000001 1\n"), 12000001);

    for bad in ["1e 1\n", ". 1\n", "e5 1\n", "0x5 1\n", "1.2.3 1\n", "--1 1\n", "5e++2 1\n"] {
        assert!(matches!(
            plan_legacy(bad, blob).unwrap_err(),
            Error::InvalidTimingData
        ));
    }
}

#[test]
fn test_legacy_plan_count_grammar() {
    let steps = plan_legacy("0.1 +3\n", b"abcdef").unwrap();
    assert_eq!(steps[0].bytes, b"abc");

    // An overflowing byte count is a malformed numeric field.
    let r = plan_legacy("0.1 99999999999999999999999999\n", b"abc");
    assert!(matches!(r.unwrap_err(), Error::InvalidTimingData));

    let r = plan_legacy("0.1 -3\n", b"abc");
    assert!(matches!(r.unwrap_err(), Error::InvalidTimingData));
}

#[test]
fn test_cast_plan_two_events() {
    let content = "{\"version\":2,\"width\":80,\"height\":24}\n[0.1,\"o\",\"Hello\"]\n[0.5,\"o\",\" World\"]\n";
    let steps = plan_asciicast(content).unwrap();
    assert_eq!(steps.len(), 2);
    assert_eq!(steps[0].delay_micros, 100000);
    assert_eq!(steps[0].data, "Hello");
    // Event times are absolute: the second delay is the distance from the
    // first event.
    assert_eq!(steps[1].delay_micros, 400000);
    assert_eq!(steps[1].data, " World");
}

#[test]
fn test_cast_plan_skips_and_errors() {
    // Blank lines and arrays of the wrong arity are skipped.
    let content = "{\"version\":2}\n\n[1,2]\n[0.2,\"o\",\"x\"]\n";
    let steps = plan_asciicast(content).unwrap();
    assert_eq!(steps.len(), 1);
    assert_eq!(steps[0].data, "x");

    // A line that is not a JSON array is fatal.
    let r = plan_asciicast("{\"version\":2}\nnot json\n");
    assert!(matches!(r.unwrap_err(), Error::InvalidEventData));

    // A three-element array with a non-number time is fatal.
    let r = plan_asciicast("{\"version\":2}\n[\"x\",\"o\",\"data\"]\n");
    assert!(matches!(r.unwrap_err(), Error::InvalidEventData));

    // A three-element array with a non-string type is fatal, even though it
    // could never be an output event.
    let r = plan_asciicast("{\"version\":2}\n[1,2,3]\n");
    assert!(matches!(r.unwrap_err(), Error::InvalidEventData));

    // An empty file has no header line.
    let r = plan_asciicast("");
    assert!(matches!(r.unwrap_err(), Error::InvalidEventData));

    // A header alone replays nothing.
    let steps = plan_asciicast("{\"version\":2}").unwrap();
    assert_eq!(steps.len(), 0);
}

#[test]
fn test_cast_plan_non_output_events() {
    // Input events are skipped and do not advance the clock.
    let content = "{\"version\":2}\n[0.3,\"i\",\"typed\"]\n[0.5,\"o\",\"out\"]\n";
    let steps = plan_asciicast(content).unwrap();
    assert_eq!(steps.len(), 1);
    assert_eq!(steps[0].delay_micros, 500000);
    assert_eq!(steps[0].data, "out");
}

#[test]
fn test_cast_plan_regressing_time() {
    // An event whose time regresses gets no delay.
    let content = "{\"version\":2}\n[0.5,\"o\",\"a\"]\n[0.2,\"o\",\"b\"]\n[0.6,\"o\",\"c\"]\n";
    let steps = plan_asciicast(content).unwrap();
    assert_eq!(steps[0].delay_micros, 500000);
    assert_eq!(steps[1].delay_micros, 0);
    assert_eq!(steps[2].delay_micros, 400000);
}

#[test]
fn test_cast_plan_unescapes_data() {
    // The decoded event data is the unescaped string, not the JSON text.
    let content = "{\"version\":2}\n[0.1,\"o\",\"a\\nb\\\"c\\u001b[0m\"]\n";
    let steps = plan_asciicast(content).unwrap();
    assert_eq!(steps[0].data, "a\nb\"c\x1b[0m");
}

#[test]
fn test_format_detection() {
    // A version-2 JSON object on the first line is asciicast.
    let cast = "{\"version\":2,\"width\":80,\"height\":24,\"timestamp\":1700000000}\n[0.1,\"o\",\"x\"]\n";
    assert_eq!(detect_format(Some(cast)), SessionFormat::Asciicast);

    // Any other first line is legacy.
    assert_eq!(detect_format(Some("plain session text\n")), SessionFormat::Legacy);
    assert_eq!(detect_format(Some("{\"version\":1}\n")), SessionFormat::Legacy);
    assert_eq!(detect_format(Some("{\"version\":2.5}\n")), SessionFormat::Legacy);
    assert_eq!(detect_format(Some("{\"width\":80}\n")), SessionFormat::Legacy);
    assert_eq!(detect_format(Some("[2]\n")), SessionFormat::Legacy);
    assert_eq!(detect_format(Some("")), SessionFormat::Legacy);

    // A file that does not read as UTF-8 can only be legacy binary data.
    assert_eq!(detect_format(None), SessionFormat::Legacy);

    // Only the first line decides.
    assert_eq!(
        detect_format(Some("not json\n{\"version\":2}\n")),
        SessionFormat::Legacy
    );
}
