use replay_rs::{
    cast_event, detect_format, format_header_line, plan_asciicast, plan_legacy, Error,
    LegacyRecording, SessionFormat,
};

#[test]
fn test_header_line_minimal() {
    let line = format_header_line(80, 24, 1700000000, None, None, None);
    assert_eq!(
        line,
        "{\"version\":2,\"width\":80,\"height\":24,\"timestamp\":1700000000}\n"
    );
}

#[test]
fn test_header_line_with_fields() {
    let line = format_header_line(132, 43, 0, Some("a \"quoted\" title"), Some("sh -c x"), Some("/bin/zsh"));
    assert_eq!(
        line,
        "{\"version\":2,\"width\":132,\"height\":43,\"timestamp\":0,\"title\":\"a \\\"quoted\\\" title\",\"command\":\"sh -c x\",\"shell\":\"/bin/zsh\"}\n"
    );
}

#[test]
fn test_header_line_detected_as_asciicast() {
    let header = format_header_line(80, 24, 1700000000, Some("t"), None, None);
    assert_eq!(detect_format(Some(&header)), SessionFormat::Asciicast);
}

#[test]
fn test_legacy_round_trip() {
    // What the recorder writes, the planner reads back: same blocks, same
    // delays.
    let chunks: Vec<(u64, &[u8])> = vec![
        (0, b"first chunk\n"),
        (123456, b"second\n"),
        (2000000, b""),
        (999999, b"\x1b[31mcolored\x1b[0m\n"),
    ];
    let mut session = LegacyRecording::start(false);
    let mut timing = String::new();
    let mut blob: Vec<u8> = Vec::new();
    for (delay, chunk) in &chunks {
        let (line, data) = session.chunk(*delay, chunk);
        timing.push_str(&line);
        blob.extend_from_slice(&data);
    }

    let steps = plan_legacy(&timing, &blob).unwrap();
    assert_eq!(steps.len(), chunks.len());
    for (step, (delay, chunk)) in steps.iter().zip(chunks.iter()) {
        assert_eq!(step.delay_micros, *delay);
        assert_eq!(&step.bytes[..], *chunk);
    }
}

#[test]
fn test_asciicast_round_trip() {
    // Event lines written by the recorder decode back to the same text and
    // the same pacing, escaping included.
    let events: Vec<(u64, &[u8])> = vec![
        (0, b"plain"),
        (250000, b"with \"quotes\" and \\slashes\\"),
        (1000000, b"control\x01chars\nand lines"),
        (1000000, b"\x1b[1mbold\x1b[0m"),
    ];
    let mut content = format_header_line(80, 24, 1700000000, None, Some("demo"), None);
    let mut shown_texts: Vec<String> = Vec::new();
    for (time, chunk) in &events {
        let (line, shown) = cast_event(false, *time, chunk);
        content.push_str(&line);
        shown_texts.push(shown);
    }

    assert_eq!(detect_format(Some(&content)), SessionFormat::Asciicast);

    let steps = plan_asciicast(&content).unwrap();
    assert_eq!(steps.len(), events.len());
    let mut last: u64 = 0;
    for (i, step) in steps.iter().enumerate() {
        assert_eq!(step.data, shown_texts[i]);
        let expected_delay = events[i].0.saturating_sub(last);
        assert_eq!(step.delay_micros, expected_delay);
        last = events[i].0;
    }
}

#[test]
fn test_sanitized_asciicast_round_trip() {
    let (line, shown) = cast_event(true, 100, b"?2004hkeep me?2004l\x07");
    assert_eq!(shown, "keep me");
    let content = format!("{}{}", format_header_line(80, 24, 0, None, None, None), line);
    let steps = plan_asciicast(&content).unwrap();
    assert_eq!(steps[0].data, "keep me");
    assert_eq!(steps[0].delay_micros, 100);
}

#[test]
fn test_legacy_session_not_mistaken_for_asciicast() {
    let mut session = LegacyRecording::start(false);
    let (_, data) = session.chunk(0, b"ls -la\ntotal 0\n");
    let blob = data;
    assert_eq!(
        detect_format(Some(std::str::from_utf8(&blob).unwrap())),
        SessionFormat::Legacy
    );
}

#[test]
fn test_invalid_timing_error_matches_taxonomy() {
    let r = plan_legacy("zero.one 5\n", b"abcdef");
    assert!(matches!(r, Err(Error::InvalidTimingData)));
}
