use replay_rs::{cast_event, format_timing_line, LegacyRecording, Recorder};

#[test]
fn test_recorder_creation() {
    let recorder = Recorder::new("test.out", "test.timing");
    assert!(recorder.is_ok());

    let recorder = recorder.unwrap();
    assert_eq!(recorder.output_file, "test.out");
    assert_eq!(recorder.timing_file, "test.timing");
}

#[test]
fn test_recorder_with_empty_paths() {
    let recorder = Recorder::new("", "");
    assert!(recorder.is_ok());
}

#[test]
fn test_invalid_file_paths() {
    // Test with various invalid paths
    let invalid_paths = vec![
        ("", "empty.timing"),                    // Empty output path
        ("output.log", ""),                      // Empty timing path
        ("/dev/null/impossible", "test.timing"), // Invalid directory
        ("test.log", "/dev/null/impossible"),    // Invalid directory
    ];

    for (output_path, timing_path) in invalid_paths {
        let result = Recorder::new(output_path, timing_path);
        // Creation is permissive: the files come into being only when
        // recording starts. Just verify it doesn't panic.
        let _ = result;
    }
}

#[test]
fn test_filename_sanitization() {
    // Test that dangerous filenames are handled safely
    let dangerous_names = vec![
        "file\0name.log", // Null byte
        "file\nname.log", // Newline
        "file\rname.log", // Carriage return
        "..",             // Parent directory
        ".",              // Current directory
        "",               // Empty
        "con",            // Windows reserved
        "prn",            // Windows reserved
        "aux",            // Windows reserved
    ];

    for name in dangerous_names {
        let timing_name = format!("{}.timing", name);
        let result = Recorder::new(name, &timing_name);

        // Should either sanitize the name or reject it
        if result.is_err() {
            // Good, rejected dangerous name
            continue;
        }

        // If accepted, the creation itself must be safe: no file is touched
        // until recording starts.
    }
}

#[test]
fn test_timing_line_format() {
    assert_eq!(format_timing_line(100000, 12), "0.100000 12\n");
    assert_eq!(format_timing_line(0, 0), "0.000000 0\n");
    assert_eq!(format_timing_line(1, 1024), "0.000001 1024\n");
    assert_eq!(format_timing_line(2500000, 7), "2.500000 7\n");
    assert_eq!(format_timing_line(61000001, 3), "61.000001 3\n");
}

#[test]
fn test_legacy_recording_single_chunk() {
    // Recording one chunk of plain output produces a blob holding exactly
    // those bytes, and one timing line of the form <seconds>.<6 digits>
    // <count> whose count equals the blob's length.
    let mut session = LegacyRecording::start(false);
    let (line, data) = session.chunk(123456, b"Hello, World!\n");
    assert_eq!(data, b"Hello, World!\n");
    assert_eq!(line, "0.123456 14\n");

    let (seconds, rest) = line.trim_end().split_once('.').unwrap();
    let (frac, count) = rest.split_once(' ').unwrap();
    assert!(seconds.chars().all(|c| c.is_ascii_digit()));
    assert_eq!(frac.len(), 6);
    assert!(frac.chars().all(|c| c.is_ascii_digit()));
    assert_eq!(count.parse::<usize>().unwrap(), data.len());
}

#[test]
fn test_legacy_recording_sanitized_chunk() {
    let mut session = LegacyRecording::start(true);
    let (line, data) = session.chunk(1000, b"?2004hHi\x07!?2004l");
    assert_eq!(data, b"Hi!");
    assert_eq!(line, "0.001000 3\n");
}

#[test]
fn test_legacy_recording_counts_match_blob() {
    // The sum of the timing log's byte counts equals the blob's length,
    // chunk after chunk.
    let mut session = LegacyRecording::start(false);
    let chunks: Vec<&[u8]> = vec![b"abc", b"", b"defgh", b"\x1b[31mred\x1b[0m"];
    let mut counts: usize = 0;
    let mut blob: Vec<u8> = Vec::new();
    for (i, chunk) in chunks.iter().enumerate() {
        let (line, data) = session.chunk(i as u64 * 100, chunk);
        let count_field = line
            .trim_end()
            .split_whitespace()
            .nth(1)
            .unwrap()
            .parse::<usize>()
            .unwrap();
        assert_eq!(count_field, data.len());
        counts += count_field;
        blob.extend_from_slice(&data);
        assert_eq!(counts, blob.len());
    }
}

#[test]
fn test_cast_event_plain() {
    let (line, shown) = cast_event(false, 1234567, b"hi");
    assert_eq!(shown, "hi");
    assert_eq!(line, "[1.234567,\"o\",\"hi\"]\n");
}

#[test]
fn test_cast_event_escapes_data() {
    let (line, shown) = cast_event(false, 0, b"a\"b\\c\nd\x1b[0m");
    assert_eq!(shown, "a\"b\\c\nd\x1b[0m");
    assert_eq!(line, "[0.000000,\"o\",\"a\\\"b\\\\c\\nd\\u001b[0m\"]\n");
}

#[test]
fn test_cast_event_sanitized() {
    let (line, shown) = cast_event(true, 42, b"?2004hX?2004l");
    assert_eq!(shown, "X");
    assert_eq!(line, "[0.000042,\"o\",\"X\"]\n");
}
