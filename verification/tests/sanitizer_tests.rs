use replay_rs::clean_for_display;

#[test]
fn test_clean_for_display() {
    // Test that color codes are preserved
    let input = "\x1b[32mGreen Text\x1b[0m Normal Text";
    let result = clean_for_display(input);
    assert_eq!(result, "\x1b[32mGreen Text\x1b[0m Normal Text");

    // Test that bracketed paste mode is removed
    let input = "?2004hHello\x1b[31m Red\x1b[0m World?2004l";
    let result = clean_for_display(input);
    assert_eq!(result, "Hello\x1b[31m Red\x1b[0m World");

    // Test control character removal but preserve colors
    let input = "\x1b[1;32mBold Green\x1b[0m\x07\x08Text";
    let result = clean_for_display(input);
    assert_eq!(result, "\x1b[1;32mBold Green\x1b[0mText");
}

#[test]
fn test_clean_for_display_edge_cases() {
    // Test empty string
    assert_eq!(clean_for_display(""), "");

    // Test string with only ANSI sequences
    let input = "\x1b[2004h\x1b[0m";
    let result = clean_for_display(input);
    assert_eq!(result, "\x1b[0m");

    // Test tab, newline, and carriage return preservation
    let input = "Line1\tTabbed\nNew Line\rCarriage Return";
    let result = clean_for_display(input);
    assert_eq!(result, "Line1\tTabbed\nNew Line\rCarriage Return");

    // Test multiple bracketed paste sequences
    let input = "?2004hStart?2004lMiddle?2004hEnd?2004l";
    let result = clean_for_display(input);
    assert_eq!(result, "StartMiddleEnd");

    // Test complex ANSI sequence preservation
    let input = "\x1b[1;4;31mBold Underline Red\x1b[0m\x1b[32;40mGreen on Black\x1b[0m";
    let result = clean_for_display(input);
    assert_eq!(
        result,
        "\x1b[1;4;31mBold Underline Red\x1b[0m\x1b[32;40mGreen on Black\x1b[0m"
    );
}

#[test]
fn test_clean_for_display_edge_cases_2() {
    // Test ESC at end of string
    let input = "Text\x1b";
    let result = clean_for_display(input);
    assert_eq!(result, "Text\x1b");

    // Test incomplete ESC sequence
    let input = "Text\x1b[";
    let result = clean_for_display(input);
    assert_eq!(result, "Text\x1b[");

    // Test ? character not followed by 2004
    let input = "Question? Mark";
    let result = clean_for_display(input);
    assert_eq!(result, "Question? Mark");

    // Test ? at end of string
    let input = "End?";
    let result = clean_for_display(input);
    assert_eq!(result, "End?");

    // Test ?2004 without h or l
    let input = "Test?2004x";
    let result = clean_for_display(input);
    assert_eq!(result, "Test?2004x");
}

#[test]
fn test_clean_for_display_question_mark_edge() {
    // Test ? at position where it could be ?2004 but isn't complete
    let input = "Test?200";
    let result = clean_for_display(input);
    assert_eq!(result, "Test?200");

    // Test ? near end without enough chars
    let input = "Test?20";
    let result = clean_for_display(input);
    assert_eq!(result, "Test?20");
}

#[test]
fn test_ansi_sequence_handling() {
    // Test the clean_for_display function with various ANSI sequences

    // Basic color codes should be preserved
    let input = "\x1b[31mRed text\x1b[0m normal text";
    let result = clean_for_display(input);
    assert_eq!(result, "\x1b[31mRed text\x1b[0m normal text");

    // Bracketed paste mode should be removed
    let input = "\x1b[?2004htext\x1b[?2004l";
    let result = clean_for_display(input);
    assert_eq!(result, "text");

    // Complex sequences
    let input = "\x1b[1;32mBold Green\x1b[0m\x1b[?2004h\x1b[K\x1b[?2004l";
    let result = clean_for_display(input);
    assert_eq!(result, "\x1b[1;32mBold Green\x1b[0m\x1b[K");
}

#[test]
fn test_malicious_ansi_sequences() {
    // Test that potentially dangerous ANSI sequences are handled safely
    let dangerous_sequences = vec![
        // Terminal title manipulation
        "\x1b]0;malicious title\x07",
        "\x1b]2;malicious title\x07",
        // OSC sequences that might execute commands
        "\x1b]7;file://host/path\x07",
        // Alternate screen buffer manipulation
        "\x1b[?1049h\x1b[?1049l",
        // Cursor manipulation that might hide content
        "\x1b[9999;9999H",
        // Potentially dangerous SGR sequences
        "\x1b[38;5;`touch /tmp/pwned`;31m",
    ];

    for sequence in dangerous_sequences {
        let cleaned = clean_for_display(sequence);
        // Verify dangerous sequences are either removed or rendered safe
        // The exact behavior depends on implementation, but it should be safe
        assert!(cleaned.len() <= sequence.len());
    }
}

#[test]
fn test_clean_idempotent_on_marker_free_input() {
    // One pass removes everything a second pass could, for inputs free of
    // bracketed-paste markers.
    let samples = vec![
        "",
        "plain text",
        "\x1b[32mGreen\x1b[0m and \x1b[1;4;31mstyled\x1b[0m",
        "bell\x07 backspace\x08 mix\x00ed",
        "tabs\tand\nlines\r kept",
        "trailing escape\x1b",
        "half sequence \x1b[31",
        "question? marks?? ?200 ?20x",
    ];
    for input in samples {
        let once = clean_for_display(input);
        let twice = clean_for_display(&once);
        assert_eq!(twice, once);
    }
}

#[test]
fn test_clean_second_pass_on_uncovered_marker() {
    // A dropped control character inside the marker digits hides the marker
    // from the first pass and uncovers it for the second: such inputs are
    // exactly what the idempotence property excludes.
    let input = "?2004\x07h";
    let once = clean_for_display(input);
    assert_eq!(once, "?2004h");
    let twice = clean_for_display(&once);
    assert_eq!(twice, "");
}
