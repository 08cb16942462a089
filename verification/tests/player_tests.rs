use std::io::Write;

use replay_rs::{Error, Player};

#[test]
fn test_player_creation_missing_files() {
    let player = Player::new("nonexistent.timing", "nonexistent.out");
    assert!(player.is_err());
    assert!(matches!(
        player.unwrap_err(),
        Error::FileNotFound { ref path } if path == "nonexistent.out"
    ));
}

#[test]
fn test_player_missing_session_file() {
    // An existing timing file does not help when the session file is gone.
    let mut timing = tempfile::NamedTempFile::new().unwrap();
    timing.write_all(b"0.1 5\n").unwrap();
    let timing_path = timing.path().to_str().unwrap().to_string();

    let player = Player::new(&timing_path, "missing_session_file.out");
    assert!(matches!(
        player.unwrap_err(),
        Error::FileNotFound { ref path } if path == "missing_session_file.out"
    ));
}

#[test]
fn test_player_missing_timing_file() {
    // An existing session file does not help when a non-empty timing path
    // names a missing file.
    let mut session = tempfile::NamedTempFile::new().unwrap();
    session.write_all(b"Hello").unwrap();
    let session_path = session.path().to_str().unwrap().to_string();

    let player = Player::new("missing_timing_file.timing", &session_path);
    assert!(matches!(
        player.unwrap_err(),
        Error::FileNotFound { ref path } if path == "missing_timing_file.timing"
    ));
}

#[test]
fn test_player_creation_success() {
    let mut timing = tempfile::NamedTempFile::new().unwrap();
    timing.write_all(b"0.1 5\n").unwrap();
    let timing_path = timing.path().to_str().unwrap().to_string();
    let mut session = tempfile::NamedTempFile::new().unwrap();
    session.write_all(b"Hello").unwrap();
    let session_path = session.path().to_str().unwrap().to_string();

    let player = Player::new(&timing_path, &session_path).unwrap();
    assert_eq!(player.timing_file, timing_path);
    assert_eq!(player.session_file, session_path);
}

#[test]
fn test_player_empty_timing_path_not_checked() {
    // An empty timing path is the asciicast sentinel and is never validated.
    let mut session = tempfile::NamedTempFile::new().unwrap();
    session.write_all(b"{\"version\":2}").unwrap();
    let session_path = session.path().to_str().unwrap().to_string();

    let player = Player::new("", &session_path).unwrap();
    assert_eq!(player.timing_file, "");
    assert_eq!(player.session_file, session_path);
}

#[test]
fn test_player_from_presence() {
    let ok = Player::from_presence("t", "s", true, true).unwrap();
    assert_eq!(ok.timing_file, "t");
    assert_eq!(ok.session_file, "s");

    let no_session = Player::from_presence("t", "s", false, true);
    assert!(matches!(
        no_session.unwrap_err(),
        Error::FileNotFound { ref path } if path == "s"
    ));

    let no_timing = Player::from_presence("t", "s", true, false);
    assert!(matches!(
        no_timing.unwrap_err(),
        Error::FileNotFound { ref path } if path == "t"
    ));

    // Empty timing path: its presence flag is irrelevant.
    let empty_timing = Player::from_presence("", "s", true, false);
    assert!(empty_timing.is_ok());
}

#[test]
fn test_error_descriptions() {
    assert!(!Error::ProcessSpawnError.describe().is_empty());
    assert!(!Error::CommandFailed { exit_code: Some(1) }.describe().is_empty());
    assert!(!Error::IoError.describe().is_empty());
    assert!(!Error::FileNotFound { path: "x".to_string() }.describe().is_empty());
    assert!(!Error::InvalidTimingData.describe().is_empty());
    assert!(!Error::InvalidEventData.describe().is_empty());
}
