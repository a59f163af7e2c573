//! Directory paths.

use fasm_storage::{validate_dir, ErrorMessage, KeyError, RetryableStorageError};

#[test]
fn validate_dir_accepts_utf8_and_empty() {
    assert!(validate_dir(&[]).is_ok());
    assert!(validate_dir(&[b"", b"asset", b"btc"]).is_ok());
    // UTF-8 multi-byte content is legal.
    assert!(validate_dir(&["€".as_bytes()]).is_ok());
}

#[test]
fn validate_dir_rejects_non_utf8_with_index() {
    assert_eq!(
        validate_dir(&[b"ok", b"\xFF\xFE"]),
        Err(KeyError::DirSegmentNotUtf8 { segment: 1 })
    );
    assert_eq!(
        validate_dir(&[b"\x00\xFF"]),
        Err(KeyError::DirSegmentNotUtf8 { segment: 0 })
    );
}

#[test]
fn key_error_is_not_retryable() {
    assert!(!KeyError::RootNotRemovable.is_retryable());
    assert!(!KeyError::DirSegmentNotUtf8 { segment: 0 }.is_retryable());
}

#[test]
fn the_first_bad_segment_is_the_one_named() {
    // Truncated, overlong, surrogate and out-of-range sequences are no text.
    let bad: [&[u8]; 6] = [
        &[0xC3],
        &[0xC0, 0x80],
        &[0xED, 0xA0, 0x80],
        &[0xF4, 0x90, 0x80, 0x80],
        &[0x80],
        &[0xE2, 0x82],
    ];
    for segment in bad {
        for at in 0..4usize {
            let mut dir: Vec<&[u8]> = vec![b"ok"; at];
            dir.push(segment);
            dir.push(segment);
            let expected = dir.iter().position(|seg| core::str::from_utf8(seg).is_err());
            assert_eq!(expected, Some(at));
            assert_eq!(validate_dir(&dir), Err(KeyError::DirSegmentNotUtf8 { segment: at }));
        }
    }
    let good: [&[u8]; 4] = ["\u{7FF}".as_bytes(), "\u{FFFF}".as_bytes(), "\u{10FFFF}".as_bytes(), b"\0"];
    assert_eq!(validate_dir(&good), Ok(()));
}

#[test]
fn key_errors_have_texts() {
    assert_eq!(
        KeyError::DirSegmentNotUtf8 { segment: 12 }.message(),
        "directory segment 12 is not valid UTF-8"
    );
    assert_eq!(KeyError::RootNotRemovable.message(), "the root directory cannot be removed");
}
