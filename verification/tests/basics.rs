//! Texts, errors and options.
use dccmd_rs::models::{ClientError, DcCmdError};
use dccmd_rs::nodes::models::UploadOptions;
use dccmd_rs::text::{
    contains_text, decimal, join2, join3, parse_u64, position_of, replace_all, same_text, trim,
};

#[test]
fn numbers_are_written_in_decimal() {
    for n in [0, 7, 10, 1234567890, u64::MAX] {
        assert_eq!(decimal(n), n.to_string());
        assert_eq!(parse_u64(&decimal(n)), Some(n));
    }
}

#[test]
fn numbers_are_read_like_unsigned_integers() {
    for text in [
        "", "+", "-", "0", "007", "+12", "-1", "++1", "1 ", " 1", "1.0", "x", "18446744073709551615",
        "18446744073709551616", "99999999999999999999", "1+", "٣",
    ] {
        assert_eq!(parse_u64(text), text.parse::<u64>().ok(), "{}", text);
    }
}

#[test]
fn texts_are_trimmed() {
    for text in ["", " ", "a", " a b\t\n", "\u{3000}ä\u{a0}", "\u{200b}x\u{b}"] {
        assert_eq!(trim(text), text.trim());
    }
}

#[test]
fn texts_are_replaced() {
    for (text, from, to) in
        [("aaa", "aa", "b"), ("", "x", "y"), ("abcabc", "bc", ""), ("äöä", "ä", "ää"), ("ab", "abc", "x")]
    {
        assert_eq!(replace_all(text, from, to), text.replace(from, to));
    }
}

#[test]
fn texts_are_joined_and_found() {
    assert_eq!(join2("a", "b"), "ab");
    assert_eq!(join3("a", "", "c"), "ac");
    assert!(same_text("ä", "ä"));
    assert!(!same_text("a", "ab"));
    let list = vec!["a".to_string(), "b".to_string(), "b".to_string()];
    assert!(contains_text(&list, "b"));
    assert!(!contains_text(&list, "c"));
    assert_eq!(position_of(&list, "b"), Some(1));
    assert_eq!(position_of(&list, "c"), None);
}

#[test]
fn client_errors_become_errors_of_the_commander() {
    assert_eq!(
        DcCmdError::from(ClientError::ConnectionFailed("x".to_string())),
        DcCmdError::ConnectionFailed
    );
    assert_eq!(
        DcCmdError::from(ClientError::InvalidUrl("u".to_string())),
        DcCmdError::InvalidUrl("u".to_string())
    );
    assert_eq!(DcCmdError::from(ClientError::IoError), DcCmdError::IoError);
    assert_eq!(DcCmdError::from(ClientError::CryptoError), DcCmdError::Unknown);
    assert_eq!(DcCmdError::from(ClientError::InvalidPath("p".to_string())), DcCmdError::Unknown);
    let response: dco3::auth::models::DracoonErrorResponse =
        serde_json::from_str("{\"code\":404,\"message\":\"Not found\"}").unwrap();
    assert!(matches!(
        DcCmdError::from(ClientError::Http(response)),
        DcCmdError::DracoonError(error) if error.is_not_found()
    ));
}

#[test]
fn errors_have_a_sentence() {
    assert_eq!(DcCmdError::ConnectionFailed.description(), "Connection to DRACOON failed");
    assert_eq!(DcCmdError::InvalidUrl("x".to_string()).description(), "Invalid DRACOON url format");
    assert_eq!(
        DcCmdError::InsufficentPermissions("x".to_string()).description(),
        "Insufficent permission to perform action"
    );
}

#[test]
fn upload_options_hold_their_values() {
    let options = UploadOptions::new(true, Some(2), None, false, true, false);
    assert!(options.overwrite && options.skip_root);
    assert!(!options.recursive && !options.share);
    assert_eq!(options.classification, Some(2));
    assert_eq!(options.velocity, None);
}
