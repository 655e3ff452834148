//! Branch-name validation and slugify behaviour.

use rung::branch_name::BranchName;
use rung::branch_name::slugify;
use rung::errors::Error;

#[test]
fn test_valid_branch_names() {
    // Simple names
    assert!(BranchName::new("main").is_ok());
    assert!(BranchName::new("master").is_ok());
    assert!(BranchName::new("develop").is_ok());

    // With slashes (hierarchical)
    assert!(BranchName::new("feature/auth").is_ok());
    assert!(BranchName::new("feature/user/login").is_ok());
    assert!(BranchName::new("fix/bug-123").is_ok());

    // With dashes and underscores
    assert!(BranchName::new("my-feature").is_ok());
    assert!(BranchName::new("my_feature").is_ok());
    assert!(BranchName::new("feature-123-fix").is_ok());

    // With numbers
    assert!(BranchName::new("v1.0.0").is_ok());
    assert!(BranchName::new("release-2024-01").is_ok());

    // With @ (not followed by {)
    assert!(BranchName::new("user@feature").is_ok());
}

#[test]
fn test_empty_name() {
    let err = BranchName::new("").unwrap_err();
    assert!(matches!(err, Error::InvalidBranchName { .. }));
}

#[test]
fn test_single_at() {
    let err = BranchName::new("@").unwrap_err();
    assert!(matches!(err, Error::InvalidBranchName { .. }));
}

#[test]
fn test_starts_with_dot() {
    let err = BranchName::new(".hidden").unwrap_err();
    assert!(matches!(err, Error::InvalidBranchName { .. }));
}

#[test]
fn test_ends_with_dot() {
    let err = BranchName::new("branch.").unwrap_err();
    assert!(matches!(err, Error::InvalidBranchName { .. }));
}

#[test]
fn test_ends_with_lock() {
    let err = BranchName::new("branch.lock").unwrap_err();
    assert!(matches!(err, Error::InvalidBranchName { .. }));
}

#[test]
fn test_consecutive_dots() {
    let err = BranchName::new("branch..name").unwrap_err();
    assert!(matches!(err, Error::InvalidBranchName { .. }));

    // Path traversal attempt
    let err = BranchName::new("../etc/passwd").unwrap_err();
    assert!(matches!(err, Error::InvalidBranchName { .. }));
}

#[test]
fn test_slash_rules() {
    // Starts with slash
    let err = BranchName::new("/branch").unwrap_err();
    assert!(matches!(err, Error::InvalidBranchName { .. }));

    // Ends with slash
    let err = BranchName::new("branch/").unwrap_err();
    assert!(matches!(err, Error::InvalidBranchName { .. }));

    // Consecutive slashes
    let err = BranchName::new("feature//auth").unwrap_err();
    assert!(matches!(err, Error::InvalidBranchName { .. }));

    // Slash followed by dot
    let err = BranchName::new("feature/.hidden").unwrap_err();
    assert!(matches!(err, Error::InvalidBranchName { .. }));
}

#[test]
fn test_git_forbidden_characters() {
    for c in [' ', '~', '^', ':', '?', '*', '['] {
        let name = format!("branch{c}name");
        let err = BranchName::new(&name).unwrap_err();
        assert!(matches!(err, Error::InvalidBranchName { .. }), "char: {c}");
    }
}

#[test]
fn test_shell_metacharacters() {
    for c in [
        '$', ';', '|', '&', '>', '<', '`', '\\', '"', '\'', '(', ')', '{', '}', '!',
    ] {
        let name = format!("branch{c}name");
        let err = BranchName::new(&name).unwrap_err();
        assert!(matches!(err, Error::InvalidBranchName { .. }), "char: {c}");
    }
}

#[test]
fn test_shell_injection_attempts() {
    // Command substitution
    let err = BranchName::new("branch$(whoami)").unwrap_err();
    assert!(matches!(err, Error::InvalidBranchName { .. }));

    // Command chaining
    let err = BranchName::new("branch;rm -rf /").unwrap_err();
    assert!(matches!(err, Error::InvalidBranchName { .. }));

    // Pipe
    let err = BranchName::new("branch|cat /etc/passwd").unwrap_err();
    assert!(matches!(err, Error::InvalidBranchName { .. }));
}

#[test]
fn test_at_brace_sequence() {
    let err = BranchName::new("branch@{1}").unwrap_err();
    assert!(matches!(err, Error::InvalidBranchName { .. }));
}

#[test]
fn test_control_characters() {
    let err = BranchName::new("branch\x00name").unwrap_err();
    assert!(matches!(err, Error::InvalidBranchName { .. }));

    let err = BranchName::new("branch\tname").unwrap_err();
    assert!(matches!(err, Error::InvalidBranchName { .. }));

    let err = BranchName::new("branch\nname").unwrap_err();
    assert!(matches!(err, Error::InvalidBranchName { .. }));
}

#[test]
fn test_display_and_deref() {
    let name = BranchName::new("feature/auth").unwrap();
    assert_eq!(format!("{}", name.as_str()), "feature/auth");
    assert_eq!(name.as_str(), "feature/auth");
    assert_eq!(name.into_inner(), "feature/auth");
}

// === slugify tests ===

#[test]
fn test_slugify_basic() {
    assert_eq!(
        slugify("feat: add authentication"),
        "feat-add-authentication"
    );
    assert_eq!(slugify("Fix login bug"), "fix-login-bug");
    assert_eq!(
        slugify("feat(auth): add OAuth support"),
        "feat-auth-add-oauth-support"
    );
}

#[test]
fn test_slugify_whitespace_only() {
    assert_eq!(slugify("   "), "");
    assert_eq!(slugify("\t\n"), "");
}

#[test]
fn test_slugify_empty() {
    assert_eq!(slugify(""), "");
}

#[test]
fn test_slugify_emoji_only() {
    assert_eq!(slugify("🔥🚀"), "");
    assert_eq!(slugify("✨ ⭐ 💫"), "");
}

#[test]
fn test_slugify_multiline() {
    // Only first line should be used
    assert_eq!(
        slugify("feat: add auth\n\nThis is a longer description"),
        "feat-add-auth"
    );
    assert_eq!(slugify("fix: bug\nSecond line\nThird line"), "fix-bug");
}

#[test]
fn test_slugify_truncation() {
    // 50 char limit at word boundary
    let long_msg =
        "feat: implement very long feature name that exceeds the maximum length allowed";
    let result = slugify(long_msg);
    assert!(result.chars().count() <= 50);
    assert!(!result.ends_with('-'));
    // Should truncate at word boundary
    assert_eq!(result, "feat-implement-very-long-feature-name-that");
}

#[test]
fn test_slugify_truncation_no_hyphen() {
    // Very long single word should just truncate at char limit
    let long_word = "a".repeat(60);
    let result = slugify(&long_word);
    assert_eq!(result.chars().count(), 50);
}

#[test]
fn test_slugify_unicode() {
    // Accented characters (alphanumeric in Unicode)
    assert_eq!(slugify("café feature"), "café-feature");
    assert_eq!(slugify("naïve implementation"), "naïve-implementation");

    // CJK characters
    assert_eq!(slugify("新功能 feature"), "新功能-feature");

    // Mixed unicode and ASCII
    assert_eq!(slugify("über cool änderung"), "über-cool-änderung");
}

#[test]
fn test_slugify_special_chars() {
    assert_eq!(slugify("fix: bug #123"), "fix-bug-123");
    assert_eq!(
        slugify("feat(scope): add [feature]"),
        "feat-scope-add-feature"
    );
    assert_eq!(slugify("fix: path/to/file"), "fix-path-to-file");
}

// === from_message tests ===

#[test]
fn test_from_message_basic() {
    let name = BranchName::from_message("feat: add authentication").unwrap();
    assert_eq!(name.as_str(), "feat-add-authentication");
}

#[test]
fn test_from_message_empty_error() {
    let result = BranchName::from_message("");
    assert!(result.is_err());
    if let Err(Error::InvalidBranchName { reason, .. }) = result {
        assert!(reason.contains("no alphanumeric"));
    }
}

#[test]
fn test_from_message_whitespace_only_error() {
    let result = BranchName::from_message("   \t\n  ");
    assert!(result.is_err());
}

#[test]
fn test_from_message_emoji_only_error() {
    let result = BranchName::from_message("🔥🚀✨");
    assert!(result.is_err());
    if let Err(Error::InvalidBranchName { reason, .. }) = result {
        assert!(reason.contains("no alphanumeric"));
    }
}

#[test]
fn test_from_message_multiline() {
    let name = BranchName::from_message("feat: add auth\n\nDetailed description here").unwrap();
    assert_eq!(name.as_str(), "feat-add-auth");
}

// === additional behaviour pinned by the contracts ===

#[test]
fn test_invalid_name_reasons() {
    match BranchName::new("../x") {
        Err(Error::InvalidBranchName { name, reason }) => {
            assert_eq!(name, "../x");
            assert_eq!(reason, "branch name cannot contain '..'");
        }
        other => panic!("expected InvalidBranchName, got {other:?}"),
    }
    match BranchName::new("a b") {
        Err(Error::InvalidBranchName { reason, .. }) => {
            assert_eq!(reason, "branch name cannot contain ' '");
        }
        other => panic!("expected InvalidBranchName, got {other:?}"),
    }
    match BranchName::new("a$b") {
        Err(Error::InvalidBranchName { reason, .. }) => {
            assert_eq!(reason, "branch name cannot contain shell metacharacter '$'");
        }
        other => panic!("expected InvalidBranchName, got {other:?}"),
    }
}

#[test]
fn test_slugify_idempotent_examples() {
    for text in [
        "feat: add authentication",
        "Fix login bug",
        "feat(scope): add [feature]",
        "über cool änderung",
        "feat: implement very long feature name that exceeds the maximum length allowed",
    ] {
        let once = slugify(text);
        let twice = slugify(&once);
        assert_eq!(once, twice, "slugify not idempotent on {text:?}");
    }
}

#[test]
fn test_branch_name_equality_is_bytewise() {
    let a = BranchName::new("feature/auth").unwrap();
    let b = BranchName::new("feature/auth").unwrap();
    let c = BranchName::new("feature/auth2").unwrap();
    assert!(a == b);
    assert!(a != c);
}
