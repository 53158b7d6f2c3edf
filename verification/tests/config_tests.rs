use gh_labeler::config::{
    default_labels, is_valid_hex_color, is_valid_repository_format, LabelConfig, SyncConfig,
};
use gh_labeler::error::Error;

#[test]
fn test_valid_hex_color() {
    assert!(is_valid_hex_color("ff0000"));
    assert!(is_valid_hex_color("00FF00"));
    assert!(is_valid_hex_color("123abc"));

    assert!(!is_valid_hex_color("ff00")); // Too short
    assert!(!is_valid_hex_color("ff0000x")); // Invalid character
    assert!(!is_valid_hex_color("#ff0000")); // With #
}

#[test]
fn test_valid_repository_format() {
    assert!(is_valid_repository_format("owner/repo"));
    assert!(is_valid_repository_format("org/project"));

    assert!(!is_valid_repository_format("repo")); // No slash
    assert!(!is_valid_repository_format("/repo")); // No owner
    assert!(!is_valid_repository_format("owner/")); // No repo name
    assert!(!is_valid_repository_format("owner/repo/sub")); // Too many parts
}

#[test]
fn test_label_config_validation() {
    let valid_label = LabelConfig::new("test".to_string(), "ff0000".to_string()).unwrap();
    assert_eq!(valid_label.name, "test");
    assert_eq!(valid_label.color, "ff0000");

    // Invalid color
    let invalid_color = LabelConfig::new("test".to_string(), "invalid".to_string());
    assert!(invalid_color.is_err());
}

#[test]
fn test_blank_label_name_rejected() {
    let blank = LabelConfig::new("   ".to_string(), "ff0000".to_string());
    match blank {
        Err(Error::LabelValidation(m)) => assert_eq!(m, "Label name cannot be empty"),
        other => panic!("expected a label validation error, got {:?}", other),
    }
}

#[test]
fn test_blankness_matches_trim() {
    // Names that str::trim reduces to nothing are rejected, including the
    // vertical tab and non-ASCII whitespace.
    for name in ["", "\u{000B}", "\u{0085}\u{00A0}", "\u{2003}\u{3000}", " \t\r\n\u{000C}"] {
        assert!(name.trim().is_empty());
        assert!(
            LabelConfig::new(name.to_string(), "ff0000".to_string()).is_err(),
            "name {:?} should be rejected",
            name
        );
    }
    // A name with any non-whitespace character is kept.
    for name in ["x", " x ", "\u{3000}bug\u{3000}"] {
        assert!(!name.trim().is_empty());
        assert!(LabelConfig::new(name.to_string(), "ff0000".to_string()).is_ok());
    }
    // The same set gates the access token.
    let config = SyncConfig {
        access_token: "\u{000B}".to_string(),
        repository: "owner/repo".to_string(),
        dry_run: false,
        allow_added_labels: false,
        labels: None,
    };
    match config.validate() {
        Err(Error::ConfigValidation(m)) => assert_eq!(m, "Access token is required"),
        other => panic!("expected a config validation error, got {:?}", other),
    }
}

#[test]
fn test_invalid_color_error_carries_color() {
    let label = LabelConfig {
        name: "test".to_string(),
        color: "zzzzzz".to_string(),
        description: None,
        aliases: Vec::new(),
        delete: false,
    };
    assert_eq!(
        label.validate(),
        Err(Error::InvalidLabelColor("zzzzzz".to_string()))
    );
}

#[test]
fn test_normalize_color() {
    assert_eq!(LabelConfig::normalize_color("#FF0000"), "ff0000");
    assert_eq!(LabelConfig::normalize_color("D73A4A"), "d73a4a");
    assert_eq!(LabelConfig::normalize_color("00ff00"), "00ff00");
    assert_eq!(LabelConfig::normalize_color("##AbC"), "abc");
    assert_eq!(LabelConfig::normalize_color(""), "");
}

#[test]
fn test_sync_config_validation_order() {
    let mut config = SyncConfig {
        access_token: "  ".to_string(),
        repository: "bad".to_string(),
        dry_run: false,
        allow_added_labels: false,
        labels: None,
    };
    match config.validate() {
        Err(Error::ConfigValidation(m)) => assert_eq!(m, "Access token is required"),
        other => panic!("expected a config validation error, got {:?}", other),
    }

    config.access_token = "token".to_string();
    assert_eq!(
        config.validate(),
        Err(Error::InvalidRepositoryFormat("bad".to_string()))
    );

    config.repository = "owner/repo".to_string();
    assert_eq!(config.validate(), Ok(()));

    config.labels = Some(vec![LabelConfig {
        name: "ok".to_string(),
        color: "nothex".to_string(),
        description: None,
        aliases: Vec::new(),
        delete: false,
    }]);
    assert_eq!(
        config.validate(),
        Err(Error::InvalidLabelColor("nothex".to_string()))
    );
}

#[test]
fn test_parse_repository() {
    let config = SyncConfig {
        access_token: "token".to_string(),
        repository: "owner/repo".to_string(),
        dry_run: false,
        allow_added_labels: false,
        labels: None,
    };
    assert_eq!(
        config.parse_repository(),
        Ok(("owner".to_string(), "repo".to_string()))
    );

    let bad = SyncConfig {
        repository: "owner/repo/sub".to_string(),
        ..config
    };
    assert_eq!(
        bad.parse_repository(),
        Err(Error::InvalidRepositoryFormat("owner/repo/sub".to_string()))
    );
}

#[test]
fn test_default_labels_content() {
    let labels = default_labels();
    assert_eq!(labels.len(), 6);
    assert_eq!(labels[0].name, "bug");
    assert_eq!(labels[0].color, "d73a4a");
    assert_eq!(
        labels[0].description,
        Some("Something isn't working".to_string())
    );
    assert_eq!(labels[0].aliases, vec!["defect".to_string()]);
    assert!(!labels[0].delete);
    assert_eq!(labels[4].name, "good first issue");
    assert_eq!(labels[5].name, "help wanted");
}

#[test]
fn test_error_constructors() {
    assert_eq!(
        Error::config_validation("a"),
        Error::ConfigValidation("a".to_string())
    );
    assert_eq!(
        Error::label_validation("b"),
        Error::LabelValidation("b".to_string())
    );
    assert_eq!(Error::network("c"), Error::Network("c".to_string()));
    assert_eq!(Error::generic("d"), Error::Generic("d".to_string()));
}
