use gh_labeler::config::LabelConfig;
use gh_labeler::github::{encode_path_segment, GitHubLabel};

#[test]
fn test_encode_path_segment() {
    // Basic ASCII characters
    assert_eq!(encode_path_segment("bug"), "bug");
    assert_eq!(encode_path_segment("feature-request"), "feature-request");

    // Spaces and special characters
    assert_eq!(
        encode_path_segment("good first issue"),
        "good%20first%20issue"
    );
    assert_eq!(encode_path_segment("help wanted"), "help%20wanted");

    // Japanese characters (UTF-8)
    assert_eq!(encode_path_segment("バグ"), "%E3%83%90%E3%82%B0");
    assert_eq!(
        encode_path_segment("機能追加"),
        "%E6%A9%9F%E8%83%BD%E8%BF%BD%E5%8A%A0"
    );

    // Mixed ASCII and Japanese
    assert_eq!(encode_path_segment("bug バグ"), "bug%20%E3%83%90%E3%82%B0");

    // RFC 3986 unreserved characters should remain unchanged
    assert_eq!(
        encode_path_segment("test-label_v1.2~alpha"),
        "test-label_v1.2~alpha"
    );

    // Special characters that need encoding
    assert_eq!(encode_path_segment("test/label"), "test%2Flabel");
    assert_eq!(encode_path_segment("test@label"), "test%40label");
}

#[test]
fn test_github_label_conversion() {
    let github_label = GitHubLabel {
        id: 1,
        name: "bug".to_string(),
        color: "d73a4a".to_string(),
        description: Some("Something isn't working".to_string()),
        default: true,
        url: "https://api.github.com/repos/owner/repo/labels/bug".to_string(),
    };

    let label_config: LabelConfig = github_label.into();
    assert_eq!(label_config.name, "bug");
    assert_eq!(label_config.color, "d73a4a");
    assert_eq!(
        label_config.description,
        Some("Something isn't working".to_string())
    );
}
