use shellm::i18n::{t, Language, MessageKey};

#[test]
fn test_language_from_str() {
    assert!(matches!(Language::from_str("zh-CN"), Language::Zh));
    assert!(matches!(Language::from_str("zh_CN"), Language::Zh));
    assert!(matches!(Language::from_str("zh"), Language::Zh));
    assert!(matches!(Language::from_str("ZH-CN"), Language::Zh));
    assert!(matches!(Language::from_str("en-US"), Language::En));
    assert!(matches!(Language::from_str("en"), Language::En));
    assert!(matches!(Language::from_str("EN"), Language::En));
    assert!(matches!(Language::from_str("unknown"), Language::En));
}

#[test]
fn test_translation() {
    assert_eq!(t(&Language::En, MessageKey::PromptUser), "you> ");
    assert_eq!(t(&Language::Zh, MessageKey::PromptUser), "你> ");
    assert_eq!(t(&Language::Zh, MessageKey::ThinkingProcess), "[思考中] ");
}
