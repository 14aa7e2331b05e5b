use rowly::process::contains_japanese;

#[test]
fn japanese_character_detection_covers_common_scripts() {
    for value in ["ひらがな", "カタカナ", "ﾊﾝｶｸ", "日本語", "山田 Taro", "々"] {
        assert!(contains_japanese(value), "{value}");
    }
    for value in ["Alice", "123", "", "hello-world"] {
        assert!(!contains_japanese(value), "{value}");
    }
}
