use clipboard_manager::classify::classify_content;
use clipboard_manager::models::{AppConfig, DataType};
use clipboard_manager::models::{
    default_data_type, default_language, default_sensitive_apps, default_theme,
};
use clipboard_manager::ocr::recognize_text;

#[test]
fn classifies_urls() {
    assert_eq!(classify_content("https://example.com/path"), DataType::Url);
    assert_eq!(classify_content("http://example.org"), DataType::Url);
    assert_eq!(classify_content("www.example.net/x"), DataType::Url);
    assert_eq!(classify_content("not a url http://inside"), DataType::Text);
}

#[test]
fn classifies_emails() {
    assert_eq!(classify_content("user.name+tag@example.co"), DataType::Email);
    assert_eq!(classify_content("user@localhost"), DataType::Text);
}

#[test]
fn classifies_phone_numbers() {
    assert_eq!(classify_content("555-123-4567"), DataType::Phone);
    assert_eq!(classify_content("+1 (555) 123 4567"), DataType::Phone);
    assert_eq!(classify_content("12345"), DataType::Text);
}

#[test]
fn classifies_code() {
    let snippet = "function add(a, b) {\n    return a + b;\n}";
    assert_eq!(classify_content(snippet), DataType::Code);
    assert_eq!(classify_content("just plain prose"), DataType::Text);
    // a single indicator alone does not reach the threshold
    assert_eq!(classify_content("let us meet tomorrow"), DataType::Text);
}

#[test]
fn precedence_url_beats_code() {
    // matches the URL pattern even though it contains "::"
    assert_eq!(classify_content("https://example.com/a::b"), DataType::Url);
}

#[test]
fn defaults() {
    assert_eq!(default_data_type(), DataType::Text);
    assert_eq!(default_language(), "auto");
    assert_eq!(default_theme(), "auto");
    let apps = default_sensitive_apps();
    assert_eq!(apps.len(), 7);
    assert_eq!(apps[0], "1Password");
    assert_eq!(apps[6], "Dashlane");

    let cfg = AppConfig::default();
    assert_eq!(cfg.shortcut, "CommandOrControl+Shift+V");
    assert_eq!(cfg.max_history_size, 20);
    assert_eq!(cfg.language, "auto");
    assert_eq!(cfg.theme, "auto");
    assert_eq!(cfg.sensitive_apps.len(), 7);
    assert!(!cfg.compact_mode);
    assert!(!cfg.clear_pinned_on_clear);
    assert!(!cfg.clear_collected_on_clear);
}

#[test]
fn ocr_is_unavailable_here() {
    let r = recognize_text("/tmp/whatever.png");
    assert_eq!(r, Err("OCR is only supported on macOS and Windows".to_string()));
}
