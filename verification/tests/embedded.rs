//! The embedded-language formatter seam is implementable by users.

use snow_formatter::EmbeddedFormatter;

struct TrimJs;

impl EmbeddedFormatter for TrimJs {
    fn format(&self, language: &str, body: &str) -> Option<String> {
        if language == "javascript" {
            Some(body.trim().to_string())
        } else {
            None
        }
    }
}

#[test]
fn embedded_formatter_chooses_its_languages() {
    let f = TrimJs;
    assert_eq!(f.format("javascript", "  return A + B;  "), Some("return A + B;".to_string()));
    assert_eq!(f.format("python", "x"), None);
}
