use std::collections::BTreeSet;

use terminal_svg::font::{coverage, woff2_base64, FontError};

#[test]
fn data_that_is_not_a_font_is_refused() {
    let chars: BTreeSet<char> = "hello".chars().collect();
    assert!(matches!(woff2_base64(b"not a font", &chars), Err(FontError::Parse)));
    assert!(matches!(coverage(b"not a font"), Err(FontError::Parse)));
}
