use asciibear::color::{color_text_readable, get_color_by_name};
use asciibear::text::{trim, white_space};

#[test]
fn trims_unicode_white_space() {
    assert_eq!(trim("  a b \u{3000}\n"), "a b");
    assert_eq!(trim("\u{a0}x\u{2028}"), "x");
    assert_eq!(trim(" \t "), "");
    assert_eq!(trim(""), "");
    assert_eq!(trim("\u{200b}x"), "\u{200b}x");
    for s in ["  a ", "\u{85}b\u{85}", "c", " ", "\u{1680}\u{1680}d e\u{205f}"] {
        assert_eq!(trim(s), s.trim());
        assert_eq!(trim(trim(s)), trim(s));
    }
}

#[test]
fn white_space_class() {
    for c in ['\t', '\n', '\u{b}', '\u{c}', '\r', ' ', '\u{85}', '\u{a0}', '\u{1680}', '\u{2000}',
        '\u{200a}', '\u{2028}', '\u{2029}', '\u{202f}', '\u{205f}', '\u{3000}']
    {
        assert!(white_space(c));
        assert!(c.is_whitespace());
    }
    for c in ['a', '\u{1c}', '\u{200b}', '\u{feff}', '_', '\u{180e}'] {
        assert!(!white_space(c));
        assert_eq!(white_space(c), c.is_whitespace());
    }
}

#[test]
fn colour_lookup() {
    assert_eq!(get_color_by_name("  Indigo "), Some([75, 0, 130]));
    assert_eq!(get_color_by_name("inDIGO"), Some([75, 0, 130]));
    assert_eq!(get_color_by_name("red"), Some([255, 0, 0]));
    assert_eq!(get_color_by_name("   "), None);
    assert_eq!(get_color_by_name(""), None);
    assert_eq!(get_color_by_name("not a colour"), None);
    assert!(color_text_readable("  red"));
    assert!(color_text_readable(""));
    assert!(color_text_readable(" r\u{e9}d"));
    assert!(!color_text_readable(" \u{e9}"));
}
