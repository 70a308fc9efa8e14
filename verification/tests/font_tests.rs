// Tests for the font record module: the file-extension test.

use fontgrepc::is_font_file;

#[test]
fn test_is_font_file() {
    assert!(is_font_file("test.ttf"));
    assert!(is_font_file("test.otf"));
    assert!(is_font_file("test.ttc"));
    assert!(is_font_file("test.otc"));
    assert!(is_font_file("test.TTF"));

    assert!(!is_font_file("test.txt"));
    assert!(!is_font_file("test"));
}

#[test]
fn test_is_font_file_paths() {
    assert!(is_font_file("/some/dir/test.otf"));
    assert!(is_font_file("/some/dir.ttf/nested.TtC"));
    assert!(!is_font_file("/some/dir.ttf/nested"));
    assert!(!is_font_file("/some/dir/.ttf"));
    assert!(!is_font_file("archive.ttf.gz"));
    assert!(!is_font_file(""));
}
