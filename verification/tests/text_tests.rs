use cleepboard::path::{file_name, join, same_path};
use cleepboard::text::{
    chars_of, contains_chars, dec_string, hex_string, is_blank, same_text, split_chars, string_of,
    trim_str,
};

#[test]
fn trimming_and_blank() {
    assert_eq!(string_of(&trim_str("  a b \n")), "a b");
    assert_eq!(string_of(&trim_str("\u{2003}x\u{3000}")), "x");
    assert!(is_blank(" \t\r\n\u{85}"));
    assert!(!is_blank(" x "));
}

#[test]
fn numbers() {
    assert_eq!(hex_string(0), "0");
    assert_eq!(hex_string(0xcafe), "cafe");
    assert_eq!(dec_string(0), "0");
    assert_eq!(dec_string(1024), "1024");
}

#[test]
fn splitting() {
    let parts = split_chars(&chars_of("a,,b,"), ',');
    let parts: Vec<String> = parts.iter().map(|p| string_of(p)).collect();
    assert_eq!(parts, vec!["a", "", "b", ""]);
}

#[test]
fn search_and_compare() {
    assert!(contains_chars(&chars_of("img_1_abc.png"), &chars_of("abc")));
    assert!(!contains_chars(&chars_of("img_1_abc.png"), &chars_of("abd")));
    assert!(contains_chars(&chars_of("x"), &chars_of("")));
    assert!(same_text("ä", "ä"));
    assert!(!same_text("a", "ab"));
}

#[test]
fn paths() {
    assert_eq!(join("/a", "b"), "/a/b");
    assert_eq!(join("/a/", "b"), "/a/b");
    assert_eq!(join("", "b"), "b");
    assert_eq!(join("/a", "/b"), "/b");
    assert_eq!(file_name("/a/b.png"), Some("b.png".to_string()));
    assert_eq!(file_name("/a/b/"), Some("b".to_string()));
    assert_eq!(file_name("/a/b/."), Some("b".to_string()));
    assert_eq!(file_name("/a/.."), None);
    assert_eq!(file_name("/"), None);
    assert_eq!(file_name(""), None);
    assert!(same_path("./a", "./a/"));
    assert!(!same_path("./a", "a"));
    assert!(same_path("/", "//"));
}
