use tunes::live_coding::{
    is_file_change, is_tunes_manifest, live_session_manifest, rewrite_crate_imports,
    FileEventKind,
};
use tunes::text::{chars_of, contains_text, replace_text};

#[test]
fn imports_are_rewritten() {
    let source = "use crate::prelude::*;\nuse crate::consts::C4;\nfn main() { let x = crate::y; }\n";
    assert_eq!(
        rewrite_crate_imports(source),
        "use tunes::prelude::*;\nuse tunes::consts::C4;\nfn main() { let x = crate::y; }\n"
    );
    let plain = "fn main() {}\n";
    assert_eq!(rewrite_crate_imports(plain), plain);
}

#[test]
fn manifest_names_the_library_path() {
    let m = live_session_manifest("/home/me/tunes");
    assert!(m.starts_with("[package]\nname = \"tunes-live-session\"\n"));
    assert!(m.contains("tunes = { path = \"/home/me/tunes\" }\n"));
    assert!(m.contains("[profile.live]\ninherits = \"release\"\nopt-level = 2\n"));
    assert!(m.ends_with("codegen-units = 256\n"));
}

#[test]
fn library_manifest_is_recognised() {
    assert!(is_tunes_manifest("[package]\nname = \"tunes\"\nversion = \"1.0.0\"\n"));
    assert!(!is_tunes_manifest("[package]\nname = \"tunes-live-session\"\n"));
    assert!(!is_tunes_manifest("[package]\nname = \"other\"\n"));
    assert!(!is_tunes_manifest(""));
}

#[test]
fn only_creation_and_modification_count() {
    assert!(is_file_change(FileEventKind::Create));
    assert!(is_file_change(FileEventKind::Modify));
    assert!(!is_file_change(FileEventKind::Access));
    assert!(!is_file_change(FileEventKind::Remove));
    assert!(!is_file_change(FileEventKind::Any));
    assert!(!is_file_change(FileEventKind::Other));
}

#[test]
fn text_helpers() {
    assert_eq!(chars_of("héllo"), vec!['h', 'é', 'l', 'l', 'o']);
    assert!(contains_text("abcabd", "abd"));
    assert!(!contains_text("abcab", "abd"));
    assert!(contains_text("abc", ""));
    assert_eq!(replace_text("aaaa", "aa", "b"), "bb");
    assert_eq!(replace_text("aaa", "aa", "b"), "ba");
    assert_eq!(replace_text("xyz", "q", "r"), "xyz");
    assert_eq!(replace_text("a.b.c", ".", "::"), "a::b::c");
}
