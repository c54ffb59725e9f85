use stagepal::model::{FilePath, PathPart};
use stagepal::order::{file_path_eq, file_path_le, sort_dedup_paths, sort_paths, str_le};

/// `s` split at `/` into components, as a Unix path parses.
fn fp(s: &str) -> FilePath {
    let mut parts = Vec::new();
    if s.starts_with('/') {
        parts.push(PathPart::RootDir);
    }
    for (i, c) in s.split('/').enumerate() {
        match c {
            "" => {},
            "." if i > 0 => {},
            "." => parts.push(PathPart::CurDir),
            ".." => parts.push(PathPart::ParentDir),
            name => parts.push(PathPart::Normal(name.to_string())),
        }
    }
    FilePath { parts }
}

use stagepal::key::Key;
use stagepal::library::has_audio_ext;
use stagepal::text::{is_blank, str_eq, trim_str, white_space};

#[test]
fn trim_removes_unicode_white_space_at_both_ends() {
    assert_eq!(Key::parse("\t d \r\n"), Some(Key::D));
    assert_eq!(Key::parse("\u{2003}f#\u{205f}"), Some(Key::Fs));
    // zero-width space is not white space
    assert_eq!(Key::parse("\u{200b}f"), None);
    assert!(!is_blank("\u{200b}"));
}

#[test]
fn lowercase_folds_ascii_and_beyond() {
    assert_eq!(Key::parse("A#"), Some(Key::As));
    assert_eq!(Key::parse("GFLAT"), Some(Key::Fs));
    assert!(has_audio_ext("song.AaC"));
    // Kelvin sign lowercases to ASCII k, which is no key spelling
    assert_eq!(Key::parse("\u{212a}"), None);
}

#[test]
fn blank_means_only_whitespace() {
    assert!(is_blank(""));
    assert!(is_blank(" \t\u{a0}"));
    assert!(!is_blank(" a "));
}

#[test]
fn equality_compares_characters() {
    assert!(str_eq("pad", "pad"));
    assert!(!str_eq("pad", "pads"));
    assert!(!str_eq("pad", "paD"));
}

#[test]
fn order_is_by_code_point_with_prefix_first() {
    assert!(str_le("a", "b"));
    assert!(str_le("ab", "abc"));
    assert!(!str_le("abc", "ab"));
    assert!(str_le("B", "a"));
    assert!(str_le("same", "same"));
}

#[test]
fn sort_paths_sorts_and_keeps_repeats() {
    let v = vec![fp("/p/b.mp3"), fp("/p/a.mp3"), fp("/p/b.mp3"), fp("/p/C.mp3")];
    assert_eq!(sort_paths(v), vec![fp("/p/C.mp3"), fp("/p/a.mp3"), fp("/p/b.mp3"), fp("/p/b.mp3")]);
}

#[test]
fn sort_dedup_paths_keeps_each_once() {
    let v = vec![fp("z"), fp("a"), fp("z"), fp("m"), fp("a")];
    assert_eq!(sort_dedup_paths(v), vec![fp("a"), fp("m"), fp("z")]);
    assert_eq!(sort_dedup_paths(Vec::new()), Vec::<FilePath>::new());
}

#[test]
fn paths_order_by_component() {
    // by text "/a-b" would sort first; by component "a" is a prefix of "a-b"
    assert!(file_path_le(&fp("/a/b"), &fp("/a-b")));
    assert!(!file_path_le(&fp("/a-b"), &fp("/a/b")));
    // the root sorts before a plain name, a prefix before the root
    assert!(file_path_le(&fp("/z"), &fp("a")));
    let drive = FilePath { parts: vec![PathPart::Prefix("C:".to_string()), PathPart::RootDir] };
    assert!(file_path_le(&drive, &fp("/")));
    assert!(file_path_le(&fp("/a"), &fp("/a/b")));
    assert!(file_path_eq(&fp("/a/./b//"), &fp("/a/b")));
    assert!(!file_path_eq(&fp("./a"), &fp("a")));
    assert!(!file_path_eq(&fp("/a/../b"), &fp("/b")));
}

#[test]
fn trim_agrees_with_std() {
    for u in 0u32..0x3100 {
        if let Some(c) = char::from_u32(u) {
            assert_eq!(white_space(c), c.is_whitespace(), "U+{u:04X}");
        }
    }
    for s in ["", "  ", " a ", "\u{85}x\u{a0}", "\u{3000}\u{2028}a b\u{2029}\u{202f}", "a\u{200b}", "\t\n\x0b\x0c\r"] {
        assert_eq!(trim_str(s), s.trim());
    }
}
