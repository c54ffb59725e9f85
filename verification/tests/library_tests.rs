use stagepal::key::Key;
use stagepal::library::{
    folder_display_name, has_audio_ext, is_audio_ext, key_from_filename, key_from_tokens, merge_scan, rescan_preserving, scan_preset,
    split_file_name, FileEntry, FolderListing,
};
use stagepal::model::{FilePath, KeyFiles, PathPart, Preset};

/// `s` split at `/` into components, as a Unix path parses.
fn fp(s: &str) -> FilePath {
    let mut parts = Vec::new();
    if s.starts_with('/') {
        parts.push(PathPart::RootDir);
    }
    for (i, c) in s.split('/').enumerate() {
        match c {
            "" => {},
            "." if i > 0 => {},
            "." => parts.push(PathPart::CurDir),
            ".." => parts.push(PathPart::ParentDir),
            name => parts.push(PathPart::Normal(name.to_string())),
        }
    }
    FilePath { parts }
}


fn file(folder: &str, name: &str) -> FileEntry {
    FileEntry { path: fp(&format!("{folder}/{name}")), file_name: name.to_string(), name_is_text: true, is_file: true }
}

fn listing() -> FolderListing {
    let f = "/pads/Warm";
    let mut dir = file(f, "E.mp3");
    dir.is_file = false;
    FolderListing {
        folder_text: f.to_string(),
        folder: fp(f),
        folder_name: Some("Warm".to_string()),
        entries: vec![
            file(f, "Pad C.flac"),
            file(f, "intro.mp3"),
            file(f, "D.WAV"),
            file(f, "notes.txt"),
            file(f, "C.mp3"),
            dir,
            file(f, "01 - Bb.ogg"),
        ],
    }
}

#[test]
fn split_file_name_follows_path_rules() {
    assert_eq!(split_file_name("Pad C.flac"), ("Pad C", Some("flac")));
    assert_eq!(split_file_name("a.b.mp3"), ("a.b", Some("mp3")));
    assert_eq!(split_file_name(".bashrc"), (".bashrc", None));
    assert_eq!(split_file_name("noext"), ("noext", None));
    assert_eq!(split_file_name("trailing."), ("trailing", Some("")));
    assert_eq!(split_file_name(".."), ("..", None));
}

#[test]
fn audio_extension_is_case_insensitive() {
    assert!(has_audio_ext("x.MP3"));
    assert!(has_audio_ext("x.m4a"));
    assert!(has_audio_ext("x.Flac"));
    assert!(!has_audio_ext("x.txt"));
    assert!(!has_audio_ext("mp3"));
    assert!(!has_audio_ext(".wav"));
}

#[test]
fn key_comes_from_first_whole_token() {
    assert_eq!(key_from_filename("C.mp3"), Some(Key::C));
    assert_eq!(key_from_filename("Pad C#.flac"), Some(Key::Cs));
    assert_eq!(key_from_filename("01 - Eb.wav"), Some(Key::Ds));
    assert_eq!(key_from_filename("B-flat pad.mp3"), Some(Key::B));
    assert_eq!(key_from_filename("Bflat pad.mp3"), Some(Key::As));
    assert_eq!(key_from_filename("Bright.wav"), None);
    assert_eq!(key_from_filename("Cmaj.wav"), None);
    assert_eq!(key_from_filename("pad_A.mp3"), Some(Key::A));
}

#[test]
fn tokens_are_read_as_given() {
    assert_eq!(key_from_tokens("01 - eb"), Some(Key::Ds));
    assert_eq!(key_from_tokens("pad_a#_warm"), Some(Key::As));
    assert_eq!(key_from_tokens("bright"), None);
    assert_eq!(key_from_tokens(""), None);
    assert!(is_audio_ext("flac"));
    assert!(!is_audio_ext("FLAC"));
    assert!(!is_audio_ext("mp4"));
}

#[test]
fn display_name_defaults_to_preset() {
    assert_eq!(folder_display_name(Some("Warm")), "Warm");
    assert_eq!(folder_display_name(None), "Preset");
}

#[test]
fn scan_assigns_sole_claimants_and_unmaps_the_rest() {
    let p = scan_preset(Ok(listing()), None).unwrap();
    assert_eq!(p.id, "/pads/Warm");
    assert_eq!(p.folder, fp("/pads/Warm"));
    assert_eq!(p.name, "Warm");
    assert_eq!(p.files.get(Key::D), Some(&fp("/pads/Warm/D.WAV")));
    assert_eq!(p.files.get(Key::As), Some(&fp("/pads/Warm/01 - Bb.ogg")));
    assert_eq!(p.files.get(Key::C), None);
    assert_eq!(p.files.get(Key::E), None);
    assert_eq!(p.unmapped, vec![fp("/pads/Warm/C.mp3"), fp("/pads/Warm/Pad C.flac"), fp("/pads/Warm/intro.mp3")]);
}

#[test]
fn scan_reads_no_key_from_a_name_that_is_not_text() {
    let mut l = listing();
    let mut odd = file("/pads/Warm", "G\u{fffd}.mp3");
    odd.name_is_text = false;
    l.entries.push(odd);
    let p = scan_preset(Ok(l), None).unwrap();
    assert_eq!(p.files.get(Key::G), None);
    assert!(p.unmapped.contains(&fp("/pads/Warm/G\u{fffd}.mp3")));
}

#[test]
fn scan_ignores_listing_order() {
    let forward = scan_preset(Ok(listing()), None).unwrap();
    let mut reversed = listing();
    reversed.entries.reverse();
    let backward = scan_preset(Ok(reversed), None).unwrap();
    assert_eq!(forward, backward);
    let mut rotated = listing();
    rotated.entries.rotate_left(3);
    assert_eq!(scan_preset(Ok(rotated), None).unwrap(), forward);
}

#[test]
fn scan_uses_given_name_and_passes_errors_through() {
    let p = scan_preset(Ok(listing()), Some("Stage".to_string())).unwrap();
    assert_eq!(p.name, "Stage");
    let e = scan_preset(Err("not a folder: /x".to_string()), None).unwrap_err();
    assert_eq!(e, "not a folder: /x");
    let empty = FolderListing { folder_text: "/e".to_string(), folder: fp("/e"), folder_name: None, entries: Vec::new() };
    let p = scan_preset(Ok(empty), None).unwrap();
    assert_eq!(p.name, "Preset");
    assert!(p.unmapped.is_empty());
    assert_eq!(p.files, KeyFiles::new());
}

fn old_preset() -> Preset {
    let mut files = KeyFiles::new();
    files.insert(Key::C, fp("/pads/Warm/Pad C.flac"));
    files.insert(Key::E, fp("/pads/Warm/gone.mp3"));
    files.insert(Key::D, fp("/pads/Warm/intro.mp3"));
    Preset {
        id: "/pads/Warm".to_string(),
        name: "My Warm".to_string(),
        folder: fp("/pads/Warm"),
        files,
        unmapped: vec![fp("/pads/Warm/old.mp3")],
    }
}

#[test]
fn merge_keeps_manual_choices_still_on_disk() {
    let fresh = scan_preset(Ok(listing()), Some("My Warm".to_string())).unwrap();
    let m = merge_scan(&old_preset(), fresh);
    assert_eq!(m.files.get(Key::C), Some(&fp("/pads/Warm/Pad C.flac")));
    // the manual choice for D overrides the fresh auto-mapping
    assert_eq!(m.files.get(Key::D), Some(&fp("/pads/Warm/intro.mp3")));
    assert_eq!(m.files.get(Key::As), Some(&fp("/pads/Warm/01 - Bb.ogg")));
    // a file that left the disk is dropped
    assert_eq!(m.files.get(Key::E), None);
    // D.WAV lost its key to the manual choice, so it is unmapped now
    assert_eq!(m.unmapped, vec![fp("/pads/Warm/C.mp3"), fp("/pads/Warm/D.WAV")]);
    assert_eq!(m.name, "My Warm");
}

#[test]
fn merge_twice_changes_nothing() {
    let fresh = scan_preset(Ok(listing()), None).unwrap();
    let once = merge_scan(&old_preset(), fresh);
    let twice = merge_scan(&old_preset(), once.clone());
    assert_eq!(once, twice);
}

#[test]
fn merge_with_no_manual_choices_is_the_scan() {
    let fresh = scan_preset(Ok(listing()), None).unwrap();
    let none = Preset {
        id: String::new(),
        name: String::new(),
        folder: FilePath::empty(),
        files: KeyFiles::new(),
        unmapped: Vec::new(),
    };
    let m = merge_scan(&none, fresh.clone());
    assert_eq!(m, fresh);
}

#[test]
fn merge_dedups_unmapped() {
    let mut files = KeyFiles::new();
    files.insert(Key::G, fp("/f/x.mp3"));
    let fresh = Preset {
        id: "/f".to_string(),
        name: "f".to_string(),
        folder: fp("/f"),
        files,
        unmapped: vec![fp("/f/x.mp3"), fp("/f/b.mp3"), fp("/f/b.mp3")],
    };
    let mut old_files = KeyFiles::new();
    old_files.insert(Key::A, fp("/f/b.mp3"));
    let old = Preset { id: String::new(), name: String::new(), folder: FilePath::empty(), files: old_files, unmapped: Vec::new() };
    let m = merge_scan(&old, fresh);
    assert_eq!(m.files.get(Key::A), Some(&fp("/f/b.mp3")));
    assert_eq!(m.files.get(Key::G), Some(&fp("/f/x.mp3")));
    assert!(m.unmapped.is_empty());
}

#[test]
fn merge_compares_paths_by_component() {
    // the same file, once written with a redundant `.` and separators
    let odd = FilePath {
        parts: vec![
            PathPart::RootDir,
            PathPart::Normal("f".to_string()),
            PathPart::Normal("b.mp3".to_string()),
        ],
    };
    let mut old_files = KeyFiles::new();
    old_files.insert(Key::E, odd);
    let old = Preset { id: String::new(), name: String::new(), folder: FilePath::empty(), files: old_files, unmapped: Vec::new() };
    let fresh = Preset {
        id: "/f".to_string(),
        name: "f".to_string(),
        folder: fp("/f"),
        files: KeyFiles::new(),
        unmapped: vec![fp("/f//./b.mp3"), fp("./f/b.mp3")],
    };
    let m = merge_scan(&old, fresh);
    assert_eq!(m.files.get(Key::E), Some(&fp("/f/b.mp3")));
    // a relative path is another path
    assert_eq!(m.unmapped, vec![fp("./f/b.mp3")]);
}

#[test]
fn rescan_keeps_old_name_unless_given() {
    let r = rescan_preserving(&old_preset(), Ok(listing()), None).unwrap();
    assert_eq!(r.name, "My Warm");
    assert_eq!(r.files.get(Key::C), Some(&fp("/pads/Warm/Pad C.flac")));
    let r = rescan_preserving(&old_preset(), Ok(listing()), Some("New".to_string())).unwrap();
    assert_eq!(r.name, "New");
    let e = rescan_preserving(&old_preset(), Err("read folder: denied".to_string()), None).unwrap_err();
    assert_eq!(e, "read folder: denied");
}
