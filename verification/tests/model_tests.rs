use stagepal::key::Key;
use stagepal::model::{
    FilePath, PathPart,
    default_host, ClickSettings, CueNow, CueSettings, DeviceRoute, DeviceRoutes, KeyFiles, Preset, Settings,
    BUILTIN_SYNTH_ID,
};

/// `s` split at `/` into components, as a Unix path parses.
fn fp(s: &str) -> FilePath {
    let mut parts = Vec::new();
    if s.starts_with('/') {
        parts.push(PathPart::RootDir);
    }
    for (i, c) in s.split('/').enumerate() {
        match c {
            "" => {},
            "." if i > 0 => {},
            "." => parts.push(PathPart::CurDir),
            ".." => parts.push(PathPart::ParentDir),
            name => parts.push(PathPart::Normal(name.to_string())),
        }
    }
    FilePath { parts }
}


#[test]
fn builtin_synth_is_empty_and_recognised() {
    let p = Preset::builtin_synth();
    assert_eq!(p.id, BUILTIN_SYNTH_ID);
    assert_eq!(p.name, "Generated Pads");
    assert_eq!(p.folder, FilePath::empty());
    assert_eq!(p.files, KeyFiles::new());
    assert!(p.unmapped.is_empty());
    assert!(p.is_builtin_synth());
    let mut other = p.clone();
    other.id = "/pads".to_string();
    assert!(!other.is_builtin_synth());
}

#[test]
fn key_files_read_back_what_was_written() {
    let mut f = KeyFiles::new();
    assert_eq!(f.get(Key::F), None);
    f.insert(Key::F, fp("/a.mp3"));
    f.insert(Key::F, fp("/b.mp3"));
    assert_eq!(f.get(Key::F), Some(&fp("/b.mp3")));
    assert_eq!(f.get(Key::Fs), None);
    assert!(f.has_file(&fp("/b.mp3")));
    assert!(!f.has_file(&fp("/a.mp3")));
    assert!(!f.has_file(&fp("b.mp3")));
}

fn folder_preset(id: &str) -> Preset {
    Preset { id: id.to_string(), name: id.to_string(), folder: fp(id), files: KeyFiles::new(), unmapped: Vec::new() }
}

#[test]
fn defaults_match_first_run() {
    let s = Settings::default();
    assert_eq!(s.output_host, "WASAPI");
    assert_eq!(default_host(), "WASAPI");
    assert_eq!(s.output_device, None);
    assert_eq!((s.channel_left, s.channel_right), (0, 1));
    assert_eq!(s.crossfade_ms, 2000);
    assert_eq!(s.server_port, 7777);
    assert!(s.presets.is_empty());
    assert_eq!(s.active_preset, None);
    let c = ClickSettings::default();
    assert_eq!((c.beats_per_bar, c.accent, c.channel_left, c.channel_right), (4, true, 2, 3));
    let q = CueSettings::default();
    assert_eq!(q.voice, None);
    assert_eq!(q.rate, -1);
    assert_eq!((q.channel_left, q.channel_right), (4, 5));
    assert!(!q.duck_click && !q.speak_key_on_change && q.quick.is_empty());
    let n = CueNow::default();
    assert!(!n.speaking && n.label.is_none());
}

#[test]
fn ensure_builtin_synth_prepends_once_and_activates() {
    let mut s = Settings::default();
    s.presets.push(folder_preset("/pads/a"));
    s.ensure_builtin_synth();
    assert_eq!(s.presets.len(), 2);
    assert!(s.presets[0].is_builtin_synth());
    assert_eq!(s.presets[1].id, "/pads/a");
    assert_eq!(s.active_preset.as_deref(), Some(BUILTIN_SYNTH_ID));
    s.ensure_builtin_synth();
    assert_eq!(s.presets.len(), 2);
    assert_eq!(s.active_preset.as_deref(), Some(BUILTIN_SYNTH_ID));
}

#[test]
fn ensure_builtin_synth_moves_existing_bank_to_the_top() {
    let mut s = Settings::default();
    s.presets.push(folder_preset("/pads/a"));
    s.presets.push(folder_preset("/pads/b"));
    let mut builtin = Preset::builtin_synth();
    builtin.name = "Renamed Pads".to_string();
    s.presets.push(builtin);
    s.presets.push(folder_preset("/pads/c"));
    s.active_preset = Some("/pads/a".to_string());
    s.ensure_builtin_synth();
    let ids: Vec<&str> = s.presets.iter().map(|p| p.id.as_str()).collect();
    assert_eq!(ids, vec![BUILTIN_SYNTH_ID, "/pads/a", "/pads/b", "/pads/c"]);
    // the existing bank is moved, not replaced
    assert_eq!(s.presets[0].name, "Renamed Pads");
    assert_eq!(s.active_preset.as_deref(), Some("/pads/a"));
    s.ensure_builtin_synth();
    let again: Vec<&str> = s.presets.iter().map(|p| p.id.as_str()).collect();
    assert_eq!(again, vec![BUILTIN_SYNTH_ID, "/pads/a", "/pads/b", "/pads/c"]);
}

#[test]
fn ensure_builtin_synth_moves_only_the_first_bank() {
    let mut s = Settings::default();
    s.presets.push(folder_preset("/pads/a"));
    let mut first = Preset::builtin_synth();
    first.name = "first".to_string();
    s.presets.push(first);
    let mut second = Preset::builtin_synth();
    second.name = "second".to_string();
    s.presets.push(second);
    s.ensure_builtin_synth();
    let names: Vec<&str> = s.presets.iter().map(|p| p.name.as_str()).collect();
    assert_eq!(names, vec!["first", "/pads/a", "second"]);
}

#[test]
fn active_preset_finds_the_first_match() {
    let mut s = Settings::default();
    assert!(s.active_preset().is_none());
    s.presets.push(folder_preset("/a"));
    let mut second = folder_preset("/b");
    second.name = "first b".to_string();
    s.presets.push(second);
    let mut third = folder_preset("/b");
    third.name = "second b".to_string();
    s.presets.push(third);
    s.active_preset = Some("/b".to_string());
    assert_eq!(s.active_preset().map(|p| p.name.as_str()), Some("first b"));
    s.active_preset = Some("/missing".to_string());
    assert!(s.active_preset().is_none());
}

#[test]
fn device_key_joins_host_and_device() {
    assert_eq!(Settings::device_key("WASAPI", "Speakers"), "WASAPI::Speakers");
    assert_eq!(Settings::device_key("", ""), "::");
}

#[test]
fn remember_current_route_stores_under_the_device_key() {
    let mut s = Settings::default();
    s.channel_left = 6;
    s.channel_right = 7;
    s.remember_current_route();
    assert_eq!(s.device_routes.get("WASAPI::"), None);
    assert!(s.device_routes.to_vec().is_empty());

    s.output_device = Some("Focusrite".to_string());
    s.remember_current_route();
    let expected = DeviceRoute { pad_left: 6, pad_right: 7, click_left: 2, click_right: 3, cue_left: 4, cue_right: 5 };
    assert_eq!(s.current_route(), expected);
    assert_eq!(s.device_routes.get("WASAPI::Focusrite"), Some(expected));

    s.click.channel_left = 8;
    s.remember_current_route();
    let got = s.device_routes.get("WASAPI::Focusrite").unwrap();
    assert_eq!(got.click_left, 8);
    assert_eq!(s.device_routes.to_vec().len(), 1);
}

#[test]
fn device_routes_keep_one_entry_per_key() {
    let mut r = DeviceRoutes::new();
    let a = DeviceRoute { pad_left: 0, pad_right: 1, click_left: 2, click_right: 3, cue_left: 4, cue_right: 5 };
    let b = DeviceRoute { pad_left: 9, ..a };
    r.insert("h::x".to_string(), a);
    r.insert("h::y".to_string(), a);
    r.insert("h::x".to_string(), b);
    assert_eq!(r.get("h::x"), Some(b));
    assert_eq!(r.get("h::y"), Some(a));
    assert_eq!(r.get("h::z"), None);
    let mut all = r.to_vec();
    all.sort_by(|p, q| p.0.cmp(&q.0));
    assert_eq!(all, vec![("h::x".to_string(), b), ("h::y".to_string(), a)]);
}
