use stagepal::key::Key;

#[test]
fn display_names_use_sharps() {
    let names: Vec<&str> = Key::all().iter().map(|k| k.as_str()).collect();
    assert_eq!(names, vec!["C", "C#", "D", "D#", "E", "F", "F#", "G", "G#", "A", "A#", "B"]);
}

#[test]
fn spoken_names_spell_out_sharps() {
    assert_eq!(Key::Cs.spoken(), "C sharp");
    assert_eq!(Key::As.spoken(), "A sharp");
    assert_eq!(Key::G.spoken(), "G");
}

#[test]
fn aliases_list_sharps_and_flats() {
    assert_eq!(Key::Ds.aliases(), &["d#", "ds", "dsharp", "eb", "eflat"]);
    assert_eq!(Key::B.aliases(), &["b"]);
}

#[test]
fn index_and_from_index_agree_with_all() {
    for (i, k) in Key::all().iter().enumerate() {
        assert_eq!(k.index(), i);
        assert_eq!(Key::from_index(i), *k);
    }
}

#[test]
fn parse_accepts_every_display_name() {
    for k in Key::all() {
        assert_eq!(Key::parse(k.as_str()), Some(k));
    }
}

#[test]
fn parse_accepts_every_alias_and_nothing_is_shared() {
    for k in Key::all() {
        for a in k.aliases() {
            assert_eq!(Key::parse(a), Some(k));
            assert_eq!(Key::from_alias(a), Some(k));
        }
    }
}

#[test]
fn parse_trims_and_ignores_case() {
    assert_eq!(Key::parse("  Db \n"), Some(Key::Cs));
    assert_eq!(Key::parse("BFLAT"), Some(Key::As));
    assert_eq!(Key::parse("\u{3000}g#\u{a0}"), Some(Key::Gs));
}

#[test]
fn parse_rejects_unknown_spellings() {
    assert_eq!(Key::parse("H"), None);
    assert_eq!(Key::parse("C sharp"), None);
    assert_eq!(Key::parse(""), None);
    assert_eq!(Key::parse("c##"), None);
}

#[test]
fn from_alias_does_not_fold_case() {
    assert_eq!(Key::from_alias("Eb"), None);
    assert_eq!(Key::from_alias("eb"), Some(Key::Ds));
}
