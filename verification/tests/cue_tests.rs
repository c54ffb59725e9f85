use stagepal::clock::{now_unix_ms, unix_ms};
use stagepal::cues::{ps_escape, SapiSynth};
use stagepal::pad::{ring_capacity, MIN_RING_SAMPLES};

fn script(rate: &str, voice_line: &str, out: &str) -> String {
    format!(
        "Add-Type -AssemblyName System.Speech | Out-Null; \
        $s = New-Object System.Speech.Synthesis.SpeechSynthesizer; \
        $s.Rate = {rate}; \
        {voice_line} \
        $s.SetOutputToWaveFile('{out}'); \
        $reader = New-Object System.IO.StreamReader([Console]::OpenStandardInput(), [System.Text.Encoding]::UTF8); \
        $text = $reader.ReadToEnd(); \
        $s.Speak($text); \
        $s.Dispose()"
    )
}

#[test]
fn escape_doubles_apostrophes() {
    assert_eq!(ps_escape("it's"), "it''s");
    assert_eq!(ps_escape("''"), "''''");
    assert_eq!(ps_escape("plain"), "plain");
    assert_eq!(ps_escape(""), "");
}

#[test]
fn blank_text_is_refused() {
    let s = SapiSynth::new();
    assert_eq!(s.speak_script("  \n", None, 0, "out.wav"), Err("nothing to speak".to_string()));
    assert_eq!(s.speak_script("", Some("Zira"), 0, "out.wav"), Err("nothing to speak".to_string()));
}

#[test]
fn script_has_rate_voice_and_escaped_path() {
    let s = SapiSynth::default();
    let got = s.speak_script("Key of G", Some("Microsoft Zira"), -1, "C:\\tmp\\bob's.wav").unwrap();
    assert_eq!(got, script("-1", "$s.SelectVoice('Microsoft Zira');", "C:\\tmp\\bob''s.wav"));
}

#[test]
fn rate_is_clamped_and_blank_voice_ignored() {
    let s = SapiSynth::new();
    assert_eq!(s.speak_script("go", None, 42, "o.wav").unwrap(), script("10", "", "o.wav"));
    assert_eq!(s.speak_script("go", Some("  "), -99, "o.wav").unwrap(), script("-10", "", "o.wav"));
    assert_eq!(s.speak_script("go", None, 0, "o.wav").unwrap(), script("0", "", "o.wav"));
    assert_eq!(s.speak_script("go", Some("O'Neil"), 7, "o.wav").unwrap(), script("7", "$s.SelectVoice('O''Neil');", "o.wav"));
}

#[test]
fn unix_ms_truncates_and_defaults_to_zero() {
    assert_eq!(unix_ms(None), 0);
    assert_eq!(unix_ms(Some(1_725_029_869_000)), 1_725_029_869_000);
    assert_eq!(unix_ms(Some(u64::MAX as u128 + 2)), 1);
    assert!(now_unix_ms() > 1_600_000_000_000);
}

#[test]
fn pad_ring_holds_two_seconds_of_stereo() {
    assert_eq!(ring_capacity(48_000), 192_000);
    assert_eq!(ring_capacity(44_100), 176_400);
    assert_eq!(ring_capacity(1_000), MIN_RING_SAMPLES);
    assert_eq!(ring_capacity(4_096), 16_384);
}
