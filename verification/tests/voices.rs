//! The voice registry and the checks on reference recordings.

use spqx::cli::CommonOpts;
use spqx::config::Config;
use spqx::engine::{reference_from_registry, registry_voice, RegistryVoice, Transcript};
use spqx::hygiene::{hygiene_warnings, HUSH_LEVEL, SPIKE_LEVEL};
use spqx::path::UnixPath;
use spqx::paths::Environment;
use spqx::sample::{Double, Sample};
use spqx::voices::{
    add_voice, added_lines, check_exists, confirms, is_listed, list, preset_speakers,
    recording_path, removal_prompt, removed_line, run, show, sort_voices, voice_files, AddArgs,
    AddError, VoiceEntry, VoiceManifest, VoicesAction, VoicesArgs, VoicesCommand,
};

fn path(s: &str) -> UnixPath {
    UnixPath::from_text(s)
}

fn env(home: Option<&str>) -> Environment {
    Environment {
        home: home.map(path),
        xdg_config_home: None,
        xdg_data_home: None,
        xdg_state_home: None,
        xdg_cache_home: None,
        appdata: None,
        localappdata: None,
        hf_home: None,
        is_windows: false,
    }
}

fn common() -> CommonOpts {
    CommonOpts {
        config: None,
        json: false,
        quiet: false,
        verbose: 0,
        debug: false,
        no_color: false,
        yes: false,
    }
}

fn add_args() -> AddArgs {
    AddArgs {
        name: "bob".to_string(),
        ref_audio: path("/rec.wav"),
        ref_text: None,
        ref_text_file: None,
        language: None,
        note: None,
        force: false,
    }
}

fn bob() -> RegistryVoice {
    registry_voice(&path("/v"), "bob")
}

fn entry(name: &str, language: &str, seconds: f64) -> VoiceEntry {
    let mut manifest = VoiceManifest::default();
    manifest.language = language.to_string();
    manifest.reference_seconds = Double { bits: seconds.to_bits() };
    VoiceEntry { name: name.to_string(), manifest, seconds_shown: format!("{seconds:.1}") }
}

fn held(samples: &[f32]) -> Vec<Sample> {
    samples.iter().map(|s| Sample { bits: s.to_bits() }).collect()
}

/// The warnings in floating point.
fn float_warnings(samples: &[f32], sr: u32) -> Vec<String> {
    let seconds = samples.len() as f64 / sr as f64;
    let mut warnings = Vec::new();
    if seconds < 6.0 {
        warnings.push(format!(
            "reference is {seconds:.1}s; 6-12s clones more reliably (short refs weaken cloning)"
        ));
    } else if seconds > 12.0 {
        warnings.push(format!(
            "reference is {seconds:.1}s; >12s can degrade first-word reliability — consider trimming to a sentence boundary"
        ));
    }
    let block = (sr as usize / 100).max(1);
    let mut prev_quiet = true;
    for chunk in samples.chunks(block) {
        let peak = chunk.iter().fold(0f32, |a, s| a.max(s.abs()));
        let mut v: Vec<f32> = chunk.iter().map(|s| s.abs()).collect();
        v.sort_by(|a, b| a.partial_cmp(b).unwrap());
        let median = v[v.len() / 2];
        if peak > 0.5 && median < 0.02 && prev_quiet {
            warnings.push(
                "possible click artifact (loud spike over near-silence) — scan the reference"
                    .to_string(),
            );
            break;
        }
        prev_quiet = peak < 0.05;
    }
    warnings
}

#[test]
fn commands_name_their_voice() {
    let config = Config::default();
    let command = |command: VoicesCommand| run(VoicesArgs { command }, &config, &env(Some("/h"))).unwrap();
    match command(VoicesCommand::List) {
        VoicesAction::List { dir } => assert_eq!(dir.display(), "/h/.local/share/spqx/voices"),
        other => panic!("{other:?}"),
    }
    match command(VoicesCommand::Add(add_args())) {
        VoicesAction::Add { voice, add } => {
            assert_eq!(voice.dir.display(), "/h/.local/share/spqx/voices/bob");
            assert_eq!(add.name, "bob");
        }
        other => panic!("{other:?}"),
    }
    match command(VoicesCommand::Show { name: "x".to_string() }) {
        VoicesAction::Show { voice } => assert_eq!(voice.name, "x"),
        other => panic!("{other:?}"),
    }
    match command(VoicesCommand::Rm { name: "y".to_string() }) {
        VoicesAction::Remove { voice } => assert_eq!(voice.name, "y"),
        other => panic!("{other:?}"),
    }
    let error = run(VoicesArgs { command: VoicesCommand::List }, &config, &env(None)).unwrap_err();
    assert_eq!(error.message(), "unable to determine base directory (XDG_DATA_HOME)");
}

#[test]
fn voices_are_listed_by_name() {
    let names = ["b", "a", "ü", "Z", "", "ab", "a"];
    let voices: Vec<VoiceEntry> = names.iter().map(|n| entry(n, "auto", 0.0)).collect();
    let sorted: Vec<String> = sort_voices(voices).into_iter().map(|v| v.name).collect();
    let mut expected: Vec<String> = names.iter().map(|n| n.to_string()).collect();
    expected.sort();
    assert_eq!(sorted, expected);
}

#[test]
fn voices_of_one_name_keep_their_order() {
    let voices = vec![entry("a", "x", 0.0), entry("0", "z", 0.0), entry("a", "y", 0.0)];
    let sorted: Vec<String> = sort_voices(voices).into_iter().map(|v| v.manifest.language).collect();
    assert_eq!(sorted, vec!["z", "x", "y"]);
}

#[test]
fn only_whole_voices_with_a_name_are_listed() {
    assert!(is_listed(true, true, &path("a")));
    assert!(!is_listed(false, true, &path("a")));
    assert!(!is_listed(true, false, &path("a")));
    assert!(!is_listed(true, true, &UnixPath { bytes: vec![0xff] }));
}

#[test]
fn listings_name_language_and_length() {
    let lines = list(&vec![entry("a", "auto", 0.0), entry("b", "german", 7.25), entry("c", "auto", 8.0)]);
    assert_eq!(
        lines,
        vec![
            "Registry voices (3):",
            "  a",
            "  b  [german]  7.2s",
            "  c  8.0s",
            "",
            "Preset speakers (need the CustomVoice model): serena, vivian, uncle_fu, ryan, aiden, ono_anna, sohee, eric, dylan",
        ]
    );
    let lines = list(&Vec::new());
    assert_eq!(lines[0], "No registry voices yet. Add one:");
    assert_eq!(lines[1], "  spqx voices add <name> --ref-audio <wav> --ref-text-file <txt>");
    assert_eq!(lines.len(), 4);
    assert_eq!(preset_speakers().len(), 9);
}

#[test]
fn existing_voices_are_not_overwritten_unless_forced() {
    let mut add = add_args();
    add.ref_text = Some(" t ".to_string());
    let error = add_voice(&bob(), &add, true).unwrap_err();
    assert_eq!(error.message(), "voice 'bob' already exists (/v/bob); pass --force to overwrite");
    add.force = true;
    assert!(matches!(add_voice(&bob(), &add, true), Ok(Transcript::Text(t)) if t == " t "));
    add.ref_text = None;
    add.ref_text_file = Some(path("/t.txt"));
    assert!(matches!(add_voice(&bob(), &add, false), Ok(Transcript::File(p)) if p.display() == "/t.txt"));
    add.ref_text_file = None;
    let error = add_voice(&bob(), &add, false).unwrap_err();
    assert_eq!(error.message(), "provide --ref-text or --ref-text-file");
}

#[test]
fn recordings_need_a_transcript_and_a_readable_path() {
    let mut add = add_args();
    assert_eq!(recording_path(&add, "t").unwrap(), "/rec.wav");
    let error = recording_path(&add, "").unwrap_err();
    assert!(matches!(error, AddError::EmptyTranscript));
    assert_eq!(error.message(), "reference transcript is empty");
    add.ref_audio = UnixPath { bytes: vec![0xff] };
    assert!(matches!(recording_path(&add, ""), Err(AddError::EmptyTranscript)));
    assert_eq!(recording_path(&add, "t").unwrap_err().message(), "ref path not UTF-8");
}

#[test]
fn added_voices_are_read_back() {
    let mut add = add_args();
    let files = voice_files(&bob(), &add, " words", Double { bits: 7.5f64.to_bits() });
    assert_eq!(files.transcript, " words\n");
    assert_eq!(files.manifest_path.display(), "/v/bob/voice.toml");
    assert_eq!(files.manifest.display_name, "bob");
    assert_eq!((files.manifest.language.as_str(), files.manifest.note.as_str()), ("auto", ""));
    assert_eq!(files.manifest.source, "/rec.wav");
    assert_eq!(files.manifest.reference_seconds.bits, 7.5f64.to_bits());
    assert_eq!(reference_from_registry(&bob(), &files.transcript).text, "words");
    add.language = Some("de".to_string());
    add.note = Some("n".to_string());
    let files = voice_files(&bob(), &add, "w", Double { bits: 0 });
    assert_eq!((files.manifest.language.as_str(), files.manifest.note.as_str()), ("de", "n"));
    let (added, hint) = added_lines(&bob());
    assert_eq!(added, "Added voice 'bob' (/v/bob)");
    assert_eq!(hint, "Try it: spqx say \"Hello.\" --voice bob");
}

#[test]
fn voices_are_shown_line_by_line() {
    let mut manifest = VoiceManifest::default();
    assert_eq!(
        show(&bob(), &manifest, "0.0"),
        vec!["voice: bob", "path: /v/bob", "language: auto", "reference: 0.0s"]
    );
    manifest.source = "/rec.wav".to_string();
    assert_eq!(show(&bob(), &manifest, "0.0")[4], "source: /rec.wav");
    manifest.note = "n".to_string();
    assert_eq!(show(&bob(), &manifest, "0.0")[4], "note: n");
    assert_eq!(show(&bob(), &manifest, "0.0").len(), 6);
    assert!(check_exists(&bob(), true).is_ok());
    assert_eq!(check_exists(&bob(), false).unwrap_err(), "voice 'bob' not found (/v/bob)");
}

#[test]
fn removal_is_confirmed() {
    let mut opts = common();
    assert_eq!(removal_prompt(&bob(), &opts).unwrap(), "Remove voice 'bob' at /v/bob? [y/N] ");
    opts.json = true;
    assert_eq!(removal_prompt(&bob(), &opts), None);
    opts.json = false;
    opts.yes = true;
    assert_eq!(removal_prompt(&bob(), &opts), None);
    for answer in ["y\n", " Y ", "yes"] {
        assert!(confirms(answer));
    }
    for answer in ["", "n", "YES", "Yes", "yy"] {
        assert!(!confirms(answer));
    }
    assert_eq!(removed_line(&bob(), &opts).unwrap(), "removed voice 'bob'");
    opts.quiet = true;
    assert_eq!(removed_line(&bob(), &opts), None);
}

#[test]
fn spike_levels_are_the_bits_of_the_thresholds() {
    assert_eq!(SPIKE_LEVEL, 0.5f32.to_bits());
    assert_eq!(HUSH_LEVEL, 0.05f32.to_bits());
}

#[test]
fn short_and_long_references_draw_warnings() {
    let sr = 1000u32;
    for n in [0usize, 1, 5950, 5999, 6000, 9000, 12000, 12001, 12345] {
        let samples = vec![0.3f32; n];
        assert_eq!(hygiene_warnings(&held(&samples), sr), float_warnings(&samples, sr));
    }
    assert_eq!(hygiene_warnings(&held(&[0.1; 3]), 0), float_warnings(&[0.1; 3], 0));
    assert_eq!(hygiene_warnings(&Vec::new(), 0), float_warnings(&[], 0));
}

#[test]
fn spikes_over_near_silence_draw_a_warning() {
    let sr = 1000u32;
    let mut samples = vec![0.001f32; 7000];
    assert!(hygiene_warnings(&held(&samples), sr).is_empty());
    samples[3005] = -0.9;
    let warnings = hygiene_warnings(&held(&samples), sr);
    assert_eq!(
        warnings,
        vec!["possible click artifact (loud spike over near-silence) — scan the reference"]
    );
    for s in samples[2990..3000].iter_mut() {
        *s = 0.2;
    }
    assert!(hygiene_warnings(&held(&samples), sr).is_empty());
}

#[test]
fn what_is_not_a_number_is_not_silence() {
    let samples = held(&[0.9, f32::NAN, f32::NAN, f32::NAN]);
    let warnings = hygiene_warnings(&samples, 400);
    assert_eq!(warnings.len(), 1);
    assert!(warnings[0].starts_with("reference is 0.0s"));
    let samples = held(&[0.9, 0.0, 0.0, 0.0]);
    assert_eq!(hygiene_warnings(&samples, 400).len(), 2);
}

#[test]
fn spikes_are_found_as_in_floating_point() {
    let mut state = 3u64;
    let mut roll = || {
        state = state.wrapping_mul(6364136223846793005).wrapping_add(1442695040888963407);
        (state >> 33) as u32
    };
    for round in 0..300 {
        let sr = [100u32, 500, 1000, 50][round % 4];
        let n = roll() as usize % 700;
        let mut samples: Vec<f32> = Vec::new();
        for _ in 0..n {
            let level = [0.0f32, 0.01, 0.0199, 0.02, 0.049, 0.6][roll() as usize % 6];
            samples.push(if roll() % 2 == 0 { level } else { -level });
        }
        assert_eq!(hygiene_warnings(&held(&samples), sr), float_warnings(&samples, sr));
    }
}
