//! Models, reference voices, and what `say`, `serve` and the standalone worker
//! make of their flags.

use spqx::cli::CommonOpts;
use spqx::config::Config;
use spqx::engine::{
    check_voice, expand, expanduser, file_text, hf_snapshot, model_dir, newest_snapshot,
    reference_from_file, reference_from_registry, registry_voice, resolve_model_dir,
    resolve_reference, synthesize_streaming, tokenizer_path, voices_dir, EngineError, ModelSource,
    Reference, ReferenceSource, Snapshot, SynthMeter, Transcript,
};
use spqx::path::UnixPath;
use spqx::paths::Environment;
use spqx::postprocess::gate_leading_nonspeech;
use spqx::sample::{Double, Sample};
use spqx::say::{self, Report, SayArgs, SayError};
use spqx::serve::{self, ServeArgs};
use spqx::worker_args::{
    no_target_message, resolve_ref_text, target_text, worker_config, WorkerArgs, DEFAULT_REF_TEXT,
};

fn path(s: &str) -> UnixPath {
    UnixPath::from_text(s)
}

fn env() -> Environment {
    Environment {
        home: Some(path("/home/u")),
        xdg_config_home: None,
        xdg_data_home: None,
        xdg_state_home: None,
        xdg_cache_home: None,
        appdata: None,
        localappdata: None,
        hf_home: None,
        is_windows: false,
    }
}

fn snapshot(name: &str, modified: u64) -> Snapshot {
    Snapshot { name: path(name), modified }
}

fn homeless() -> Environment {
    let mut e = env();
    e.home = None;
    e
}

fn common() -> CommonOpts {
    CommonOpts {
        config: None,
        json: false,
        quiet: false,
        verbose: 0,
        debug: false,
        no_color: false,
        yes: false,
    }
}

fn say_args(text: Option<&str>) -> SayArgs {
    SayArgs {
        text: text.map(|t| t.to_string()),
        voice: None,
        ref_audio: None,
        ref_text: None,
        ref_text_file: None,
        out: None,
        no_play: false,
    }
}

fn worker_args() -> WorkerArgs {
    WorkerArgs {
        serve: true,
        model_path: path("~/m"),
        text: None,
        text_file: None,
        output: path("out.wav"),
        ref_audio: path("/r.wav"),
        ref_text: None,
        ref_text_file: None,
        language: "de".to_string(),
        streaming_chunk_size: None,
        max_new_tokens: 7,
        blocksize: 0,
        output_sample_rate: 16000,
        temperature: Double { bits: 1.0f64.to_bits() },
        top_k: 3,
    }
}

#[test]
fn home_is_expanded() {
    assert_eq!(expand("~/a/b", &env()).display(), "/home/u/a/b");
    assert_eq!(expand("~/a", &homeless()).display(), "~/a");
    assert_eq!(expand("~a", &env()).display(), "~a");
    assert_eq!(expand("/a", &env()).display(), "/a");
    assert_eq!(expand("~//x", &env()).display(), "/x");
    assert_eq!(expanduser(&path("~/ü"), &env()).display(), "/home/u/ü");
    let odd = UnixPath { bytes: vec![b'/', 0xff] };
    assert_eq!(expanduser(&odd, &env()).bytes, vec![b'/', 0xff]);
    let odd = UnixPath { bytes: vec![b'~', b'/', 0xff] };
    assert_eq!(expanduser(&odd, &env()).display(), "/home/u/\u{fffd}");
    assert_eq!(expanduser(&odd, &homeless()).bytes, vec![b'~', b'/', 0xff]);
}

#[test]
fn the_model_path_comes_first() {
    let mut config = Config::default();
    config.model.path = Some("~/model".to_string());
    let source = resolve_model_dir(&config, &env());
    assert!(matches!(&source, ModelSource::Given { path } if path.display() == "/home/u/model"));
    let found = model_dir(&config, &source, true, &Vec::new()).unwrap();
    assert_eq!(found.display(), "/home/u/model");
    let error = model_dir(&config, &source, false, &Vec::new()).unwrap_err();
    assert_eq!(error.message(), "model.path /home/u/model does not exist");
}

#[test]
fn the_newest_snapshot_is_taken() {
    let config = Config::default();
    let dir = "models--mlx-community--Qwen3-TTS-12Hz-0.6B-Base-6bit/snapshots";
    let source = resolve_model_dir(&config, &env());
    let expected = format!("/home/u/.cache/huggingface/hub/{dir}");
    assert!(matches!(&source, ModelSource::Cached { snapshots } if snapshots.display() == expected));
    // Names are hashes and say nothing of age.
    let all = vec![snapshot("f1", 5), snapshot("aa", 9), snapshot("ff", 7), snapshot("e9", 9)];
    assert_eq!(newest_snapshot(&all), Some(3));
    assert_eq!(newest_snapshot(&vec![snapshot("aaa", 2), snapshot("bbb", 1)]), Some(0));
    assert_eq!(newest_snapshot(&vec![snapshot("bbb", 1), snapshot("aaa", 2)]), Some(1));
    assert_eq!(newest_snapshot(&Vec::new()), None);
    let found = model_dir(&config, &source, false, &all).unwrap();
    assert_eq!(found.display(), format!("{expected}/e9"));
    let all = vec![snapshot("aaa", 2), snapshot("bbb", 1)];
    let found = model_dir(&config, &source, false, &all).unwrap();
    assert_eq!(found.display(), format!("{expected}/aaa"));
    let error = model_dir(&config, &source, true, &Vec::new()).unwrap_err();
    assert_eq!(
        error.message(),
        "model mlx-community/Qwen3-TTS-12Hz-0.6B-Base-6bit not found in the Hugging Face cache; download it or set model.path"
    );
}

#[test]
fn the_cache_can_be_elsewhere() {
    let mut config = Config::default();
    config.model.id = "a/b".to_string();
    let mut e = env();
    e.hf_home = Some(path("/hf"));
    assert_eq!(hf_snapshot(&config, &e).unwrap().display(), "/hf/hub/models--a--b/snapshots");
    config.paths.models_dir = Some("~/cache".to_string());
    assert_eq!(hf_snapshot(&config, &e).unwrap().display(), "/home/u/cache/models--a--b/snapshots");
    config.paths.models_dir = None;
    assert!(hf_snapshot(&config, &homeless()).is_none());
    let source = resolve_model_dir(&config, &homeless());
    assert!(matches!(source, ModelSource::Nowhere));
    let error = model_dir(&config, &source, true, &vec![snapshot("x", 1)]).unwrap_err();
    assert!(matches!(error, EngineError::ModelNotCached { .. }));
}

#[test]
fn weights_of_the_tokenizer_are_found() {
    assert_eq!(tokenizer_path(&path("/m")).display(), "/m/speech_tokenizer/model.safetensors");
}

#[test]
fn explicit_references_come_first() {
    let config = Config::default();
    let wav = Some(path("/r.wav"));
    let text = Some(" as is ".to_string());
    let file = Some(path("/r.txt"));
    match resolve_reference(&config, &env(), &None, &wav, &text, &file).unwrap() {
        ReferenceSource::Given(r) => {
            assert_eq!((r.wav.display(), r.text, r.label), ("/r.wav".into(), " as is ".into(), "/r.wav".into()));
        }
        other => panic!("{other:?}"),
    }
    match resolve_reference(&config, &env(), &None, &wav, &None, &file).unwrap() {
        ReferenceSource::TextFile { wav, file } => {
            assert_eq!((wav.display(), file.display()), ("/r.wav".into(), "/r.txt".into()));
            let r = reference_from_file(&wav, " words \n");
            assert_eq!((r.text.as_str(), r.label.as_str()), ("words", "/r.wav"));
        }
        other => panic!("{other:?}"),
    }
    let error = resolve_reference(&config, &env(), &None, &wav, &None, &None).unwrap_err();
    assert_eq!(error.message(), "--ref-audio requires --ref-text or --ref-text-file");
}

#[test]
fn voices_come_from_the_registry() {
    let config = Config::default();
    let found = |voice: Option<String>| {
        match resolve_reference(&config, &env(), &voice, &None, &None, &None).unwrap() {
            ReferenceSource::Registry(voice) => voice,
            other => panic!("{other:?}"),
        }
    };
    let voice = found(None);
    assert_eq!(voice.name, "aiden");
    assert_eq!(voice.dir.display(), "/home/u/.local/share/spqx/voices/aiden");
    let voice = found(Some("bob".to_string()));
    assert_eq!(voice.wav.display(), "/home/u/.local/share/spqx/voices/bob/reference.wav");
    assert_eq!(voice.txt.display(), "/home/u/.local/share/spqx/voices/bob/reference.txt");
    assert!(check_voice(&voice, true, true).is_ok());
    for (wav, txt) in [(true, false), (false, true), (false, false)] {
        let error = check_voice(&voice, wav, txt).unwrap_err();
        assert_eq!(
            error.message(),
            "voice 'bob' not found in the registry (/home/u/.local/share/spqx/voices/bob). Add one with `spqx voices add bob --ref-audio <wav> --ref-text-file <txt>`, or pass --ref-audio/--ref-text directly."
        );
    }
    let r = reference_from_registry(&voice, "\tspoken\n");
    assert_eq!((r.text.as_str(), r.label.as_str()), ("spoken", "bob"));
    assert_eq!(r.wav.display(), voice.wav.display());
}

#[test]
fn the_registry_can_be_elsewhere() {
    let mut config = Config::default();
    let error = resolve_reference(&config, &homeless(), &None, &None, &None, &None).unwrap_err();
    assert_eq!(error.message(), "unable to determine base directory (XDG_DATA_HOME)");
    config.paths.voices_dir = Some("~/v".to_string());
    assert_eq!(voices_dir(&config, &env()).unwrap().display(), "/home/u/v");
    assert_eq!(registry_voice(&path("/v"), "/abs").dir.display(), "/abs");
    assert_eq!(file_text(" a b \n"), "a b");
}

#[test]
fn a_meter_gates_the_first_chunk_and_counts() {
    let mut meter = SynthMeter::new(24000, false);
    let loud = vec![Sample { bits: 0.5f32.to_bits() }; 480];
    let mut first = loud.clone();
    let mut expected = loud.clone();
    gate_leading_nonspeech(&mut expected, 24000);
    assert!(meter.take_chunk(&mut first));
    assert_eq!(first, expected);
    let mut second = loud.clone();
    assert!(!meter.take_chunk(&mut second));
    assert_eq!(second, loud);
    assert_eq!((meter.audio().samples, meter.audio().sample_rate), (960, 24000));
    let mut ungated = SynthMeter::new(24000, true);
    assert!(ungated.take_chunk(&mut second));
    assert_eq!(second, loud);
}

#[test]
fn a_synthesis_run_takes_its_settings_from_the_configuration() {
    let mut config = Config::default();
    config.voice.language = "de".to_string();
    let reference = Reference { wav: path("/r.wav"), text: "words".into(), label: "r".into() };
    let (request, meter) = synthesize_streaming(&config, &reference, " Hi ", &path("/m"), false).unwrap();
    assert_eq!((request.ref_path.as_str(), request.ref_text.as_str()), ("/r.wav", "words"));
    assert_eq!((request.language.as_str(), request.text.as_str()), ("de", " Hi "));
    assert_eq!((request.top_k, request.max_new_tokens, request.streaming_chunk_size), (50, i64::MAX, 4));
    assert_eq!(request.temperature.bits, 0.9f64.to_bits());
    assert_eq!(request.tokenizer_path.display(), "/m/speech_tokenizer/model.safetensors");
    assert_eq!((meter.sample_rate, meter.ungated), (24000, false));
    let odd = Reference { wav: UnixPath { bytes: vec![0xff] }, text: "".into(), label: "".into() };
    assert!(synthesize_streaming(&config, &odd, "Hi", &path("/m"), false).is_none());
}

#[test]
fn text_to_say_comes_from_flags_or_stdin() {
    let config = Config::default();
    assert!(say::reads_stdin(&say_args(None)));
    assert!(say::reads_stdin(&say_args(Some("-"))));
    assert!(!say::reads_stdin(&say_args(Some("hi"))));
    let plan = say::run(&say_args(Some("hi")), &common(), &config, &env(), "ignored").unwrap();
    assert_eq!(plan.text, "hi");
    let plan = say::run(&say_args(Some("-")), &common(), &config, &env(), " piped\n").unwrap();
    assert_eq!(plan.text, " piped\n");
    let error = say::run(&say_args(None), &common(), &config, &env(), " \n").unwrap_err();
    assert!(matches!(error, SayError::NoText));
    assert_eq!(error.message(), "no text to speak (pass TEXT or pipe it on stdin)");
    let mut args = say_args(Some("hi"));
    args.ref_audio = Some(path("/r.wav"));
    let error = say::run(&args, &common(), &config, &env(), "").unwrap_err();
    assert!(matches!(error, SayError::NoVoice(EngineError::NoRefText)));
    assert_eq!(error.message(), "--ref-audio requires --ref-text or --ref-text-file");
}

#[test]
fn playback_can_be_switched_off() {
    let mut config = Config::default();
    let mut args = say_args(Some("hi"));
    let mut opts = common();
    let play = |args: &SayArgs, opts: &CommonOpts, config: &Config| {
        say::run(args, opts, config, &env(), "").unwrap().play
    };
    assert!(play(&args, &opts, &config));
    opts.quiet = true;
    assert!(play(&args, &opts, &config));
    args.out = Some(path("a.wav"));
    assert!(!play(&args, &opts, &config));
    opts.quiet = false;
    assert!(play(&args, &opts, &config));
    args.no_play = true;
    assert!(!play(&args, &opts, &config));
    args.no_play = false;
    config.audio.play = false;
    assert!(!play(&args, &opts, &config));
}

#[test]
fn bare_names_go_to_the_output_directory() {
    let mut config = Config::default();
    assert_eq!(say::resolve_out(&config, &path("a.wav")).display(), "a.wav");
    config.audio.output_dir = Some("/out".to_string());
    assert_eq!(say::resolve_out(&config, &path("a.wav")).display(), "/out/a.wav");
    assert_eq!(say::resolve_out(&config, &path("./a.wav")).display(), "./a.wav");
    assert_eq!(say::resolve_out(&config, &path("b/a.wav")).display(), "b/a.wav");
    assert_eq!(say::resolve_out(&config, &path("/a.wav")).display(), "/a.wav");
    let mut args = say_args(Some("hi"));
    args.out = Some(path("a.wav"));
    let plan = say::run(&args, &common(), &config, &env(), "").unwrap();
    assert_eq!(plan.out.unwrap().display(), "/out/a.wav");
}

#[test]
fn runs_are_reported_as_asked() {
    let mut opts = common();
    assert_eq!(say::report(&opts), Report::Line);
    opts.quiet = true;
    assert_eq!(say::report(&opts), Report::Nothing);
    opts.json = true;
    assert_eq!(say::report(&opts), Report::Json);
}

#[test]
fn serving_draws_on_the_configuration() {
    let mut config = Config::default();
    config.voice.language = "DE".to_string();
    let mut args = ServeArgs {
        voice: None,
        ref_audio: None,
        ref_text: None,
        ref_text_file: None,
        output_sample_rate: None,
        blocksize: 0,
    };
    let reference = || Reference { wav: path("/r.wav"), text: "t".into(), label: "l".into() };
    let worker = serve::run(&args, &config, reference(), path("/m"));
    assert_eq!((worker.output_sample_rate, worker.blocksize, worker.streaming_chunk_size), (24000, 1, 4));
    assert_eq!((worker.max_new_tokens, worker.top_k, worker.language.as_str()), (1536, 50, "german"));
    assert_eq!((worker.model_path.display(), worker.ref_audio.display()), ("/m".into(), "/r.wav".into()));
    assert_eq!((worker.ref_text.as_str(), worker.temperature.bits), ("t", 0.9f64.to_bits()));
    args.output_sample_rate = Some(16000);
    args.blocksize = serve::DEFAULT_BLOCKSIZE;
    let worker = serve::run(&args, &config, reference(), path("/m"));
    assert_eq!((worker.output_sample_rate, worker.blocksize), (16000, 2048));
}

#[test]
fn the_standalone_worker_reads_flags() {
    let mut args = worker_args();
    let worker = worker_config(&args, &env(), "t".to_string());
    assert_eq!((worker.model_path.display(), worker.ref_audio.display()), ("/home/u/m".into(), "/r.wav".into()));
    assert_eq!((worker.language.as_str(), worker.blocksize, worker.streaming_chunk_size), ("german", 1, 4));
    assert_eq!((worker.max_new_tokens, worker.top_k, worker.output_sample_rate), (7, 3, 16000));
    assert_eq!((worker.temperature.bits, worker.ref_text.as_str()), (1.0f64.to_bits(), "t"));
    args.streaming_chunk_size = Some(-5);
    args.blocksize = 512;
    let worker = worker_config(&args, &env(), "t".to_string());
    assert_eq!((worker.streaming_chunk_size, worker.blocksize), (1, 512));
    args.streaming_chunk_size = Some(9);
    assert_eq!(worker_config(&args, &env(), "t".to_string()).streaming_chunk_size, 9);
}

#[test]
fn transcripts_come_from_a_file_first() {
    let mut args = worker_args();
    assert!(matches!(resolve_ref_text(&args, &env()), Transcript::Text(t) if t == DEFAULT_REF_TEXT));
    args.ref_text = Some(" spoken ".to_string());
    assert!(matches!(resolve_ref_text(&args, &env()), Transcript::Text(t) if t == "spoken"));
    args.ref_text_file = Some(path("~/r.txt"));
    assert!(matches!(resolve_ref_text(&args, &env()), Transcript::File(p) if p.display() == "/home/u/r.txt"));
}

#[test]
fn target_text_comes_from_a_flag_first() {
    let mut args = worker_args();
    assert!(target_text(&args, &env()).is_none());
    assert_eq!(no_target_message(), "provide --text or --text-file");
    args.text_file = Some(path("~/t.txt"));
    assert!(matches!(target_text(&args, &env()), Some(Transcript::File(p)) if p.display() == "/home/u/t.txt"));
    args.text = Some(" hi\n".to_string());
    assert!(matches!(target_text(&args, &env()), Some(Transcript::Text(t)) if t == "hi"));
}
