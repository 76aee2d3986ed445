//! Text, paths, directories, configuration and the command line.

use spqx::cli::{
    init_logging, named_line, resolve_config_path, resolve_dirs, run_config, CommonOpts,
    ConfigAction, ConfigCommand, LogLevel,
};
use spqx::config::{Config, LoadStep};
use spqx::path::{path_str, UnixPath};
use spqx::paths::{
    cache_dir, config_dir, config_file, data_dir, schema_file, state_dir, voices_dir, Environment,
};
use spqx::text;

fn path(s: &str) -> UnixPath {
    UnixPath::from_text(s)
}

fn env() -> Environment {
    Environment {
        home: Some(path("/home/u")),
        xdg_config_home: None,
        xdg_data_home: None,
        xdg_state_home: None,
        xdg_cache_home: None,
        appdata: None,
        localappdata: None,
        hf_home: None,
        is_windows: false,
    }
}

fn homeless() -> Environment {
    let mut e = env();
    e.home = None;
    e
}

fn common() -> CommonOpts {
    CommonOpts {
        config: None,
        json: false,
        quiet: false,
        verbose: 0,
        debug: false,
        no_color: false,
        yes: false,
    }
}

fn shown(p: UnixPath) -> String {
    p.display()
}

#[test]
fn text_is_trimmed_as_std_trims() {
    let spaces: Vec<char> = (0..=0x3100u32).filter_map(char::from_u32).filter(|c| c.is_whitespace()).collect();
    for c in spaces.iter().copied().chain(['a', 'é', '\u{200b}', '\u{feff}', '\0']) {
        let s = format!("{c}x {c}y{c}");
        assert_eq!(text::trim(&s), s.trim());
    }
    assert_eq!(text::trim(" \n "), "");
    assert_eq!(text::trim(""), "");
    assert!((0x3100..=0x10ffffu32).filter_map(char::from_u32).all(|c| !c.is_whitespace()));
}

#[test]
fn text_is_compared_replaced_and_written() {
    assert!(text::same_text("grüß", "grüß"));
    assert!(!text::same_text("a", "b"));
    assert!(!text::same_bytes(b"a", b"ab"));
    assert!(text::same_bytes(b"ab", b"ab"));
    assert_eq!(text::replace("a_b_", '_', "--"), "a--b--");
    assert_eq!(text::decimal(0), "0");
    assert_eq!(text::decimal(u64::MAX), u64::MAX.to_string());
    assert_eq!(text::concat("a", "ü"), "aü");
    assert_eq!(text::bytes_of("ü"), "ü".as_bytes().to_vec());
    assert_eq!(text::chars_of("aü"), vec!['a', 'ü']);
}

#[test]
fn bytes_are_ordered_as_std_orders() {
    let words: Vec<&[u8]> = vec![b"", b"a", b"ab", b"b", b"\xff", b"B", b"a\0"];
    for a in &words {
        for b in &words {
            assert_eq!(text::bytes_le(a, b), a <= b);
        }
    }
}

#[test]
fn paths_are_joined_as_std_joins() {
    for base in ["", "/", "a", "/a/", "a/b"] {
        for rest in ["", "b", "/b", "b/c", "./b"] {
            let expected = std::path::Path::new(base).join(rest);
            assert_eq!(shown(path(base).join_text(rest)), expected.to_str().unwrap());
        }
    }
}

#[test]
fn components_are_counted_as_std_counts() {
    for s in ["", ".", "a", "./a", "a/.", "a/./b", "a//b", "a/", "..", "../a", "./.", "a/../b", ".a/b."] {
        assert_eq!(path(s).components(), std::path::Path::new(s).components().count(), "{s}");
    }
}

#[test]
fn a_path_that_is_not_text_is_named() {
    let p = UnixPath { bytes: vec![b'a', 0xff] };
    assert_eq!(p.display(), "a\u{fffd}");
    assert_eq!(path_str(&p).unwrap_err().message(), "path is not valid UTF-8: a\u{fffd}");
    assert_eq!(path_str(&path("/ü")).unwrap(), "/ü");
    assert!(path("/a").is_absolute());
    assert!(!path("a").is_absolute());
    assert_eq!(path("a").copied().bytes, b"a".to_vec());
}

#[test]
fn directories_lie_below_home() {
    let e = env();
    assert_eq!(shown(config_dir(&e).unwrap()), "/home/u/.config/spqx");
    assert_eq!(shown(data_dir(&e).unwrap()), "/home/u/.local/share/spqx");
    assert_eq!(shown(state_dir(&e).unwrap()), "/home/u/.local/state/spqx");
    assert_eq!(shown(cache_dir(&e).unwrap()), "/home/u/.cache/spqx");
    assert_eq!(shown(config_file(&e).unwrap()), "/home/u/.config/spqx/config.toml");
    assert_eq!(shown(schema_file(&e).unwrap()), "/home/u/.config/spqx/config.schema.json");
    assert_eq!(shown(voices_dir(&e).unwrap()), "/home/u/.local/share/spqx/voices");
}

#[test]
fn absolute_overrides_win() {
    let mut e = env();
    e.xdg_config_home = Some(path("/cfg"));
    e.xdg_data_home = Some(path("relative"));
    assert_eq!(shown(config_dir(&e).unwrap()), "/cfg/spqx");
    assert_eq!(shown(data_dir(&e).unwrap()), "/home/u/.local/share/spqx");
}

#[test]
fn without_home_there_is_no_base() {
    let error = data_dir(&homeless()).unwrap_err();
    assert_eq!(error.message(), "unable to determine base directory (XDG_DATA_HOME)");
    let mut e = homeless();
    e.xdg_data_home = Some(path("/d"));
    assert_eq!(shown(voices_dir(&e).unwrap()), "/d/spqx/voices");
}

#[test]
fn the_default_configuration_is_complete() {
    let config = Config::default();
    assert_eq!(config.model.id, "mlx-community/Qwen3-TTS-12Hz-0.6B-Base-6bit");
    assert_eq!(config.model.path, None);
    assert_eq!((config.voice.default.as_str(), config.voice.language.as_str()), ("aiden", "auto"));
    assert_eq!(config.audio.sample_rate_hz, 24000);
    assert_eq!((config.audio.output_dir.as_deref(), config.audio.play), (None, true));
    assert_eq!(f64::from_bits(config.sampling.temperature.bits), 0.9);
    assert_eq!(config.sampling.top_k, 50);
    assert_eq!((config.api.ip.as_str(), config.api.port), ("127.0.0.1", 8331));
    let copy = config.clone();
    assert_eq!(copy.model.id, config.model.id);
    assert_eq!((config.paths.voices_dir, config.paths.models_dir), (None, None));
}

#[test]
fn an_override_is_parsed_and_the_standard_file_created() {
    let source = Config::load(&Some(path("/x.toml")), &env()).unwrap();
    assert_eq!(shown(source.path.copied()), "/x.toml");
    assert_eq!(source.step(false), LoadStep::Parse);
    let source = Config::load(&None, &env()).unwrap();
    assert_eq!(shown(source.path.copied()), "/home/u/.config/spqx/config.toml");
    assert_eq!(source.step(false), LoadStep::WriteDefault);
    assert_eq!(source.step(true), LoadStep::Parse);
    assert_eq!(Config::load(&None, &homeless()).unwrap_err().variable, "XDG_CONFIG_HOME");
}

#[test]
fn an_existing_configuration_is_kept() {
    let files = Config::write_default(&path("/home/u/.config/spqx/config.toml"), "a = 1\n", false);
    assert_eq!(shown(files.schema_path), "/home/u/.config/spqx/config.schema.json");
    assert_eq!(
        files.body.unwrap(),
        "# @schema ./config.schema.json\n# spqx configuration — `spqx config schema` prints the JSON schema.\n\na = 1\n"
    );
    let files = Config::write_default(&path("/home/u/.config/spqx/config.toml"), "a = 1\n", true);
    assert_eq!(files.body, None);
}

#[test]
fn the_schema_goes_next_to_the_configuration() {
    for (given, expected) in [
        ("/other/c.toml", "/other/config.schema.json"),
        ("c.toml", "config.schema.json"),
        ("d/c.toml", "d/config.schema.json"),
        ("/c.toml", "/config.schema.json"),
    ] {
        assert_eq!(shown(Config::write_default(&path(given), "", false).schema_path), expected);
    }
    let standard = Config::load(&None, &env()).unwrap().path;
    let files = Config::write_default(&standard, "", false);
    assert_eq!(shown(files.schema_path), shown(schema_file(&env()).unwrap()));
}

#[test]
fn parents_are_found_as_std_finds_them() {
    let pieces = ["", "/", "a", ".", "..", "//", "/.", "b/", "ab", "."];
    for x in pieces {
        for y in pieces {
            for z in pieces {
                for w in pieces {
                    let s = format!("{x}{y}{z}{w}");
                    let expected = std::path::Path::new(&s).parent().map(|p| p.to_str().unwrap().to_string());
                    assert_eq!(path(&s).parent().map(shown), expected, "{s}");
                }
            }
        }
    }
}

#[test]
fn verbosity_sets_the_log_level() {
    let mut opts = common();
    assert_eq!(init_logging(&opts, false).level, LogLevel::Warn);
    opts.verbose = 1;
    assert_eq!(init_logging(&opts, false).level, LogLevel::Info);
    opts.verbose = 2;
    assert_eq!(init_logging(&opts, false).level, LogLevel::Debug);
    opts.verbose = 0;
    opts.debug = true;
    assert_eq!(init_logging(&opts, false).level, LogLevel::Debug);
    opts.quiet = true;
    assert_eq!(init_logging(&opts, false).level, LogLevel::Error);
    assert!(!init_logging(&opts, false).plain);
    assert!(init_logging(&opts, true).plain);
    opts.no_color = true;
    assert!(init_logging(&opts, false).plain);
}

#[test]
fn config_commands_are_planned() {
    let mut opts = common();
    match run_config(ConfigCommand::Show, &opts, &env()).unwrap() {
        ConfigAction::Show { source, json } => {
            assert!(source.create_if_missing);
            assert!(!json);
        }
        other => panic!("{other:?}"),
    }
    match run_config(ConfigCommand::Path, &opts, &env()).unwrap() {
        ConfigAction::Lines(lines) => assert_eq!(lines, vec!["/home/u/.config/spqx/config.toml"]),
        other => panic!("{other:?}"),
    }
    match run_config(ConfigCommand::Paths, &opts, &env()).unwrap() {
        ConfigAction::Lines(lines) => assert_eq!(
            lines,
            vec![
                "config: /home/u/.config/spqx",
                "data: /home/u/.local/share/spqx",
                "state: /home/u/.local/state/spqx",
                "cache: /home/u/.cache/spqx",
                "voices: /home/u/.local/share/spqx/voices",
            ]
        ),
        other => panic!("{other:?}"),
    }
    opts.json = true;
    match run_config(ConfigCommand::Paths, &opts, &env()).unwrap() {
        ConfigAction::Object(dirs) => {
            let names: Vec<&str> = dirs.iter().map(|d| d.name).collect();
            assert_eq!(names, vec!["config", "data", "state", "cache", "voices"]);
        }
        other => panic!("{other:?}"),
    }
    assert!(matches!(
        run_config(ConfigCommand::Schema, &opts, &homeless()),
        Ok(ConfigAction::Schema)
    ));
    opts.config = Some(path("/c.toml"));
    match run_config(ConfigCommand::Reset, &opts, &homeless()).unwrap() {
        ConfigAction::Reset { path } => assert_eq!(shown(path), "/c.toml"),
        other => panic!("{other:?}"),
    }
    match run_config(ConfigCommand::Show, &opts, &homeless()).unwrap() {
        ConfigAction::Show { source, json } => {
            assert!(!source.create_if_missing);
            assert!(json);
        }
        other => panic!("{other:?}"),
    }
}

#[test]
fn unresolved_directories_are_named_in_order() {
    let mut e = homeless();
    assert_eq!(resolve_dirs(&e).unwrap_err().variable, "XDG_CONFIG_HOME");
    e.xdg_config_home = Some(path("/c"));
    assert_eq!(resolve_dirs(&e).unwrap_err().variable, "XDG_DATA_HOME");
    e.xdg_data_home = Some(path("/d"));
    assert_eq!(resolve_dirs(&e).unwrap_err().variable, "XDG_STATE_HOME");
    e.xdg_state_home = Some(path("/s"));
    assert_eq!(resolve_dirs(&e).unwrap_err().variable, "XDG_CACHE_HOME");
    e.xdg_cache_home = Some(path("/k"));
    assert_eq!(resolve_dirs(&e).unwrap().len(), 5);
    assert!(resolve_config_path(&common(), &homeless()).is_err());
    assert_eq!(named_line("config", &path("/c")), "config: /c");
}
