//! The configuration: sections with defaults, where it is found, and the file
//! that is written on first run.
//!
//! Precedence: defaults, then the configuration file, then the path given with
//! `--config` or `SPQX_CONFIG` in its place.

use crate::path::{
    bare_names_have_no_parent, ends_with_component, joined_path, joining_ends_with_component,
    parent_of_joined, parent_path, UnixPath,
};
use crate::paths::{self, below, resolves, Environment, NoBaseDir, APP_NAME};
use crate::sample::Double;
use crate::text;
use vstd::prelude::*;
use vstd::utf8::{encode_utf8, is_ascii_chars_encode_utf8};

verus! {

/// spqx configuration.
#[derive(Clone, Debug)]
pub struct Config {
    /// Model selection.
    pub model: ModelConfig,
    /// Default voice used when `--voice` is not given.
    pub voice: VoiceConfig,
    /// Audio output settings.
    pub audio: AudioConfig,
    /// Sampling parameters passed to the engine.
    pub sampling: SamplingConfig,
    /// OpenAI-compatible API server settings.
    pub api: ApiConfig,
    /// Directory overrides.
    pub paths: PathsConfig,
}

/// Model selection.
#[derive(Clone, Debug)]
pub struct ModelConfig {
    /// Hugging Face model id resolved from the local cache.
    pub id: String,
    /// Explicit local model directory; takes precedence over `id`.
    pub path: Option<String>,
}

/// Default voice.
#[derive(Clone, Debug)]
pub struct VoiceConfig {
    /// Registry voice name or preset speaker.
    pub default: String,
    /// Default language passed to the engine (`auto` detects).
    pub language: String,
}

/// Audio output settings.
#[derive(Clone, Debug)]
pub struct AudioConfig {
    /// PCM sample rate for synthesis output.
    pub sample_rate_hz: u32,
    /// Directory for `--out` files given as bare names.
    pub output_dir: Option<String>,
    /// Play audio live by default (`--no-play` overrides per run).
    pub play: bool,
}

/// Engine sampling parameters.
#[derive(Clone, Debug)]
pub struct SamplingConfig {
    pub temperature: Double,
    pub top_k: i64,
}

/// OpenAI-compatible API server settings.
#[derive(Clone, Debug)]
pub struct ApiConfig {
    pub ip: String,
    pub port: u16,
}

/// Directory overrides (defaults are XDG-derived).
#[derive(Clone, Debug)]
pub struct PathsConfig {
    /// Voice registry directory (default: `~/.local/share/spqx/voices`).
    pub voices_dir: Option<String>,
    /// Model cache override (default: the Hugging Face cache).
    pub models_dir: Option<String>,
}

/// The default temperature, 0.9.
pub const DEFAULT_TEMPERATURE_BITS: u64 = 0x3fec_cccc_cccc_cccd;

impl ModelConfig {
    /// Whether this is the default.
    pub open spec fn is_default(self) -> bool {
        &&& self.id@ == "mlx-community/Qwen3-TTS-12Hz-0.6B-Base-6bit"@
        &&& self.path is None
    }
}

impl Default for ModelConfig {
    fn default() -> (r: Self)
        ensures
            r.is_default(),
    {
        ModelConfig { id: "mlx-community/Qwen3-TTS-12Hz-0.6B-Base-6bit".to_owned(), path: None }
    }
}

impl VoiceConfig {
    /// Whether this is the default.
    pub open spec fn is_default(self) -> bool {
        &&& self.default@ == "aiden"@
        &&& self.language@ == "auto"@
    }
}

impl Default for VoiceConfig {
    fn default() -> (r: Self)
        ensures
            r.is_default(),
    {
        VoiceConfig { default: "aiden".to_owned(), language: "auto".to_owned() }
    }
}

impl AudioConfig {
    /// Whether this is the default.
    pub open spec fn is_default(self) -> bool {
        &&& self.sample_rate_hz == 24_000
        &&& self.output_dir is None
        &&& self.play
    }
}

impl Default for AudioConfig {
    fn default() -> (r: Self)
        ensures
            r.is_default(),
    {
        AudioConfig { sample_rate_hz: 24_000, output_dir: None, play: true }
    }
}

impl SamplingConfig {
    /// Whether this is the default.
    pub open spec fn is_default(self) -> bool {
        &&& self.temperature.bits == DEFAULT_TEMPERATURE_BITS
        &&& self.top_k == 50
    }
}

impl Default for SamplingConfig {
    fn default() -> (r: Self)
        ensures
            r.is_default(),
    {
        SamplingConfig { temperature: Double { bits: DEFAULT_TEMPERATURE_BITS }, top_k: 50 }
    }
}

impl ApiConfig {
    /// Whether this is the default.
    pub open spec fn is_default(self) -> bool {
        &&& self.ip@ == "127.0.0.1"@
        &&& self.port == 8331
    }
}

impl Default for ApiConfig {
    fn default() -> (r: Self)
        ensures
            r.is_default(),
    {
        ApiConfig { ip: "127.0.0.1".to_owned(), port: 8331 }
    }
}

impl PathsConfig {
    /// Whether this is the default.
    pub open spec fn is_default(self) -> bool {
        &&& self.voices_dir is None
        &&& self.models_dir is None
    }
}

impl Default for PathsConfig {
    fn default() -> (r: Self)
        ensures
            r.is_default(),
    {
        PathsConfig { voices_dir: None, models_dir: None }
    }
}

impl Default for Config {
    fn default() -> (r: Self)
        ensures
            r.is_default(),
    {
        Config {
            model: ModelConfig::default(),
            voice: VoiceConfig::default(),
            audio: AudioConfig::default(),
            sampling: SamplingConfig::default(),
            api: ApiConfig::default(),
            paths: PathsConfig::default(),
        }
    }
}

/// Where the effective configuration comes from.
#[derive(Debug)]
pub struct ConfigSource {
    /// The file to parse.
    pub path: UnixPath,
    /// Whether the file is created with the default configuration, which is then
    /// the effective one, when it does not exist.
    pub create_if_missing: bool,
}

/// The files that hold the default configuration.
#[derive(Debug)]
pub struct DefaultFiles {
    /// Where the schema goes.
    pub schema_path: UnixPath,
    /// The text of the configuration file, where it is written.
    pub body: Option<String>,
}

/// How a configuration is loaded.
#[derive(Clone, Copy, Debug, PartialEq, Eq, Structural)]
pub enum LoadStep {
    /// The file is parsed.
    Parse,
    /// The default files are written, and the default configuration is the
    /// effective one.
    WriteDefault,
}

impl ConfigSource {
    /// How the configuration is loaded, given whether the file exists.
    pub open spec fn next_step(self, exists: bool) -> LoadStep {
        if self.create_if_missing && !exists {
            LoadStep::WriteDefault
        } else {
            LoadStep::Parse
        }
    }

    /// How the configuration is loaded, given whether the file exists.
    pub fn step(&self, exists: bool) -> (r: LoadStep)
        ensures
            r == self.next_step(exists),
    {
        if self.create_if_missing && !exists {
            LoadStep::WriteDefault
        } else {
            LoadStep::Parse
        }
    }
}

/// What the configuration file begins with: it names the schema next to it.
pub const SCHEMA_HEADER: &'static str =
    "# @schema ./config.schema.json\n# spqx configuration — `spqx config schema` prints the JSON schema.\n\n";

/// Whether `r` is where the effective configuration is loaded from: the override,
/// which has to exist, or else the file in the configuration directory, which is
/// created on first run.
pub open spec fn loads_from(
    r: Result<ConfigSource, NoBaseDir>,
    override_path: Option<UnixPath>,
    env: Environment,
) -> bool {
    match override_path {
        Some(path) => r matches Ok(source) && source.path@ == path@ && !source.create_if_missing,
        None => {
            &&& r matches Ok(source) ==> source.create_if_missing
            &&& resolves(
                (match r {
                    Ok(source) => Ok(source.path),
                    Err(e) => Err(e),
                }),
                below(below(env.config_base(), APP_NAME@), "config.toml"@),
                "XDG_CONFIG_HOME"@,
            )
        },
    }
}

/// Where the schema goes: next to the configuration file.
pub open spec fn schema_next_to(path: Seq<u8>) -> Seq<u8> {
    let dir = match parent_path(path) {
        Some(parent) => parent,
        None => path,
    };
    joined_path(dir, encode_utf8("config.schema.json"@))
}

/// What is written to the configuration file, if anything: a file that exists is
/// kept.
pub open spec fn default_body(toml: Seq<char>, exists: bool) -> Option<Seq<char>> {
    if exists {
        None
    } else {
        Some(SCHEMA_HEADER@ + toml)
    }
}

impl Config {
    /// Whether every section is the default.
    pub open spec fn is_default(self) -> bool {
        &&& self.model.is_default()
        &&& self.voice.is_default()
        &&& self.audio.is_default()
        &&& self.sampling.is_default()
        &&& self.api.is_default()
        &&& self.paths.is_default()
    }

    /// Where to load the effective configuration from: the override, which has to
    /// exist, or else the file in the configuration directory, which is created
    /// on first run.
    pub fn load(override_path: &Option<UnixPath>, env: &Environment) -> (r: Result<
        ConfigSource,
        NoBaseDir,
    >)
        ensures
            loads_from(r, *override_path, *env),
    {
        match override_path {
            Some(path) => Ok(ConfigSource { path: path.copied(), create_if_missing: false }),
            None => match paths::config_file(env) {
                Ok(path) => Ok(ConfigSource { path, create_if_missing: true }),
                Err(e) => Err(e),
            },
        }
    }

    /// What to write for a configuration whose TOML is given: the schema next to
    /// the configuration file, and the configuration behind a header that names the
    /// schema. A configuration file that exists is kept.
    pub fn write_default(path: &UnixPath, toml: &str, exists: bool) -> (r: DefaultFiles)
        ensures
            r.schema_path@ == schema_next_to(path@),
            match r.body {
                Some(body) => default_body(toml@, exists) == Some(body@),
                None => default_body(toml@, exists) is None,
            },
    {
        let schema_path: UnixPath = match path.parent() {
            Some(dir) => dir.join_text("config.schema.json"),
            None => path.join_text("config.schema.json"),
        };
        let body: Option<String> = if exists {
            None
        } else {
            Some(text::concat(SCHEMA_HEADER, toml))
        };
        DefaultFiles { schema_path, body }
    }
}

/// A configuration is created once, and never over what is there. Without an
/// override, the first run writes the default behind the schema header, and the
/// schema where it is looked for; once the file is there, it is parsed and kept. An
/// override is parsed, and nothing is written for it.
pub proof fn first_run_writes_once(
    source: ConfigSource,
    override_path: Option<UnixPath>,
    env: Environment,
    toml: Seq<char>,
)
    requires
        loads_from(Ok(source), override_path, env),
    ensures
        match override_path {
            None => {
                &&& source.next_step(false) == LoadStep::WriteDefault
                &&& default_body(toml, false) == Some(SCHEMA_HEADER@ + toml)
                &&& Some(schema_next_to(source.path@)) == below(
                    below(env.config_base(), APP_NAME@),
                    "config.schema.json"@,
                )
                &&& source.next_step(true) == LoadStep::Parse
                &&& default_body(toml, true) is None
                &&& env.config_base() matches Some(base) && source.path@ == joined_path(
                    joined_path(base, encode_utf8("spqx"@)),
                    encode_utf8("config.toml"@),
                )
            },
            Some(path) => {
                &&& source.path@ == path@
                &&& forall|exists: bool| #[trigger] source.next_step(exists) == LoadStep::Parse
            },
        },
{
    if override_path is None {
        let base = env.config_base()->0;
        reveal_strlit("spqx");
        reveal_strlit("config.toml");
        is_ascii_chars_encode_utf8(APP_NAME@);
        is_ascii_chars_encode_utf8("config.toml"@);
        joining_ends_with_component(base, encode_utf8(APP_NAME@));
        parent_of_joined(
            joined_path(base, encode_utf8(APP_NAME@)),
            encode_utf8("config.toml"@),
        );
    }
}

/// The schema goes into the directory of the configuration file, whatever that is.
pub proof fn schema_is_next_to_the_file(dir: Seq<u8>, name: Seq<u8>)
    requires
        ends_with_component(dir),
        name.len() >= 2,
        !name.contains(0x2f),
    ensures
        schema_next_to(joined_path(dir, name)) == joined_path(
            dir,
            encode_utf8("config.schema.json"@),
        ),
        schema_next_to(name) == encode_utf8("config.schema.json"@),
{
    parent_of_joined(dir, name);
    bare_names_have_no_parent(name);
    let schema = encode_utf8("config.schema.json"@);
    assert(joined_path(Seq::empty(), schema) =~= schema);
}

/// A file that exists is kept, and a new one begins with the line that names the schema.
pub proof fn existing_files_are_kept(toml: Seq<char>)
    ensures
        default_body(toml, true) is None,
        default_body(toml, false) matches Some(body) && "# @schema ./config.schema.json\n"@.is_prefix_of(
            body,
        ) && toml.is_suffix_of(body),
{
    reveal_strlit("# @schema ./config.schema.json\n");
    reveal_strlit(
        "# @schema ./config.schema.json\n# spqx configuration — `spqx config schema` prints the JSON schema.\n\n",
    );
    let line = "# @schema ./config.schema.json\n"@;
    let body = SCHEMA_HEADER@ + toml;
    assert(body.subrange(0, line.len() as int) =~= line);
    assert(body.subrange(body.len() - toml.len(), body.len() as int) =~= toml);
}

} // verus!
