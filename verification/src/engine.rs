//! From configuration and flags to what is synthesized: which model, which
//! reference voice, and what is kept of the audio.
//!
//! What exists on disk, and what files hold, is looked up by the caller and
//! handed in.

use crate::config::Config;
use crate::path::{joined_path, UnixPath};
use crate::paths::{self, below, path_view, Environment, NoBaseDir, APP_NAME};
use crate::postprocess::{gate_leading_nonspeech, is_cleaned};
use crate::sample::{Double, Sample};
use crate::seconds::Seconds;
use crate::text::{self, lex_le, shown_text, replaced, trimmed};
use vstd::prelude::*;
use vstd::utf8::encode_utf8;

verus! {

// ---------------------------------------------------------------------------
// The home directory
// ---------------------------------------------------------------------------

/// Whether a path begins below the home directory.
pub open spec fn is_below_home(path: Seq<char>) -> bool {
    path.len() >= 2 && path[0] == '~' && path[1] == '/'
}

/// The path that text stands for, with `~/` at its begin replaced by the home
/// directory, where there is one.
pub open spec fn expanded(path: Seq<char>, home: Option<Seq<u8>>) -> Seq<u8> {
    if is_below_home(path) && home is Some {
        joined_path(home->0, encode_utf8(path.skip(2)))
    } else {
        encode_utf8(path)
    }
}

/// What follows `~/` at the begin of a path.
fn below_home(path: &str) -> (r: Option<&str>)
    ensures
        r is Some <==> is_below_home(path@),
        r matches Some(rest) ==> rest@ == path@.skip(2),
{
    let chars: Vec<char> = text::chars_of(path);
    if chars.len() >= 2 && chars[0] == '~' && chars[1] == '/' {
        let rest: &str = vstd::string::StrSliceExecFns::substring_char(path, 2, chars.len());
        assert(rest@ =~= path@.skip(2));
        Some(rest)
    } else {
        None
    }
}

/// The path that text stands for, with `~/` at its begin replaced by the home
/// directory, where there is one.
pub fn expand(path: &str, env: &Environment) -> (r: UnixPath)
    ensures
        r@ == expanded(path@, path_view(env.home)),
{
    if let Some(rest) = below_home(path) {
        if let Some(home) = &env.home {
            return home.join_text(rest);
        }
    }
    UnixPath::from_text(path)
}

/// A path with `~/` at its begin replaced by the home directory, where there is
/// one. What is not text in such a path is replaced.
pub fn expanduser(path: &UnixPath, env: &Environment) -> (r: UnixPath)
    ensures
        r@ == (if is_below_home(shown_text(path@)) && env.home is Some {
            expanded(shown_text(path@), path_view(env.home))
        } else {
            path@
        }),
{
    let shown: String = path.display();
    if let Some(rest) = below_home(shown.as_str()) {
        if let Some(home) = &env.home {
            return home.join_text(rest);
        }
    }
    path.copied()
}

// ---------------------------------------------------------------------------
// Errors
// ---------------------------------------------------------------------------

/// Why a model or a voice cannot be resolved.
#[derive(Debug)]
pub enum EngineError {
    /// The configured model directory does not exist.
    ModelPathMissing { path: UnixPath },
    /// The model is not in the cache.
    ModelNotCached { id: String },
    /// Reference audio was given without its transcript.
    NoRefText,
    /// The voice is not in the registry.
    VoiceMissing { name: String, dir: UnixPath },
    /// There is no registry.
    NoRegistry(NoBaseDir),
}

impl EngineError {
    /// The message.
    pub open spec fn text(self) -> Seq<char> {
        match self {
            EngineError::ModelPathMissing { path } => "model.path "@ + shown_text(path@)
                + " does not exist"@,
            EngineError::ModelNotCached { id } => "model "@ + id@
                + " not found in the Hugging Face cache; download it or set model.path"@,
            EngineError::NoRefText => "--ref-audio requires --ref-text or --ref-text-file"@,
            EngineError::VoiceMissing { name, dir } => "voice '"@ + name@
                + "' not found in the registry ("@ + shown_text(dir@)
                + "). Add one with `spqx voices add "@ + name@
                + " --ref-audio <wav> --ref-text-file <txt>`, or pass --ref-audio/--ref-text directly."@,
            EngineError::NoRegistry(e) => e.text(),
        }
    }

    /// The message.
    pub fn message(&self) -> (r: String)
        ensures
            r@ == self.text(),
    {
        match self {
            EngineError::ModelPathMissing { path } => {
                let mut r: String = text::concat("model.path ", path.display().as_str());
                vstd::string::StringExecFns::append(&mut r, " does not exist");
                r
            },
            EngineError::ModelNotCached { id } => {
                let mut r: String = text::concat("model ", id.as_str());
                vstd::string::StringExecFns::append(
                    &mut r,
                    " not found in the Hugging Face cache; download it or set model.path",
                );
                r
            },
            EngineError::NoRefText => {
                "--ref-audio requires --ref-text or --ref-text-file".to_owned()
            },
            EngineError::VoiceMissing { name, dir } => {
                let mut r: String = text::concat("voice '", name.as_str());
                vstd::string::StringExecFns::append(&mut r, "' not found in the registry (");
                vstd::string::StringExecFns::append(&mut r, dir.display().as_str());
                vstd::string::StringExecFns::append(
                    &mut r,
                    "). Add one with `spqx voices add ",
                );
                vstd::string::StringExecFns::append(&mut r, name.as_str());
                vstd::string::StringExecFns::append(
                    &mut r,
                    " --ref-audio <wav> --ref-text-file <txt>`, or pass --ref-audio/--ref-text directly.",
                );
                r
            },
            EngineError::NoRegistry(e) => e.message(),
        }
    }
}

// ---------------------------------------------------------------------------
// The model
// ---------------------------------------------------------------------------

/// Where the model directory is looked for.
#[derive(Debug)]
pub enum ModelSource {
    /// In the configured place.
    Given { path: UnixPath },
    /// Among the snapshots in this directory.
    Cached { snapshots: UnixPath },
    /// There is no cache.
    Nowhere,
}

/// The model cache: the configured one, else the one below `HF_HOME`, else the
/// one below the home directory.
pub open spec fn model_cache(config: Config, env: Environment) -> Option<Seq<u8>> {
    match config.paths.models_dir {
        Some(dir) => Some(expanded(dir@, path_view(env.home))),
        None => match env.hf_home {
            Some(dir) => Some(joined_path(dir@, encode_utf8("hub"@))),
            None => match env.home {
                Some(dir) => Some(joined_path(dir@, encode_utf8(".cache/huggingface/hub"@))),
                None => None,
            },
        },
    }
}

/// Where a cache keeps the snapshots of a model.
pub open spec fn snapshots_in(cache: Seq<u8>, model_id: Seq<char>) -> Seq<u8> {
    joined_path(
        joined_path(cache, encode_utf8("models--"@ + replaced(model_id, '/', "--"@))),
        encode_utf8("snapshots"@),
    )
}

/// Where the snapshots of a model are, if there is a cache.
pub fn hf_snapshot(config: &Config, env: &Environment) -> (r: Option<UnixPath>)
    ensures
        match r {
            Some(dir) => model_cache(*config, *env) matches Some(cache) && dir@ == snapshots_in(
                cache,
                config.model.id@,
            ),
            None => model_cache(*config, *env) is None,
        },
{
    let cache: UnixPath = match &config.paths.models_dir {
        Some(dir) => expand(dir.as_str(), env),
        None => match &env.hf_home {
            Some(dir) => dir.join_text("hub"),
            None => match &env.home {
                Some(dir) => dir.join_text(".cache/huggingface/hub"),
                None => {
                    return None;
                },
            },
        },
    };
    let name: String = text::concat(
        "models--",
        text::replace(config.model.id.as_str(), '/', "--").as_str(),
    );
    Some(cache.join_text(name.as_str()).join_text("snapshots"))
}

/// Where to look for the local model directory: the explicit `model.path`, else
/// the cached snapshots of `model.id`.
pub fn resolve_model_dir(config: &Config, env: &Environment) -> (r: ModelSource)
    ensures
        match config.model.path {
            Some(path) => r matches ModelSource::Given { path: p } && p@ == expanded(
                path@,
                path_view(env.home),
            ),
            None => match model_cache(*config, *env) {
                Some(cache) => r matches ModelSource::Cached { snapshots } && snapshots@
                    == snapshots_in(cache, config.model.id@),
                None => r is Nowhere,
            },
        },
{
    match &config.model.path {
        Some(path) => ModelSource::Given { path: expand(path.as_str(), env) },
        None => match hf_snapshot(config, env) {
            Some(snapshots) => ModelSource::Cached { snapshots },
            None => ModelSource::Nowhere,
        },
    }
}

/// A snapshot of a model in the cache.
#[derive(Debug)]
pub struct Snapshot {
    /// The name of its directory.
    pub name: UnixPath,
    /// When it was last modified; later is greater.
    pub modified: u64,
}

/// Whether `b` is at least as new as `a`: it was modified later, or at the same
/// time and its name is not less.
pub open spec fn no_newer(a: Snapshot, b: Snapshot) -> bool {
    a.modified < b.modified || (a.modified == b.modified && lex_le(a.name@, b.name@))
}

/// Whether snapshot `i` is the newest of all.
pub open spec fn is_newest(all: Seq<Snapshot>, i: int) -> bool {
    &&& 0 <= i < all.len()
    &&& forall|j: int| 0 <= j < all.len() ==> no_newer(#[trigger] all[j], all[i])
}

/// The newest snapshot; of those that were modified at the same time, the one with
/// the greatest name.
pub fn newest_snapshot(all: &Vec<Snapshot>) -> (r: Option<usize>)
    ensures
        r is Some <==> all@.len() > 0,
        r matches Some(i) ==> {
            &&& is_newest(all@, i as int)
            &&& forall|j: int|
                0 <= j < all@.len() ==> (#[trigger] all@[j]).modified <= all@[i as int].modified
        },
{
    if all.len() == 0 {
        return None;
    }
    let mut best: usize = 0;
    let mut i: usize = 1;
    proof {
        text::lex_le_reflexive(all@[0].name@);
    }
    while i < all.len()
        invariant
            1 <= i <= all@.len(),
            best < i,
            forall|j: int| 0 <= j < i ==> no_newer(#[trigger] all@[j], all@[best as int]),
        decreases all@.len() - i,
    {
        let ghost before = all@[best as int];
        if all[best].modified < all[i].modified || (all[best].modified == all[i].modified
            && text::bytes_le(all[best].name.bytes.as_slice(), all[i].name.bytes.as_slice())) {
            best = i;
        }
        proof {
            let now = all@[best as int];
            text::lex_le_reflexive(now.name@);
            text::lex_le_total(before.name@, all@[i as int].name@);
            assert forall|j: int| 0 <= j < i + 1 implies no_newer(#[trigger] all@[j], now) by {
                if j < i {
                    assert(no_newer(all@[j], before));
                    if all@[j].modified == before.modified && before.modified == now.modified {
                        text::lex_le_transitive(all@[j].name@, before.name@, now.name@);
                    }
                }
            }
        }
        i += 1;
    }
    Some(best)
}

/// There is only one newest snapshot, as long as names differ: two that are newest
/// have one name.
pub proof fn newest_is_unique(all: Seq<Snapshot>, a: int, b: int)
    requires
        is_newest(all, a),
        is_newest(all, b),
    ensures
        all[a].name@ == all[b].name@,
        all[a].modified == all[b].modified,
{
    assert(no_newer(all[a], all[b]));
    assert(no_newer(all[b], all[a]));
    text::lex_le_antisymmetric(all[a].name@, all[b].name@);
}

/// A snapshot that was modified after all others is taken, whatever its name.
pub proof fn latest_snapshot_wins(all: Seq<Snapshot>, i: int, k: int)
    requires
        is_newest(all, i),
        0 <= k < all.len(),
        forall|j: int|
            0 <= j < all.len() && j != k ==> (#[trigger] all[j]).modified < all[k].modified,
    ensures
        i == k,
{
    assert(no_newer(all[k], all[i]));
}

/// The local model directory, given whether the configured one exists, and which
/// snapshots there are.
pub fn model_dir(
    config: &Config,
    source: &ModelSource,
    exists: bool,
    all: &Vec<Snapshot>,
) -> (r: Result<UnixPath, EngineError>)
    ensures
        match *source {
            ModelSource::Given { path } => match r {
                Ok(dir) => exists && dir@ == path@,
                Err(e) => !exists && (e matches EngineError::ModelPathMissing { path: p } && p@
                    == path@),
            },
            ModelSource::Cached { snapshots } => match r {
                Ok(dir) => exists|i: int| #[trigger]
                    is_newest(all@, i) && dir@ == joined_path(snapshots@, all@[i].name@),
                Err(e) => all@.len() == 0 && (e matches EngineError::ModelNotCached { id } && id@
                    == config.model.id@),
            },
            ModelSource::Nowhere => r matches Err(EngineError::ModelNotCached { id }) && id@
                == config.model.id@,
        },
{
    match source {
        ModelSource::Given { path } => {
            if exists {
                Ok(path.copied())
            } else {
                Err(EngineError::ModelPathMissing { path: path.copied() })
            }
        },
        ModelSource::Cached { snapshots } => match newest_snapshot(all) {
            Some(i) => Ok(snapshots.join(all[i].name.bytes.as_slice())),
            None => Err(EngineError::ModelNotCached { id: config.model.id.clone() }),
        },
        ModelSource::Nowhere => Err(EngineError::ModelNotCached { id: config.model.id.clone() }),
    }
}

/// Where a model directory keeps the weights of its audio tokenizer.
pub open spec fn tokenizer_of(model_dir: Seq<u8>) -> Seq<u8> {
    joined_path(
        joined_path(model_dir, encode_utf8("speech_tokenizer"@)),
        encode_utf8("model.safetensors"@),
    )
}

/// Where a model directory keeps the weights of its audio tokenizer.
pub fn tokenizer_path(model_dir: &UnixPath) -> (r: UnixPath)
    ensures
        r@ == tokenizer_of(model_dir@),
{
    model_dir.join_text("speech_tokenizer").join_text("model.safetensors")
}

// ---------------------------------------------------------------------------
// The reference voice
// ---------------------------------------------------------------------------

/// A resolved reference voice (audio and transcript) for cloning.
#[derive(Debug)]
pub struct Reference {
    pub wav: UnixPath,
    pub text: String,
    pub label: String,
}

/// Where text comes from.
#[derive(Debug)]
pub enum Transcript {
    /// It is given.
    Text(String),
    /// It is what a file holds, without the white space around it.
    File(UnixPath),
}

/// What a file with text in it holds.
pub fn file_text(content: &str) -> (r: String)
    ensures
        r@ == trimmed(content@),
{
    text::trim(content).to_owned()
}

/// Where a reference voice comes from.
#[derive(Debug)]
pub enum ReferenceSource {
    /// It is given in full.
    Given(Reference),
    /// The audio is given; the transcript is read from a file.
    TextFile { wav: UnixPath, file: UnixPath },
    /// It is in the registry.
    Registry(RegistryVoice),
}

/// A voice in the registry.
#[derive(Debug)]
pub struct RegistryVoice {
    pub name: String,
    pub dir: UnixPath,
    pub wav: UnixPath,
    pub txt: UnixPath,
}

impl RegistryVoice {
    /// Whether this is the voice called `name` in `registry`.
    pub open spec fn is_voice(self, registry: Seq<u8>, name: Seq<char>) -> bool {
        &&& self.name@ == name
        &&& self.dir@ == joined_path(registry, encode_utf8(name))
        &&& self.wav@ == joined_path(self.dir@, encode_utf8("reference.wav"@))
        &&& self.txt@ == joined_path(self.dir@, encode_utf8("reference.txt"@))
    }
}

/// The registry directory.
pub open spec fn registry_dir(config: Config, env: Environment) -> Option<Seq<u8>> {
    match config.paths.voices_dir {
        Some(dir) => Some(expanded(dir@, path_view(env.home))),
        None => below(below(env.data_base(), APP_NAME@), "voices"@),
    }
}

/// The registry directory: the configured one, else the standard one.
pub fn voices_dir(config: &Config, env: &Environment) -> (r: Result<UnixPath, NoBaseDir>)
    ensures
        match r {
            Ok(dir) => registry_dir(*config, *env) == Some(dir@),
            Err(e) => registry_dir(*config, *env) is None && e.variable@ == "XDG_DATA_HOME"@,
        },
{
    match &config.paths.voices_dir {
        Some(dir) => Ok(expand(dir.as_str(), env)),
        None => paths::voices_dir(env),
    }
}

/// The voice called `name` in a registry.
pub fn registry_voice(registry: &UnixPath, name: &str) -> (r: RegistryVoice)
    ensures
        r.is_voice(registry@, name@),
{
    let dir: UnixPath = registry.join_text(name);
    RegistryVoice {
        name: name.to_owned(),
        wav: dir.join_text("reference.wav"),
        txt: dir.join_text("reference.txt"),
        dir,
    }
}

/// Whether `r` is the reference voice that is asked for: from explicit paths,
/// else a registry voice name, else the default voice of the configuration.
pub open spec fn resolves_reference(
    r: Result<ReferenceSource, EngineError>,
    config: Config,
    env: Environment,
    voice: Option<String>,
    ref_audio: Option<UnixPath>,
    ref_text: Option<String>,
    ref_text_file: Option<UnixPath>,
) -> bool {
    match ref_audio {
        Some(wav) => match ref_text {
            Some(text) => r matches Ok(ReferenceSource::Given(reference)) && reference.wav@ == wav@
                && reference.text@ == text@ && reference.label@ == shown_text(wav@),
            None => match ref_text_file {
                Some(file) => r matches Ok(ReferenceSource::TextFile { wav: w, file: f }) && w@
                    == wav@ && f@ == file@,
                None => r matches Err(e) && e is NoRefText,
            },
        },
        None => {
            let name = match voice {
                Some(name) => name@,
                None => config.voice.default@,
            };
            match registry_dir(config, env) {
                Some(dir) => r matches Ok(ReferenceSource::Registry(found)) && found.is_voice(
                    dir,
                    name,
                ),
                None => r matches Err(EngineError::NoRegistry(e)) && e.variable@
                    == "XDG_DATA_HOME"@,
            }
        },
    }
}

/// Resolves a reference voice from explicit paths, else a registry voice name,
/// else the default voice of the configuration.
pub fn resolve_reference(
    config: &Config,
    env: &Environment,
    voice: &Option<String>,
    ref_audio: &Option<UnixPath>,
    ref_text: &Option<String>,
    ref_text_file: &Option<UnixPath>,
) -> (r: Result<ReferenceSource, EngineError>)
    ensures
        resolves_reference(
            r,
            *config,
            *env,
            *voice,
            *ref_audio,
            *ref_text,
            *ref_text_file,
        ),
{
    if let Some(wav) = ref_audio {
        if let Some(given) = ref_text {
            return Ok(
                ReferenceSource::Given(
                    Reference { wav: wav.copied(), text: given.clone(), label: wav.display() },
                ),
            );
        }
        if let Some(file) = ref_text_file {
            return Ok(ReferenceSource::TextFile { wav: wav.copied(), file: file.copied() });
        }
        return Err(EngineError::NoRefText);
    }
    let name: &str = match voice {
        Some(name) => name.as_str(),
        None => config.voice.default.as_str(),
    };
    match voices_dir(config, env) {
        Ok(registry) => Ok(ReferenceSource::Registry(registry_voice(&registry, name))),
        Err(e) => Err(EngineError::NoRegistry(e)),
    }
}

/// A reference whose transcript was read from a file.
pub fn reference_from_file(wav: &UnixPath, content: &str) -> (r: Reference)
    ensures
        r.wav@ == wav@,
        r.text@ == trimmed(content@),
        r.label@ == shown_text(wav@),
{
    Reference {
        wav: wav.copied(),
        text: text::trim(content).to_owned(),
        label: wav.display(),
    }
}

/// Whether a registry voice is there, given whether each of its files exists.
pub fn check_voice(voice: &RegistryVoice, wav_exists: bool, txt_exists: bool) -> (r: Result<
    (),
    EngineError,
>)
    ensures
        r is Ok <==> wav_exists && txt_exists,
        r matches Err(e) ==> (e matches EngineError::VoiceMissing { name, dir } && name@
            == voice.name@ && dir@ == voice.dir@),
{
    if wav_exists && txt_exists {
        Ok(())
    } else {
        Err(EngineError::VoiceMissing { name: voice.name.clone(), dir: voice.dir.copied() })
    }
}

/// A registry voice whose transcript has been read.
pub fn reference_from_registry(voice: &RegistryVoice, content: &str) -> (r: Reference)
    ensures
        r.wav@ == voice.wav@,
        r.text@ == trimmed(content@),
        r.label@ == voice.name@,
{
    Reference {
        wav: voice.wav.copied(),
        text: text::trim(content).to_owned(),
        label: voice.name.clone(),
    }
}

// ---------------------------------------------------------------------------
// Synthesis
// ---------------------------------------------------------------------------

/// The codec frames that are decoded at a time.
pub const STREAMING_CHUNK_SIZE: usize = 4;

/// What is handed to the engine for a synthesis run.
#[derive(Debug)]
pub struct SynthRequest {
    /// The transcript of the reference.
    pub ref_text: String,
    /// The reference audio.
    pub ref_path: String,
    pub language: String,
    pub text: String,
    pub temperature: Double,
    pub top_k: i64,
    pub max_new_tokens: i64,
    pub streaming_chunk_size: usize,
    pub tokenizer_path: UnixPath,
}

/// What is handed to the engine to speak `text` with a reference voice, and the
/// meter for the audio that comes back; nothing if the path of the reference is
/// not text.
pub fn synthesize_streaming(
    config: &Config,
    reference: &Reference,
    text: &str,
    model_dir: &UnixPath,
    ungated: bool,
) -> (r: Option<(SynthRequest, SynthMeter)>)
    ensures
        r is Some <==> vstd::utf8::valid_utf8(reference.wav@),
        r matches Some((request, meter)) ==> {
            &&& request.ref_text@ == reference.text@
            &&& request.ref_path@ == vstd::utf8::decode_utf8(reference.wav@)
            &&& request.language@ == config.voice.language@
            &&& request.text@ == text@
            &&& request.temperature == config.sampling.temperature
            &&& request.top_k == config.sampling.top_k
            &&& request.max_new_tokens == i64::MAX
            &&& request.streaming_chunk_size == STREAMING_CHUNK_SIZE
            &&& request.tokenizer_path@ == tokenizer_of(model_dir@)
            &&& meter == (SynthMeter {
                sample_rate: config.audio.sample_rate_hz,
                ungated,
                heard: false,
                audio_samples: 0,
            })
        },
{
    match text::from_utf8(reference.wav.bytes.as_slice()) {
        Ok(path) => Some(
            (
                SynthRequest {
                    ref_text: reference.text.clone(),
                    ref_path: path.to_owned(),
                    language: config.voice.language.clone(),
                    text: text.to_owned(),
                    temperature: config.sampling.temperature,
                    top_k: config.sampling.top_k,
                    max_new_tokens: i64::MAX,
                    streaming_chunk_size: STREAMING_CHUNK_SIZE,
                    tokenizer_path: tokenizer_path(model_dir),
                },
                SynthMeter::new(config.audio.sample_rate_hz, ungated),
            ),
        ),
        Err(_) => None,
    }
}

/// A synthesis run on its way: cleans up the first chunk and counts samples.
#[derive(Debug)]
pub struct SynthMeter {
    /// The rate of the samples.
    pub sample_rate: u32,
    /// Whether output cleanup is bypassed.
    pub ungated: bool,
    /// Whether a chunk has come.
    pub heard: bool,
    /// How many samples have come.
    pub audio_samples: usize,
}

impl SynthMeter {
    /// A run before the first chunk.
    pub fn new(sample_rate: u32, ungated: bool) -> (r: Self)
        ensures
            r == (SynthMeter { sample_rate, ungated, heard: false, audio_samples: 0 }),
    {
        SynthMeter { sample_rate, ungated, heard: false, audio_samples: 0 }
    }

    /// Takes a chunk at the output rate, and cleans it up if it is the first.
    /// Returns whether it is.
    pub fn take_chunk(&mut self, samples: &mut Vec<Sample>) -> (first: bool)
        requires
            old(self).audio_samples + old(samples)@.len() <= usize::MAX,
        ensures
            *final(self) == (SynthMeter {
                heard: true,
                audio_samples: (old(self).audio_samples + old(samples)@.len()) as usize,
                ..*old(self)
            }),
            first == !old(self).heard,
            if old(self).heard || old(self).ungated {
                final(samples)@ == old(samples)@
            } else {
                is_cleaned(final(samples)@, old(samples)@, old(self).sample_rate)
            },
    {
        let first: bool = !self.heard;
        self.heard = true;
        if first && !self.ungated {
            gate_leading_nonspeech(samples, self.sample_rate);
        }
        self.audio_samples = self.audio_samples + samples.len();
        first
    }

    /// How long the audio is.
    pub fn audio(&self) -> (r: Seconds)
        ensures
            r == (Seconds { samples: self.audio_samples, sample_rate: self.sample_rate }),
    {
        Seconds { samples: self.audio_samples, sample_rate: self.sample_rate }
    }
}

// ---------------------------------------------------------------------------
// What is resolved
// ---------------------------------------------------------------------------

/// `~/` at the begin of a path is the home directory, and any other path is taken as it
/// stands.
pub proof fn tilde_is_home(path: Seq<char>, rest: Seq<char>, home: Seq<u8>)
    ensures
        expanded("~/"@ + rest, Some(home)) == joined_path(home, encode_utf8(rest)),
        expanded("~/"@ + rest, None) == encode_utf8("~/"@ + rest),
        !"~/"@.is_prefix_of(path) ==> expanded(path, Some(home)) == encode_utf8(path),
{
    reveal_strlit("~/");
    let tilde = "~/"@;
    let p = tilde + rest;
    assert(p[0] == '~' && p[1] == '/');
    assert(p.skip(2) =~= rest);
    if is_below_home(path) {
        assert(path.subrange(0, 2) =~= tilde);
        assert(tilde.is_prefix_of(path));
    }
}

/// Where models are looked for: in the configured cache, else in `hub` below `HF_HOME`,
/// else in the cache below the home directory, else nowhere.
pub proof fn model_cache_has_an_order(config: Config, env: Environment)
    ensures
        config.paths.models_dir matches Some(dir) ==> model_cache(config, env) == Some(
            expanded(dir@, path_view(env.home)),
        ),
        config.paths.models_dir is None && env.hf_home is Some ==> model_cache(config, env) == Some(
            joined_path(env.hf_home->0@, encode_utf8("hub"@)),
        ),
        config.paths.models_dir is None && env.hf_home is None && env.home is Some ==> model_cache(
            config,
            env,
        ) == Some(joined_path(env.home->0@, encode_utf8(".cache/huggingface/hub"@))),
        config.paths.models_dir is None && env.hf_home is None && env.home is None ==> model_cache(
            config,
            env,
        ) is None,
{
}

/// The snapshots of a model lie in a directory that is named by its id, with two hyphens
/// for each slash: ids `a/b` and `a` are `models--a--b` and `models--a`.
pub proof fn snapshots_are_named_by_the_id(cache: Seq<u8>, a: Seq<char>, b: Seq<char>)
    requires
        !a.contains('/'),
        !b.contains('/'),
    ensures
        snapshots_in(cache, a + seq!['/'] + b) == joined_path(
            joined_path(cache, encode_utf8("models--"@ + a + "--"@ + b)),
            encode_utf8("snapshots"@),
        ),
        snapshots_in(cache, a) == joined_path(
            joined_path(cache, encode_utf8("models--"@ + a)),
            encode_utf8("snapshots"@),
        ),
{
    let to = "--"@;
    text::replacing_nothing(a, '/', to);
    text::replacing_nothing(b, '/', to);
    text::replacing_is_piece_by_piece(a, seq!['/'], '/', '/', to);
    text::replacing_is_piece_by_piece(a + seq!['/'], b, '/', '/', to);
    let id = replaced(a + seq!['/'] + b, '/', to);
    assert("models--"@ + id =~= "models--"@ + a + to + b);
}

/// The registry is the configured directory, else the standard one.
pub proof fn registry_has_an_order(config: Config, env: Environment)
    ensures
        config.paths.voices_dir matches Some(dir) ==> registry_dir(config, env) == Some(
            expanded(dir@, path_view(env.home)),
        ),
        config.paths.voices_dir is None ==> registry_dir(config, env) == (match env.data_base() {
            Some(base) => Some(
                joined_path(joined_path(base, encode_utf8("spqx"@)), encode_utf8("voices"@)),
            ),
            None => None,
        }),
{
}

/// A voice is kept in a directory under its name: its recording in `reference.wav`, its
/// transcript in `reference.txt`.
pub proof fn voices_have_two_files(voice: RegistryVoice, registry: Seq<u8>, name: Seq<char>)
    requires
        voice.is_voice(registry, name),
    ensures
        voice.name@ == name,
        voice.dir@ == joined_path(registry, encode_utf8(name)),
        voice.wav@ == joined_path(
            joined_path(registry, encode_utf8(name)),
            encode_utf8("reference.wav"@),
        ),
        voice.txt@ == joined_path(
            joined_path(registry, encode_utf8(name)),
            encode_utf8("reference.txt"@),
        ),
{
}

/// Explicit reference audio wins over any voice: it is used with the given transcript,
/// else with the one in the given file, else it is an error.
pub proof fn explicit_audio_wins(
    r: Result<ReferenceSource, EngineError>,
    config: Config,
    env: Environment,
    voice: Option<String>,
    wav: UnixPath,
    ref_text: Option<String>,
    ref_text_file: Option<UnixPath>,
)
    requires
        resolves_reference(r, config, env, voice, Some(wav), ref_text, ref_text_file),
    ensures
        ref_text is Some ==> (r matches Ok(ReferenceSource::Given(found)) && found.wav@ == wav@
            && found.text@ == ref_text->0@ && found.label@ == shown_text(wav@)),
        ref_text is None && ref_text_file is Some ==> (r matches Ok(
            ReferenceSource::TextFile { wav: w, file },
        ) && w@ == wav@ && file@ == ref_text_file->0@),
        ref_text is None && ref_text_file is None ==> (r matches Err(e) && e is NoRefText),
{
}

/// Without reference audio the voice is looked up in the registry, by the given name or
/// else by the default of the configuration; a transcript without audio does not matter.
pub proof fn voices_are_looked_up_by_name(
    r: Result<ReferenceSource, EngineError>,
    config: Config,
    env: Environment,
    voice: Option<String>,
    ref_text: Option<String>,
    ref_text_file: Option<UnixPath>,
)
    requires
        resolves_reference(r, config, env, voice, None, ref_text, ref_text_file),
    ensures
        ({
            let name = if voice is Some {
                voice->0@
            } else {
                config.voice.default@
            };
            &&& registry_dir(config, env) matches Some(dir) ==> (r matches Ok(
                ReferenceSource::Registry(found),
            ) && found.is_voice(dir, name))
            &&& registry_dir(config, env) is None ==> r is Err
        }),
{
}

/// The weights of the audio tokenizer lie in `speech_tokenizer` below the model.
pub proof fn tokenizer_lies_below_the_model(model_dir: Seq<u8>)
    ensures
        tokenizer_of(model_dir) == joined_path(
            joined_path(model_dir, encode_utf8("speech_tokenizer"@)),
            encode_utf8("model.safetensors"@),
        ),
{
}

/// Of snapshots that were modified at one time, the one with the greatest name is taken.
pub proof fn names_decide_ties(all: Seq<Snapshot>, i: int, j: int)
    requires
        is_newest(all, i),
        0 <= j < all.len(),
        all[j].modified == all[i].modified,
    ensures
        lex_le(all[j].name@, all[i].name@),
{
    assert(no_newer(all[j], all[i]));
}

/// An error names what is missing: the path, the model, or the voice and its directory.
pub proof fn errors_name_what_is_missing(
    path: UnixPath,
    id: String,
    name: String,
    dir: UnixPath,
)
    ensures
        (EngineError::ModelPathMissing { path }).text() == "model.path "@ + shown_text(path@)
            + " does not exist"@,
        (EngineError::ModelNotCached { id }).text() == "model "@ + id@
            + " not found in the Hugging Face cache; download it or set model.path"@,
        (EngineError::VoiceMissing { name, dir }).text() == "voice '"@ + name@
            + "' not found in the registry ("@ + shown_text(dir@)
            + "). Add one with `spqx voices add "@ + name@
            + " --ref-audio <wav> --ref-text-file <txt>`, or pass --ref-audio/--ref-text directly."@,
        EngineError::NoRefText.text() == "--ref-audio requires --ref-text or --ref-text-file"@,
{
}

} // verus!
