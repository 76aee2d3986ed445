//! The flags of the standalone worker, which reads no configuration file.

use crate::engine::{expanded, expanduser, is_below_home, Transcript};
use crate::path::UnixPath;
use crate::paths::{path_view, Environment};
use crate::sample::Double;
use crate::text::{self, shown_text, trimmed};
use crate::worker::{
    at_least_one, language_code, language_name, normalize_language, WorkerConfig,
};
use vstd::prelude::*;

verus! {

/// The model directory where none is given.
pub const DEFAULT_MODEL_PATH: &'static str =
    "/tmp/qwen3-tts.cpp/models/Qwen3-TTS-12Hz-0.6B-Base";

/// The reference transcript where none is given.
pub const DEFAULT_REF_TEXT: &'static str =
    "I'm confused why some people have super short timelines, yet at the same time are bullish on scaling up reinforcement learning atop LLMs. If we're actually close to a human-like learner, then this whole approach of training on verifiable outcomes.";

/// The most codec frames that are generated where no number is given.
pub const DEFAULT_MAX_NEW_TOKENS: i64 = 1536;

/// The output chunk size in samples where none is given.
pub const DEFAULT_BLOCKSIZE: usize = 512;

/// The codec frames decoded at a time where no number is given.
pub const DEFAULT_CHUNK_SIZE: i64 = 4;

/// The flags of the standalone worker.
#[derive(Debug)]
pub struct WorkerArgs {
    /// Run as a persistent worker.
    pub serve: bool,
    /// Path to the model directory.
    pub model_path: UnixPath,
    /// Target text for one-shot generation.
    pub text: Option<String>,
    /// File containing target text for one-shot generation.
    pub text_file: Option<UnixPath>,
    /// One-shot output WAV path.
    pub output: UnixPath,
    /// Reference WAV for voice cloning.
    pub ref_audio: UnixPath,
    /// Reference transcript.
    pub ref_text: Option<String>,
    /// File containing the reference transcript.
    pub ref_text_file: Option<UnixPath>,
    /// Target language.
    pub language: String,
    /// Codec frames decoded at a time.
    pub streaming_chunk_size: Option<i64>,
    /// Maximum generated codec frames.
    pub max_new_tokens: i64,
    /// Output chunk size in samples.
    pub blocksize: usize,
    /// PCM output sample rate.
    pub output_sample_rate: u32,
    /// Sampling temperature.
    pub temperature: Double,
    /// Top-k sampling.
    pub top_k: i64,
}

/// A path below the home directory, where it begins with `~/`.
pub open spec fn user_path(path: Seq<u8>, env: Environment) -> Seq<u8> {
    if is_below_home(shown_text(path)) && env.home is Some {
        expanded(shown_text(path), path_view(env.home))
    } else {
        path
    }
}

/// Where the reference transcript comes from: a file comes first, then text, then
/// the default.
pub fn resolve_ref_text(args: &WorkerArgs, env: &Environment) -> (r: Transcript)
    ensures
        match args.ref_text_file {
            Some(file) => r matches Transcript::File(path) && path@ == user_path(file@, *env),
            None => match args.ref_text {
                Some(given) => r matches Transcript::Text(t) && t@ == trimmed(given@),
                None => r matches Transcript::Text(t) && t@ == DEFAULT_REF_TEXT@,
            },
        },
{
    if let Some(file) = &args.ref_text_file {
        return Transcript::File(expanduser(file, env));
    }
    if let Some(given) = &args.ref_text {
        return Transcript::Text(text::trim(given.as_str()).to_owned());
    }
    Transcript::Text(DEFAULT_REF_TEXT.to_owned())
}

/// Where the text of a one-shot generation comes from: text comes first, then a
/// file; there has to be one.
pub fn target_text(args: &WorkerArgs, env: &Environment) -> (r: Option<Transcript>)
    ensures
        match args.text {
            Some(given) => r matches Some(Transcript::Text(t)) && t@ == trimmed(given@),
            None => match args.text_file {
                Some(file) => r matches Some(Transcript::File(path)) && path@ == user_path(
                    file@,
                    *env,
                ),
                None => r is None,
            },
        },
{
    if let Some(given) = &args.text {
        return Some(Transcript::Text(text::trim(given.as_str()).to_owned()));
    }
    if let Some(file) = &args.text_file {
        return Some(Transcript::File(expanduser(file, env)));
    }
    None
}

/// The message for a one-shot generation without text.
pub fn no_target_message() -> (r: String)
    ensures
        r@ == "provide --text or --text-file"@,
{
    "provide --text or --text-file".to_owned()
}

/// The codec frames decoded at a time.
pub open spec fn chunk_size(given: Option<i64>) -> int {
    at_least_one(
        match given {
            Some(n) => n as int,
            None => DEFAULT_CHUNK_SIZE as int,
        },
    )
}

/// The worker to run, for a resolved reference transcript.
pub fn worker_config(args: &WorkerArgs, env: &Environment, ref_text: String) -> (r: WorkerConfig)
    ensures
        r.model_path@ == user_path(args.model_path@, *env),
        r.ref_audio@ == user_path(args.ref_audio@, *env),
        r.ref_text == ref_text,
        r.language@ == language_name(language_code(args.language@)),
        r.temperature == args.temperature,
        r.top_k == args.top_k,
        r.max_new_tokens == args.max_new_tokens,
        r.output_sample_rate == args.output_sample_rate,
        r.blocksize == at_least_one(args.blocksize as int),
        r.streaming_chunk_size == chunk_size(args.streaming_chunk_size) as usize,
{
    let wanted: i64 = match args.streaming_chunk_size {
        Some(n) => n,
        None => DEFAULT_CHUNK_SIZE,
    };
    WorkerConfig {
        model_path: expanduser(&args.model_path, env),
        ref_audio: expanduser(&args.ref_audio, env),
        ref_text,
        language: normalize_language(args.language.as_str()),
        temperature: args.temperature,
        top_k: args.top_k,
        max_new_tokens: args.max_new_tokens,
        output_sample_rate: args.output_sample_rate,
        blocksize: if args.blocksize < 1 {
            1
        } else {
            args.blocksize
        },
        streaming_chunk_size: if wanted < 1 {
            1
        } else {
            #[verifier::truncate]
            (wanted as usize)
        },
    }
}

/// Codec frames are decoded as many at a time as is asked for, but at least one; four
/// where nothing is asked for.
pub proof fn chunk_size_is_kept(given: Option<i64>)
    ensures
        given is None ==> chunk_size(given) == 4,
        given matches Some(n) ==> chunk_size(given) == (if n < 1 {
            1int
        } else {
            n as int
        }),
{
}

/// A path that begins with `~/` is taken below the home directory, and any other as it
/// stands.
pub proof fn user_paths_are_expanded(path: Seq<u8>, env: Environment)
    ensures
        ({
            let shown = shown_text(path);
            &&& shown.len() >= 2 && shown[0] == '~' && shown[1] == '/' && env.home is Some
                ==> user_path(path, env) == crate::path::joined_path(
                env.home->0@,
                vstd::utf8::encode_utf8(shown.skip(2)),
            )
            &&& !(shown.len() >= 2 && shown[0] == '~' && shown[1] == '/' && env.home is Some)
                ==> user_path(path, env) == path
        }),
{
}

} // verus!
