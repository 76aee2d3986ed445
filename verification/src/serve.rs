//! `spqx serve`: the worker behind the unified command line, with defaults drawn
//! from the configuration while flags override.

use crate::config::Config;
use crate::engine::{Reference, STREAMING_CHUNK_SIZE};
use crate::path::UnixPath;
use crate::worker::{
    at_least_one, language_code, language_name, normalize_language, WorkerConfig,
};
use vstd::prelude::*;

verus! {

/// The output chunk size in samples where none is given.
pub const DEFAULT_BLOCKSIZE: usize = 2048;

/// The most codec frames that are generated for a request.
pub const MAX_NEW_TOKENS: i64 = 1536;

/// The arguments of `spqx serve`.
#[derive(Debug)]
pub struct ServeArgs {
    /// Voice: a registry name or the config default.
    pub voice: Option<String>,
    /// Reference WAV (bypasses the registry).
    pub ref_audio: Option<UnixPath>,
    /// Transcript of the reference WAV.
    pub ref_text: Option<String>,
    /// File containing the transcript of the reference WAV.
    pub ref_text_file: Option<UnixPath>,
    /// Override the output PCM sample rate.
    pub output_sample_rate: Option<u32>,
    /// Output chunk size in samples.
    pub blocksize: usize,
}

/// The worker to run, for a resolved voice and model.
pub fn run(args: &ServeArgs, config: &Config, reference: Reference, model_path: UnixPath) -> (r:
    WorkerConfig)
    ensures
        r.model_path == model_path,
        r.ref_audio == reference.wav,
        r.ref_text == reference.text,
        r.language@ == language_name(language_code(config.voice.language@)),
        r.temperature == config.sampling.temperature,
        r.top_k == config.sampling.top_k,
        r.max_new_tokens == MAX_NEW_TOKENS,
        r.output_sample_rate == (match args.output_sample_rate {
            Some(rate) => rate,
            None => config.audio.sample_rate_hz,
        }),
        r.blocksize == at_least_one(args.blocksize as int),
        r.streaming_chunk_size == STREAMING_CHUNK_SIZE,
{
    WorkerConfig {
        model_path,
        ref_audio: reference.wav,
        ref_text: reference.text,
        language: normalize_language(config.voice.language.as_str()),
        temperature: config.sampling.temperature,
        top_k: config.sampling.top_k,
        max_new_tokens: MAX_NEW_TOKENS,
        output_sample_rate: match args.output_sample_rate {
            Some(rate) => rate,
            None => config.audio.sample_rate_hz,
        },
        blocksize: if args.blocksize < 1 {
            1
        } else {
            args.blocksize
        },
        streaming_chunk_size: STREAMING_CHUNK_SIZE,
    }
}

} // verus!
