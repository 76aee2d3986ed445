//! Local text-to-speech with voice cloning: everything around the model.
//!
//! The library decides what is spoken with which voice, cleans up and frames the
//! audio that a model generates, and speaks the protocol of a persistent worker.
//! It does no input or output: files, streams, playback and the model itself are
//! left to the caller.

pub mod cli;
pub mod codes;
pub mod config;
pub mod doubles;
pub mod engine;
pub mod frame;
pub mod gating;
pub mod hygiene;
pub mod json_worker;
pub mod path;
pub mod paths;
pub mod pcm;
pub mod playback;
pub mod postprocess;
pub mod rounding;
pub mod sample;
pub mod say;
pub mod scaling;
pub mod seconds;
pub mod serve;
pub mod text;
pub mod voices;
pub mod worker;
pub mod worker_args;
