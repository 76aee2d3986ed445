//! `spqx say`: what is spoken, whether it is played, and where it is written.

use crate::cli::CommonOpts;
use crate::config::Config;
use crate::engine::{
    resolve_reference, resolves_reference, EngineError, ReferenceSource,
};
use crate::path::{component_count, is_absolute_path, joined_path, UnixPath};
use crate::paths::Environment;
use crate::text::{self, trimmed};
use vstd::prelude::*;
use vstd::utf8::encode_utf8;

verus! {

/// The arguments of `spqx say`.
#[derive(Debug)]
pub struct SayArgs {
    /// Text to speak. Omit or use "-" to read from stdin.
    pub text: Option<String>,
    /// Voice: a registry name or the config default.
    pub voice: Option<String>,
    /// Reference WAV for ad-hoc voice cloning (bypasses the registry).
    pub ref_audio: Option<UnixPath>,
    /// Transcript of the reference WAV.
    pub ref_text: Option<String>,
    /// File containing the transcript of the reference WAV.
    pub ref_text_file: Option<UnixPath>,
    /// Write synthesized audio to this WAV file.
    pub out: Option<UnixPath>,
    /// Do not play audio live (implied when only `out` is given with `quiet`).
    pub no_play: bool,
}

/// Why nothing is said.
#[derive(Debug)]
pub enum SayError {
    /// There is no text.
    NoText,
    /// There is no voice.
    NoVoice(EngineError),
}

impl SayError {
    /// The message.
    pub fn message(&self) -> (r: String)
        ensures
            r@ == match *self {
                SayError::NoText => "no text to speak (pass TEXT or pipe it on stdin)"@,
                SayError::NoVoice(e) => e.text(),
            },
    {
        match self {
            SayError::NoText => "no text to speak (pass TEXT or pipe it on stdin)".to_owned(),
            SayError::NoVoice(e) => e.message(),
        }
    }
}

/// Whether the text is read from stdin.
pub open spec fn from_stdin(text: Option<String>) -> bool {
    match text {
        Some(text) => text@ == "-"@,
        None => true,
    }
}

/// Whether the text is read from stdin.
pub fn reads_stdin(args: &SayArgs) -> (r: bool)
    ensures
        r == from_stdin(args.text),
{
    match &args.text {
        Some(text) => text::same_text(text.as_str(), "-"),
        None => true,
    }
}

/// What is said and where it goes.
#[derive(Debug)]
pub struct SayPlan {
    /// What is said.
    pub text: String,
    /// Where the voice comes from.
    pub reference: ReferenceSource,
    /// Whether the audio is played live.
    pub play: bool,
    /// Where the audio is written.
    pub out: Option<UnixPath>,
}

/// Whether the audio is played live.
pub open spec fn plays(args: SayArgs, common: CommonOpts, config: Config) -> bool {
    &&& config.audio.play
    &&& !args.no_play
    &&& !(args.out is Some && common.quiet)
}

/// Where audio is written: a bare name goes to the output directory, where there
/// is one.
pub open spec fn out_path(config: Config, out: Seq<u8>) -> Seq<u8> {
    if is_absolute_path(out) || component_count(out, out.len() as int) > 1 {
        out
    } else {
        match config.audio.output_dir {
            Some(dir) => joined_path(encode_utf8(dir@), out),
            None => out,
        }
    }
}

/// Where audio is written: a bare name goes to the output directory, where there
/// is one.
pub fn resolve_out(config: &Config, out: &UnixPath) -> (r: UnixPath)
    ensures
        r@ == out_path(*config, out@),
{
    if out.is_absolute() || out.components() > 1 {
        return out.copied();
    }
    match &config.audio.output_dir {
        Some(dir) => UnixPath::from_text(dir.as_str()).join(out.bytes.as_slice()),
        None => out.copied(),
    }
}

/// The text to speak, given what stdin holds.
pub open spec fn spoken_text(text: Option<String>, stdin: Seq<char>) -> Seq<char> {
    if from_stdin(text) {
        stdin
    } else {
        text->0@
    }
}

/// Plans what is said, given what stdin holds; where the text does not come from
/// there, that does not matter.
pub fn run(args: &SayArgs, common: &CommonOpts, config: &Config, env: &Environment, stdin: &str) -> (r:
    Result<SayPlan, SayError>)
    ensures
        match r {
            Ok(plan) => {
                &&& plan.text@ == spoken_text(args.text, stdin@)
                &&& trimmed(plan.text@).len() > 0
                &&& resolves_reference(
                    Ok(plan.reference),
                    *config,
                    *env,
                    args.voice,
                    args.ref_audio,
                    args.ref_text,
                    args.ref_text_file,
                )
                &&& plan.play == plays(*args, *common, *config)
                &&& match (plan.out, args.out) {
                    (Some(path), Some(out)) => path@ == out_path(*config, out@),
                    (None, None) => true,
                    _ => false,
                }
            },
            Err(SayError::NoText) => trimmed(spoken_text(args.text, stdin@)).len() == 0,
            Err(SayError::NoVoice(e)) => {
                &&& trimmed(spoken_text(args.text, stdin@)).len() > 0
                &&& resolves_reference(
                    Err(e),
                    *config,
                    *env,
                    args.voice,
                    args.ref_audio,
                    args.ref_text,
                    args.ref_text_file,
                )
            },
        },
{
    let spoken: &str = match &args.text {
        Some(given) => if text::same_text(given.as_str(), "-") {
            stdin
        } else {
            given.as_str()
        },
        None => stdin,
    };
    if text::trim(spoken).is_empty() {
        return Err(SayError::NoText);
    }
    match resolve_reference(
        config,
        env,
        &args.voice,
        &args.ref_audio,
        &args.ref_text,
        &args.ref_text_file,
    ) {
        Ok(reference) => Ok(
            SayPlan {
                text: spoken.to_owned(),
                reference,
                play: config.audio.play && !args.no_play && !(args.out.is_some() && common.quiet),
                out: match &args.out {
                    Some(out) => Some(resolve_out(config, out)),
                    None => None,
                },
            },
        ),
        Err(e) => Err(SayError::NoVoice(e)),
    }
}

/// How a run is reported.
#[derive(Clone, Copy, Debug, PartialEq, Eq, Structural)]
pub enum Report {
    /// As JSON on stdout.
    Json,
    /// As a line on stderr.
    Line,
    /// Not at all.
    Nothing,
}

/// How a run is reported.
pub fn report(common: &CommonOpts) -> (r: Report)
    ensures
        r == (if common.json {
            Report::Json
        } else if common.quiet {
            Report::Nothing
        } else {
            Report::Line
        }),
{
    if common.json {
        Report::Json
    } else if common.quiet {
        Report::Nothing
    } else {
        Report::Line
    }
}

/// A bare name is put behind the output directory: the path that is written begins
/// with the bytes of the directory's path, and ends with the name. A name that leads
/// back up, `..`, is not told apart.
pub proof fn bare_name_goes_to_the_output_dir(config: Config, out: Seq<u8>)
    requires
        !is_absolute_path(out),
        component_count(out, out.len() as int) <= 1,
    ensures
        match config.audio.output_dir {
            Some(dir) => encode_utf8(dir@).is_prefix_of(out_path(config, out))
                && out.is_suffix_of(out_path(config, out)),
            None => out_path(config, out) == out,
        },
{
    if let Some(dir) = config.audio.output_dir {
        crate::path::joining_stays_below(encode_utf8(dir@), out);
    }
}

/// What is spoken: the text that is given, whatever it is, or what stdin holds if none
/// is given or a hyphen alone.
pub proof fn given_text_is_spoken(text: Option<String>, stdin: Seq<char>)
    ensures
        text is None ==> spoken_text(text, stdin) == stdin && from_stdin(text),
        text matches Some(t) && t@ == "-"@ ==> spoken_text(text, stdin) == stdin && from_stdin(text),
        text matches Some(t) && t@ != "-"@ ==> spoken_text(text, stdin) == text->0@ && !from_stdin(
            text,
        ),
{
}

/// When audio is played: unless the configuration or `--no-play` switches it off, or a
/// file is asked for quietly. Nothing else matters.
pub proof fn playing_can_be_switched_off(args: SayArgs, common: CommonOpts, config: Config)
    ensures
        plays(args, common, config) ==> config.audio.play && !args.no_play,
        plays(args, common, config) && common.quiet ==> args.out is None,
        !plays(args, common, config) && config.audio.play && !args.no_play ==> common.quiet
            && args.out is Some,
{
}

/// Where audio is written: a bare name goes into the output directory, and any other
/// path is taken as it stands.
pub proof fn paths_are_written_as_they_stand(config: Config, a: Seq<u8>, b: Seq<u8>)
    requires
        a.len() > 0,
        b.len() > 0,
        !a.contains(0x2f),
        !b.contains(0x2f),
        b != seq![0x2eu8],
    ensures
        out_path(config, a) == (match config.audio.output_dir {
            Some(dir) => joined_path(encode_utf8(dir@), a),
            None => a,
        }),
        out_path(config, a + seq![0x2fu8] + b) == a + seq![0x2fu8] + b,
        out_path(config, seq![0x2fu8] + b) == seq![0x2fu8] + b,
{
    crate::path::slashes_part_components(a, b);
    assert(a.contains(a[0]));
}

} // verus!
