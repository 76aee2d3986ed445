//! `spqx voices`: the named voice registry.
//!
//! Each registry voice lives in a directory of its own, with `reference.wav` (mono
//! 24 kHz), `reference.txt` (transcript) and `voice.toml` (metadata).

use crate::cli::{named_line, CommonOpts};
use crate::config::Config;
use crate::engine::{registry_dir, registry_voice, voices_dir, RegistryVoice, Transcript};
use crate::path::{is_absolute_path, joined_path, joining_tells_names_apart, UnixPath};
use crate::paths::{Environment, NoBaseDir};
use crate::sample::Double;
use crate::text::{self, decimal_text, lex_le, shown_text, trimmed};
use vstd::prelude::*;
use vstd::utf8::encode_utf8;

verus! {

/// The rate that references are stored at.
pub const STORE_SAMPLE_RATE: u32 = 24_000;

/// The arguments of `spqx voices`.
#[derive(Debug)]
pub struct VoicesArgs {
    pub command: VoicesCommand,
}

/// What to do with the registry.
#[derive(Debug)]
pub enum VoicesCommand {
    /// List registry voices and built-in preset speakers.
    List,
    /// Add a cloned voice from a reference recording.
    Add(AddArgs),
    /// Show a voice's metadata and paths.
    Show { name: String },
    /// Remove a registry voice.
    Rm { name: String },
}

/// A voice to be added.
#[derive(Debug)]
pub struct AddArgs {
    /// Voice name.
    pub name: String,
    /// Reference audio recording.
    pub ref_audio: UnixPath,
    /// Reference transcript.
    pub ref_text: Option<String>,
    /// File containing the reference transcript.
    pub ref_text_file: Option<UnixPath>,
    /// Language hint stored with the voice.
    pub language: Option<String>,
    /// Free-form note.
    pub note: Option<String>,
    /// Overwrite an existing voice of the same name.
    pub force: bool,
}

/// Per-voice metadata.
#[derive(Clone, Debug)]
pub struct VoiceManifest {
    pub display_name: String,
    pub language: String,
    pub note: String,
    pub source: String,
    pub reference_seconds: Double,
}

impl Default for VoiceManifest {
    fn default() -> (r: Self)
        ensures
            r.display_name@ == ""@,
            r.language@ == "auto"@,
            r.note@ == ""@,
            r.source@ == ""@,
            r.reference_seconds == (Double { bits: 0 }),
    {
        VoiceManifest {
            display_name: "".to_owned(),
            language: "auto".to_owned(),
            note: "".to_owned(),
            source: "".to_owned(),
            reference_seconds: Double { bits: 0 },
        }
    }
}

/// What to do, with the voice that it is done to.
#[derive(Debug)]
pub enum VoicesAction {
    List { dir: UnixPath },
    Add { voice: RegistryVoice, add: AddArgs },
    Show { voice: RegistryVoice },
    Remove { voice: RegistryVoice },
}

/// What to do with the registry.
pub fn run(args: VoicesArgs, config: &Config, env: &Environment) -> (r: Result<
    VoicesAction,
    NoBaseDir,
>)
    ensures
        match r {
            Err(e) => registry_dir(*config, *env) is None && e.variable@ == "XDG_DATA_HOME"@,
            Ok(action) => {
                &&& registry_dir(*config, *env) matches Some(registry)
                &&& match args.command {
                    VoicesCommand::List => action matches VoicesAction::List { dir } && dir@
                        == registry,
                    VoicesCommand::Add(add) => action matches VoicesAction::Add { voice, add: a }
                        && a == add && voice.is_voice(registry, add.name@),
                    VoicesCommand::Show { name } => action matches VoicesAction::Show { voice }
                        && voice.is_voice(registry, name@),
                    VoicesCommand::Rm { name } => action matches VoicesAction::Remove { voice }
                        && voice.is_voice(registry, name@),
                }
            },
        },
{
    let dir: UnixPath = match voices_dir(config, env) {
        Ok(dir) => dir,
        Err(e) => {
            return Err(e);
        },
    };
    Ok(
        match args.command {
            VoicesCommand::List => VoicesAction::List { dir },
            VoicesCommand::Add(add) => VoicesAction::Add {
                voice: registry_voice(&dir, add.name.as_str()),
                add,
            },
            VoicesCommand::Show { name } => VoicesAction::Show {
                voice: registry_voice(&dir, name.as_str()),
            },
            VoicesCommand::Rm { name } => VoicesAction::Remove {
                voice: registry_voice(&dir, name.as_str()),
            },
        },
    )
}

// ---------------------------------------------------------------------------
// Listing
// ---------------------------------------------------------------------------

/// A registry voice as it is listed.
#[derive(Debug)]
pub struct VoiceEntry {
    pub name: String,
    pub manifest: VoiceManifest,
    /// The length of the reference in seconds, with one decimal.
    pub seconds_shown: String,
}

/// Whether one voice may be listed before another.
pub open spec fn may_precede(a: VoiceEntry, b: VoiceEntry) -> bool {
    lex_le(encode_utf8(a.name@), encode_utf8(b.name@))
}

/// Voices with one more put in its place: behind those that may precede it.
pub open spec fn placed(voices: Seq<VoiceEntry>, voice: VoiceEntry) -> Seq<VoiceEntry>
    decreases voices.len(),
{
    if voices.len() == 0 || may_precede(voices.last(), voice) {
        voices.push(voice)
    } else {
        placed(voices.drop_last(), voice).push(voices.last())
    }
}

/// The voices in the order of their names.
pub open spec fn by_name(voices: Seq<VoiceEntry>) -> Seq<VoiceEntry>
    decreases voices.len(),
{
    if voices.len() == 0 {
        voices
    } else {
        placed(by_name(voices.drop_last()), voices.last())
    }
}

/// The voices in the order of their names.
pub fn sort_voices(voices: Vec<VoiceEntry>) -> (r: Vec<VoiceEntry>)
    ensures
        r@ == by_name(voices@),
{
    let ghost all = voices@;
    let mut rest: Vec<VoiceEntry> = voices;
    let mut sorted: Vec<VoiceEntry> = Vec::new();
    let ghost mut taken: int = 0;
    assert(all.skip(0) =~= all);
    assert(sorted@ =~= by_name(all.take(0)));
    while rest.len() > 0
        invariant
            0 <= taken <= all.len(),
            rest@ == all.skip(taken),
            sorted@ == by_name(all.take(taken)),
        decreases rest@.len(),
    {
        let voice: VoiceEntry = rest.remove(0);
        let mut i: usize = sorted.len();
        assert(sorted@.take(i as int) =~= sorted@);
        assert(placed(sorted@, voice) + sorted@.skip(i as int) =~= placed(sorted@, voice));
        while i > 0 && !text::bytes_le(sorted[i - 1].name.as_str().as_bytes(), voice.name.as_str().as_bytes())
            invariant
                i <= sorted@.len(),
                placed(sorted@.take(i as int), voice) + sorted@.skip(i as int) == placed(
                    sorted@,
                    voice,
                ),
            decreases i,
        {
            proof {
                let front = sorted@.take(i as int);
                assert(front.last() == sorted@[i - 1]);
                assert(front.drop_last() =~= sorted@.take(i - 1));
                assert(placed(front.drop_last(), voice).push(front.last()) + sorted@.skip(
                    i as int,
                ) =~= placed(sorted@.take(i - 1), voice) + sorted@.skip(i - 1));
            }
            i -= 1;
        }
        proof {
            if i > 0 {
                assert(sorted@.take(i as int).last() == sorted@[i - 1]);
            }
            assert(sorted@.take(i as int).push(voice) + sorted@.skip(i as int)
                =~= sorted@.insert(i as int, voice));
            assert(all.take(taken + 1).drop_last() =~= all.take(taken));
            assert(all.take(taken + 1).last() == voice);
            assert(rest@ =~= all.skip(taken + 1));
            taken = taken + 1;
        }
        sorted.insert(i, voice);
    }
    assert(all.take(taken) =~= all);
    sorted
}

/// Whether voices are listed in the order of their names.
pub open spec fn is_sorted(voices: Seq<VoiceEntry>) -> bool {
    forall|i: int, j: int|
        0 <= i < j < voices.len() ==> may_precede(#[trigger] voices[i], #[trigger] voices[j])
}

/// Sorting orders the voices by their names, and loses and adds none.
pub proof fn sorting_orders_by_name(voices: Seq<VoiceEntry>)
    ensures
        is_sorted(by_name(voices)),
        by_name(voices).to_multiset() == voices.to_multiset(),
    decreases voices.len(),
{
    broadcast use vstd::seq_lib::group_to_multiset_ensures;

    if voices.len() > 0 {
        let before = by_name(voices.drop_last());
        sorting_orders_by_name(voices.drop_last());
        lemma_placed(before, voices.last());
        assert(voices.drop_last().push(voices.last()) =~= voices);
    }
}

proof fn lemma_placed(voices: Seq<VoiceEntry>, voice: VoiceEntry)
    requires
        is_sorted(voices),
    ensures
        is_sorted(placed(voices, voice)),
        placed(voices, voice).to_multiset() == voices.to_multiset().insert(voice),
        placed(voices, voice).len() == voices.len() + 1,
        forall|x: VoiceEntry|
            (forall|i: int| 0 <= i < voices.len() ==> may_precede(#[trigger] voices[i], x))
                && may_precede(voice, x) ==> (forall|i: int|
                0 <= i < placed(voices, voice).len() ==> may_precede(
                    #[trigger] placed(voices, voice)[i],
                    x,
                )),
    decreases voices.len(),
{
    broadcast use vstd::seq_lib::group_to_multiset_ensures;

    let p = placed(voices, voice);
    if voices.len() == 0 || may_precede(voices.last(), voice) {
        assert forall|i: int, j: int| 0 <= i < j < p.len() implies may_precede(
            #[trigger] p[i],
            #[trigger] p[j],
        ) by {
            if j == voices.len() {
                let last = voices.len() - 1;
                if i < last {
                    assert(may_precede(voices[i], voices[last]));
                    text::lex_le_transitive(
                        encode_utf8(voices[i].name@),
                        encode_utf8(voices[last].name@),
                        encode_utf8(voice.name@),
                    );
                }
            } else {
                assert(may_precede(voices[i], voices[j]));
            }
        }
    } else {
        let front = voices.drop_last();
        let last = voices.last();
        assert forall|i: int, j: int| 0 <= i < j < front.len() implies may_precede(
            #[trigger] front[i],
            #[trigger] front[j],
        ) by {
            assert(may_precede(voices[i], voices[j]));
        }
        lemma_placed(front, voice);
        let q = placed(front, voice);
        text::lex_le_total(encode_utf8(last.name@), encode_utf8(voice.name@));
        assert(may_precede(voice, last));
        assert forall|i: int| 0 <= i < front.len() implies may_precede(
            #[trigger] front[i],
            last,
        ) by {
            assert(may_precede(voices[i], voices[voices.len() - 1]));
        }
        assert forall|i: int, j: int| 0 <= i < j < p.len() implies may_precede(
            #[trigger] p[i],
            #[trigger] p[j],
        ) by {
            if j < q.len() {
                assert(may_precede(q[i], q[j]));
            } else {
                assert(may_precede(q[i], last));
            }
        }
        assert(front.push(last) =~= voices);
        assert(p.to_multiset() =~= voices.to_multiset().insert(voice));
        assert forall|x: VoiceEntry|
            (forall|i: int| 0 <= i < voices.len() ==> may_precede(#[trigger] voices[i], x))
                && may_precede(voice, x) implies (forall|i: int|
            0 <= i < p.len() ==> may_precede(#[trigger] p[i], x)) by {
            assert forall|i: int| 0 <= i < front.len() implies may_precede(
                #[trigger] front[i],
                x,
            ) by {
                assert(may_precede(voices[i], x));
            }
            assert forall|i: int| 0 <= i < p.len() implies may_precede(#[trigger] p[i], x) by {
                if i < q.len() {
                    assert(may_precede(q[i], x));
                } else {
                    assert(may_precede(voices[voices.len() - 1], x));
                }
            }
        }
    }
}

/// Whether a registry directory holds a voice: both of its files have to exist,
/// and its name has to be text.
pub fn is_listed(wav_exists: bool, txt_exists: bool, name: &UnixPath) -> (r: bool)
    ensures
        r == (wav_exists && txt_exists && vstd::utf8::valid_utf8(name@)),
{
    wav_exists && txt_exists && text::from_utf8(name.bytes.as_slice()).is_ok()
}

/// The preset speakers, which need no reference audio.
pub open spec fn presets() -> Seq<Seq<char>> {
    seq![
        "serena"@,
        "vivian"@,
        "uncle_fu"@,
        "ryan"@,
        "aiden"@,
        "ono_anna"@,
        "sohee"@,
        "eric"@,
        "dylan"@,
    ]
}

/// The preset speakers, which need no reference audio.
pub fn preset_speakers() -> (r: Vec<&'static str>)
    ensures
        r@.map_values(|s: &'static str| s@) == presets(),
{
    let mut r: Vec<&'static str> = Vec::new();
    r.push("serena");
    r.push("vivian");
    r.push("uncle_fu");
    r.push("ryan");
    r.push("aiden");
    r.push("ono_anna");
    r.push("sohee");
    r.push("eric");
    r.push("dylan");
    assert(r@.map_values(|s: &'static str| s@) =~= presets());
    r
}

/// Names with `, ` between them.
pub open spec fn comma_separated(names: Seq<Seq<char>>) -> Seq<char>
    decreases names.len(),
{
    if names.len() == 0 {
        Seq::empty()
    } else if names.len() == 1 {
        names[0]
    } else {
        comma_separated(names.drop_last()) + ", "@ + names.last()
    }
}

fn join_names(names: &Vec<&'static str>) -> (r: String)
    ensures
        r@ == comma_separated(names@.map_values(|s: &'static str| s@)),
{
    let ghost views = names@.map_values(|s: &'static str| s@);
    let mut r: String = String::new();
    let mut i: usize = 0;
    assert(r@ =~= comma_separated(views.take(0)));
    while i < names.len()
        invariant
            i <= names@.len(),
            views == names@.map_values(|s: &'static str| s@),
            r@ == comma_separated(views.take(i as int)),
        decreases names@.len() - i,
    {
        proof {
            let next = views.take(i + 1);
            assert(next.drop_last() =~= views.take(i as int));
            assert(next.last() == names@[i as int]@);
            if i == 0 {
                assert(r@ + names@[0]@ =~= names@[0]@);
            }
        }
        if i > 0 {
            vstd::string::StringExecFns::append(&mut r, ", ");
        }
        vstd::string::StringExecFns::append(&mut r, names[i]);
        i += 1;
    }
    assert(views.take(views.len() as int) =~= views);
    r
}

/// The line that lists a voice: its language is left out where it is detected,
/// and its length where it is not known.
pub open spec fn entry_line(voice: VoiceEntry) -> Seq<char> {
    "  "@ + voice.name@ + (if voice.manifest.language@ == "auto"@ {
        Seq::empty()
    } else {
        "  ["@ + voice.manifest.language@ + "]"@
    }) + (if voice.manifest.reference_seconds.positive() {
        "  "@ + voice.seconds_shown@ + "s"@
    } else {
        Seq::empty()
    })
}

/// The lines that list the registry and the preset speakers.
pub open spec fn listing(voices: Seq<VoiceEntry>) -> Seq<Seq<char>> {
    (if voices.len() == 0 {
        seq![
            "No registry voices yet. Add one:"@,
            "  spqx voices add <name> --ref-audio <wav> --ref-text-file <txt>"@,
        ]
    } else {
        seq!["Registry voices ("@ + decimal_text(voices.len()) + "):"@] + voices.map_values(
            |voice: VoiceEntry| entry_line(voice),
        )
    }) + seq![
        ""@,
        "Preset speakers (need the CustomVoice model): "@ + comma_separated(presets()),
    ]
}

fn list_entry(voice: &VoiceEntry) -> (r: String)
    ensures
        r@ == entry_line(*voice),
{
    let mut r: String = text::concat("  ", voice.name.as_str());
    if !text::same_text(voice.manifest.language.as_str(), "auto") {
        vstd::string::StringExecFns::append(&mut r, "  [");
        vstd::string::StringExecFns::append(&mut r, voice.manifest.language.as_str());
        vstd::string::StringExecFns::append(&mut r, "]");
    }
    if voice.manifest.reference_seconds.is_positive() {
        vstd::string::StringExecFns::append(&mut r, "  ");
        vstd::string::StringExecFns::append(&mut r, voice.seconds_shown.as_str());
        vstd::string::StringExecFns::append(&mut r, "s");
    }
    assert(r@ =~= entry_line(*voice));
    r
}

/// The lines that list the registry and the preset speakers.
pub fn list(voices: &Vec<VoiceEntry>) -> (r: Vec<String>)
    ensures
        r@.map_values(|line: String| line@) == listing(voices@),
{
    let mut lines: Vec<String> = Vec::new();
    let ghost entries = voices@.map_values(|voice: VoiceEntry| entry_line(voice));
    let ghost mut head: Seq<Seq<char>> = Seq::empty();
    if voices.len() == 0 {
        lines.push("No registry voices yet. Add one:".to_owned());
        lines.push("  spqx voices add <name> --ref-audio <wav> --ref-text-file <txt>".to_owned());
        proof {
            head = lines@.map_values(|line: String| line@);
        }
    } else {
        let mut first: String = text::concat(
            "Registry voices (",
            text::decimal(voices.len() as u64).as_str(),
        );
        vstd::string::StringExecFns::append(&mut first, "):");
        lines.push(first);
        let ghost title = first@;
        let mut i: usize = 0;
        assert(lines@.map_values(|line: String| line@) =~= seq![title] + entries.take(0));
        while i < voices.len()
            invariant
                i <= voices@.len(),
                entries == voices@.map_values(|voice: VoiceEntry| entry_line(voice)),
                lines@.map_values(|line: String| line@) == seq![title] + entries.take(i as int),
            decreases voices@.len() - i,
        {
            let line: String = list_entry(&voices[i]);
            proof {
                assert(lines@.push(line).map_values(|line: String| line@) =~= lines@.map_values(
                    |line: String| line@,
                ).push(line@));
                assert(lines@.push(line).map_values(|line: String| line@) =~= seq![title]
                    + entries.take(i + 1));
            }
            lines.push(line);
            i += 1;
        }
        proof {
            assert(entries.take(entries.len() as int) =~= entries);
            head = lines@.map_values(|line: String| line@);
        }
    }
    let ghost before = lines@;
    lines.push("".to_owned());
    lines.push(
        text::concat(
            "Preset speakers (need the CustomVoice model): ",
            join_names(&preset_speakers()).as_str(),
        ),
    );
    proof {
        let tail = seq![
            ""@,
            "Preset speakers (need the CustomVoice model): "@ + comma_separated(presets()),
        ];
        assert(lines@.map_values(|line: String| line@) =~= head + tail);
        if voices@.len() == 0 {
            assert(head =~= seq![
                "No registry voices yet. Add one:"@,
                "  spqx voices add <name> --ref-audio <wav> --ref-text-file <txt>"@,
            ]);
        }
    }
    lines
}

// ---------------------------------------------------------------------------
// Adding
// ---------------------------------------------------------------------------

/// Why a voice is not added.
#[derive(Debug)]
pub enum AddError {
    /// There is one of that name.
    Exists { name: String, dir: UnixPath },
    /// Neither a transcript nor a file with one was given.
    NoTranscript,
    /// The transcript is empty.
    EmptyTranscript,
    /// The path of the recording is not text.
    PathNotText,
}

impl AddError {
    /// The message.
    pub fn message(&self) -> (r: String)
        ensures
            r@ == (match *self {
                AddError::Exists { name, dir } => "voice '"@ + name@ + "' already exists ("@
                    + shown_text(dir@) + "); pass --force to overwrite"@,
                AddError::NoTranscript => "provide --ref-text or --ref-text-file"@,
                AddError::EmptyTranscript => "reference transcript is empty"@,
                AddError::PathNotText => "ref path not UTF-8"@,
            }),
    {
        match self {
            AddError::Exists { name, dir } => {
                let mut r: String = text::concat("voice '", name.as_str());
                vstd::string::StringExecFns::append(&mut r, "' already exists (");
                vstd::string::StringExecFns::append(&mut r, dir.display().as_str());
                vstd::string::StringExecFns::append(&mut r, "); pass --force to overwrite");
                r
            },
            AddError::NoTranscript => "provide --ref-text or --ref-text-file".to_owned(),
            AddError::EmptyTranscript => "reference transcript is empty".to_owned(),
            AddError::PathNotText => "ref path not UTF-8".to_owned(),
        }
    }
}

/// Where the transcript of a voice that is added comes from, given whether there
/// is a voice of that name.
pub fn add_voice(voice: &RegistryVoice, add: &AddArgs, exists: bool) -> (r: Result<
    Transcript,
    AddError,
>)
    ensures
        if exists && !add.force {
            r matches Err(AddError::Exists { name, dir }) && name@ == voice.name@ && dir@
                == voice.dir@
        } else {
            match add.ref_text {
                Some(given) => r matches Ok(Transcript::Text(t)) && t@ == given@,
                None => match add.ref_text_file {
                    Some(file) => r matches Ok(Transcript::File(path)) && path@ == file@,
                    None => r matches Err(e) && e is NoTranscript,
                },
            }
        },
{
    if exists && !add.force {
        return Err(AddError::Exists { name: voice.name.clone(), dir: voice.dir.copied() });
    }
    if let Some(given) = &add.ref_text {
        return Ok(Transcript::Text(given.clone()));
    }
    if let Some(file) = &add.ref_text_file {
        return Ok(Transcript::File(file.copied()));
    }
    Err(AddError::NoTranscript)
}

/// The path of the recording, once its transcript is known to be there.
pub fn recording_path<'a>(add: &'a AddArgs, transcript: &str) -> (r: Result<&'a str, AddError>)
    ensures
        match r {
            Ok(path) => transcript@.len() > 0 && vstd::utf8::valid_utf8(add.ref_audio@) && path@
                == vstd::utf8::decode_utf8(add.ref_audio@),
            Err(AddError::EmptyTranscript) => transcript@.len() == 0,
            Err(AddError::PathNotText) => transcript@.len() > 0 && !vstd::utf8::valid_utf8(
                add.ref_audio@,
            ),
            Err(_) => false,
        },
{
    if transcript.is_empty() {
        return Err(AddError::EmptyTranscript);
    }
    match text::from_utf8(add.ref_audio.bytes.as_slice()) {
        Ok(path) => Ok(path),
        Err(_) => Err(AddError::PathNotText),
    }
}

/// The files that hold a voice that is added.
#[derive(Debug)]
pub struct VoiceFiles {
    /// What `reference.txt` holds.
    pub transcript: String,
    /// Where the metadata goes.
    pub manifest_path: UnixPath,
    /// The metadata.
    pub manifest: VoiceManifest,
}

/// The files that hold a voice that is added, given its transcript and the length
/// of its recording.
pub fn voice_files(
    voice: &RegistryVoice,
    add: &AddArgs,
    transcript: &str,
    reference_seconds: Double,
) -> (r: VoiceFiles)
    ensures
        r.transcript@ == transcript@ + "\n"@,
        r.manifest_path@ == joined_path(voice.dir@, encode_utf8("voice.toml"@)),
        r.manifest.display_name@ == add.name@,
        r.manifest.language@ == (match add.language {
            Some(language) => language@,
            None => "auto"@,
        }),
        r.manifest.note@ == (match add.note {
            Some(note) => note@,
            None => ""@,
        }),
        r.manifest.source@ == shown_text(add.ref_audio@),
        r.manifest.reference_seconds == reference_seconds,
{
    VoiceFiles {
        transcript: text::concat(transcript, "\n"),
        manifest_path: voice.dir.join_text("voice.toml"),
        manifest: VoiceManifest {
            display_name: add.name.clone(),
            language: match &add.language {
                Some(language) => language.clone(),
                None => "auto".to_owned(),
            },
            note: match &add.note {
                Some(note) => note.clone(),
                None => "".to_owned(),
            },
            source: add.ref_audio.display(),
            reference_seconds,
        },
    }
}

/// A voice is found where it was added: the files that are written for a voice are
/// those that its name is resolved to, and the transcript that is read back is the
/// one that was written, without the white space around it.
pub proof fn added_voice_is_resolved(
    added: RegistryVoice,
    resolved: RegistryVoice,
    registry: Seq<u8>,
    name: Seq<char>,
    transcript: Seq<char>,
)
    requires
        added.is_voice(registry, name),
        resolved.is_voice(registry, name),
    ensures
        resolved.wav@ == added.wav@,
        resolved.txt@ == added.txt@,
        trimmed(transcript + "\n"@) == trimmed(transcript),
{
    reveal_strlit("\n");
    assert(transcript + "\n"@ =~= transcript.push('\n'));
    text::trimming_drops_the_end(transcript, '\n');
}

/// Voices of different names get different paths, as long as no name is an absolute
/// path.
pub proof fn voices_are_kept_apart(
    a: RegistryVoice,
    b: RegistryVoice,
    registry: Seq<u8>,
    a_name: Seq<char>,
    b_name: Seq<char>,
)
    requires
        a.is_voice(registry, a_name),
        b.is_voice(registry, b_name),
        a_name != b_name,
        !is_absolute_path(encode_utf8(a_name)),
        !is_absolute_path(encode_utf8(b_name)),
    ensures
        a.dir@ != b.dir@,
{
    if a.dir@ == b.dir@ {
        joining_tells_names_apart(registry, encode_utf8(a_name), encode_utf8(b_name));
        vstd::utf8::encode_utf8_decode_utf8(a_name);
        vstd::utf8::encode_utf8_decode_utf8(b_name);
    }
}

/// What is said about a voice that was added.
pub fn added_lines(voice: &RegistryVoice) -> (r: (String, String))
    ensures
        r.0@ == "Added voice '"@ + voice.name@ + "' ("@ + shown_text(voice.dir@) + ")"@,
        r.1@ == "Try it: spqx say \"Hello.\" --voice "@ + voice.name@,
{
    let mut added: String = text::concat("Added voice '", voice.name.as_str());
    vstd::string::StringExecFns::append(&mut added, "' (");
    vstd::string::StringExecFns::append(&mut added, voice.dir.display().as_str());
    vstd::string::StringExecFns::append(&mut added, ")");
    (added, text::concat("Try it: spqx say \"Hello.\" --voice ", voice.name.as_str()))
}

// ---------------------------------------------------------------------------
// Showing and removing
// ---------------------------------------------------------------------------

/// The message for a voice that does not exist.
pub open spec fn not_found(voice: RegistryVoice) -> Seq<char> {
    "voice '"@ + voice.name@ + "' not found ("@ + shown_text(voice.dir@) + ")"@
}

/// Whether a voice exists; else the message.
pub fn check_exists(voice: &RegistryVoice, exists: bool) -> (r: Result<(), String>)
    ensures
        r is Ok <==> exists,
        r matches Err(message) ==> message@ == not_found(*voice),
{
    if exists {
        return Ok(());
    }
    let mut r: String = text::concat("voice '", voice.name.as_str());
    vstd::string::StringExecFns::append(&mut r, "' not found (");
    vstd::string::StringExecFns::append(&mut r, voice.dir.display().as_str());
    vstd::string::StringExecFns::append(&mut r, ")");
    Err(r)
}

/// The lines that show a voice.
pub open spec fn shown_lines(
    voice: RegistryVoice,
    manifest: VoiceManifest,
    seconds_shown: Seq<char>,
) -> Seq<Seq<char>> {
    seq![
        "voice: "@ + voice.name@,
        "path"@ + ": "@ + shown_text(voice.dir@),
        "language: "@ + manifest.language@,
        "reference: "@ + seconds_shown + "s"@,
    ] + (if manifest.note@.len() > 0 {
        seq!["note: "@ + manifest.note@]
    } else {
        Seq::empty()
    }) + (if manifest.source@.len() > 0 {
        seq!["source: "@ + manifest.source@]
    } else {
        Seq::empty()
    })
}

/// The lines that show a voice, given the length of its reference in seconds with
/// one decimal.
pub fn show(voice: &RegistryVoice, manifest: &VoiceManifest, seconds_shown: &str) -> (r: Vec<
    String,
>)
    ensures
        r@.map_values(|line: String| line@) == shown_lines(*voice, *manifest, seconds_shown@),
{
    let mut lines: Vec<String> = Vec::new();
    lines.push(text::concat("voice: ", voice.name.as_str()));
    lines.push(named_line("path", &voice.dir));
    lines.push(text::concat("language: ", manifest.language.as_str()));
    lines.push(text::concat(text::concat("reference: ", seconds_shown).as_str(), "s"));
    if !manifest.note.as_str().is_empty() {
        lines.push(text::concat("note: ", manifest.note.as_str()));
    }
    if !manifest.source.as_str().is_empty() {
        lines.push(text::concat("source: ", manifest.source.as_str()));
    }
    assert(lines@.map_values(|line: String| line@) =~= shown_lines(
        *voice,
        *manifest,
        seconds_shown@,
    ));
    lines
}

/// What to ask before a voice is removed, if anything.
pub fn removal_prompt(voice: &RegistryVoice, common: &CommonOpts) -> (r: Option<String>)
    ensures
        r is None <==> common.yes || common.json,
        r matches Some(prompt) ==> prompt@ == "Remove voice '"@ + voice.name@ + "' at "@
            + shown_text(voice.dir@) + "? [y/N] "@,
{
    if common.yes || common.json {
        return None;
    }
    let mut r: String = text::concat("Remove voice '", voice.name.as_str());
    vstd::string::StringExecFns::append(&mut r, "' at ");
    vstd::string::StringExecFns::append(&mut r, voice.dir.display().as_str());
    vstd::string::StringExecFns::append(&mut r, "? [y/N] ");
    Some(r)
}

/// Whether an answer means that a voice is to be removed.
pub fn confirms(answer: &str) -> (r: bool)
    ensures
        r == (trimmed(answer@) == "y"@ || trimmed(answer@) == "Y"@ || trimmed(answer@) == "yes"@),
{
    let bare: &str = text::trim(answer);
    text::same_text(bare, "y") || text::same_text(bare, "Y") || text::same_text(bare, "yes")
}

/// What is said about a voice that was removed, if anything.
pub fn removed_line(voice: &RegistryVoice, common: &CommonOpts) -> (r: Option<String>)
    ensures
        r is None <==> common.quiet,
        r matches Some(line) ==> line@ == "removed voice '"@ + voice.name@ + "'"@,
{
    if common.quiet {
        return None;
    }
    Some(text::concat(text::concat("removed voice '", voice.name.as_str()).as_str(), "'"))
}

/// How a voice is listed: by its name, with its language unless that is detected, and
/// with its length if that is known.
pub proof fn entries_name_language_and_length(voice: VoiceEntry)
    ensures
        ({
            let name = "  "@ + voice.name@;
            let language = "  ["@ + voice.manifest.language@ + "]"@;
            let length = "  "@ + voice.seconds_shown@ + "s"@;
            let auto = voice.manifest.language@ == "auto"@;
            let bits = voice.manifest.reference_seconds.bits;
            let known = 0 < bits <= 0x7ff0_0000_0000_0000;
            &&& auto && !known ==> entry_line(voice) == name
            &&& auto && known ==> entry_line(voice) == name + length
            &&& !auto && !known ==> entry_line(voice) == name + language
            &&& !auto && known ==> entry_line(voice) == name + language + length
        }),
{
    let name = "  "@ + voice.name@;
    let nothing = Seq::<char>::empty();
    let length = "  "@ + voice.seconds_shown@ + "s"@;
    let language = "  ["@ + voice.manifest.language@ + "]"@;
    assert(name + nothing + nothing =~= name);
    assert(name + nothing + length =~= name + length);
    assert(name + language + nothing =~= name + language);
}

/// The listing has a line for each voice, in their order, behind a title that counts
/// them; then an empty line and the preset speakers.
pub proof fn every_voice_is_listed(voices: Seq<VoiceEntry>, i: int)
    requires
        0 <= i < voices.len(),
    ensures
        listing(voices).len() == voices.len() + 3,
        listing(voices)[0] == "Registry voices ("@ + decimal_text(voices.len()) + "):"@,
        listing(voices)[i + 1] == entry_line(voices[i]),
        listing(voices)[voices.len() as int + 1] == ""@,
        listing(voices)[voices.len() as int + 2] == "Preset speakers (need the CustomVoice model): "@
            + comma_separated(presets()),
{
}

/// Without a voice the listing says how to add one, and names the preset speakers too.
pub proof fn an_empty_registry_is_explained()
    ensures
        listing(Seq::empty()) == seq![
            "No registry voices yet. Add one:"@,
            "  spqx voices add <name> --ref-audio <wav> --ref-text-file <txt>"@,
            ""@,
            "Preset speakers (need the CustomVoice model): "@ + comma_separated(presets()),
        ],
{
    assert(listing(Seq::empty()) =~= seq![
        "No registry voices yet. Add one:"@,
        "  spqx voices add <name> --ref-audio <wav> --ref-text-file <txt>"@,
        ""@,
        "Preset speakers (need the CustomVoice model): "@ + comma_separated(presets()),
    ]);
}

/// A voice that does not exist is named, with the directory that it would be in.
pub proof fn missing_voices_are_named(voice: RegistryVoice)
    ensures
        not_found(voice) == "voice '"@ + voice.name@ + "' not found ("@ + shown_text(voice.dir@)
            + ")"@,
{
}

/// What is shown of a voice: its name, path, language and length, and its note and
/// source where there are such.
pub proof fn notes_and_sources_are_shown(
    voice: RegistryVoice,
    manifest: VoiceManifest,
    seconds_shown: Seq<char>,
)
    ensures
        ({
            let lines = shown_lines(voice, manifest, seconds_shown);
            let note = manifest.note@.len() > 0;
            let source = manifest.source@.len() > 0;
            &&& lines.len() == 4 + (if note {
                1int
            } else {
                0
            }) + (if source {
                1int
            } else {
                0
            })
            &&& lines[0] == "voice: "@ + voice.name@
            &&& lines[1] == "path"@ + ": "@ + shown_text(voice.dir@)
            &&& lines[2] == "language: "@ + manifest.language@
            &&& lines[3] == "reference: "@ + seconds_shown + "s"@
            &&& note ==> lines[4] == "note: "@ + manifest.note@
            &&& source ==> lines.last() == "source: "@ + manifest.source@
        }),
{
}

/// Names with commas between them: one more name is put behind a comma.
pub proof fn names_are_joined_by_commas(names: Seq<Seq<char>>, name: Seq<char>)
    ensures
        comma_separated(seq![name]) == name,
        names.len() > 0 ==> comma_separated(names.push(name)) == comma_separated(names) + ", "@
            + name,
        presets().len() == 9,
{
    assert(names.push(name).drop_last() =~= names);
}

/// In the listing no name comes before a lesser one, byte by byte.
pub proof fn names_are_in_order(voices: Seq<VoiceEntry>, i: int, j: int)
    requires
        0 <= i < j < voices.len(),
    ensures
        by_name(voices).len() == voices.len(),
        lex_le(encode_utf8(by_name(voices)[i].name@), encode_utf8(by_name(voices)[j].name@)),
{
    broadcast use vstd::seq_lib::group_to_multiset_ensures;

    sorting_orders_by_name(voices);
    assert(by_name(voices).to_multiset().len() == voices.to_multiset().len());
    assert(may_precede(by_name(voices)[i], by_name(voices)[j]));
}

} // verus!
