//! The persistent text-to-speech worker: what it does with each frame that comes
//! in, and which frames it answers with.
//!
//! Reading and writing the frames, and generating the audio, is left to the
//! caller. Everything that is decided on the way is decided here.

use crate::engine::{tokenizer_of, tokenizer_path};
use crate::frame::{
    announced_len, frame_bytes, from_le4, has_frame, le4, le4_bytes, le4_roundtrip, write_frame, Frame, FrameTooLong, WORKER_INPUT_CANCEL,
    WORKER_INPUT_SHUTDOWN, WORKER_INPUT_SPEAK, WORKER_OUTPUT_AUDIO_CHUNK, WORKER_OUTPUT_AUDIO_DONE,
    WORKER_OUTPUT_AUDIO_START, WORKER_OUTPUT_ERROR, WORKER_OUTPUT_READY,
};
use crate::gating::five_ms;
use crate::path::UnixPath;
use crate::pcm::{
    after_chunks, audible, end_of, i16_bytes, joined, pcm_bytes, sent_blocks, sent_blocks_hold_the_samples,
    sent_samples, stream_carries_the_audio, stream_measures_its_tail,
    stream_remembers_thirty_seconds, PcmState, PcmStreamer,
};
use crate::postprocess::{divisor, gate_leading_nonspeech, is_cleaned};
use crate::sample::{pcm_of, Double, Sample};
use crate::seconds::{seconds_text, Seconds};
use crate::text::{
    self, decimal_text, is_white_space, lowered, replaced, shown_text, trimmed, utf8_error_text,
};
use std::collections::HashSet;
use vstd::prelude::*;
use vstd::utf8::{decode_utf8, encode_utf8, is_ascii_chars, valid_utf8};

verus! {

broadcast use vstd::std_specs::hash::group_hash_axioms;

// ---------------------------------------------------------------------------
// Settings
// ---------------------------------------------------------------------------

/// Everything needed to build a worker. Resolved by the caller from flags and
/// configuration: the worker reads no configuration file.
#[derive(Clone, Debug)]
pub struct WorkerConfig {
    /// Local model directory.
    pub model_path: UnixPath,
    /// Reference audio path (voice cloning).
    pub ref_audio: UnixPath,
    /// Reference transcript.
    pub ref_text: String,
    /// Target language, normalized; `auto` is allowed.
    pub language: String,
    pub temperature: Double,
    pub top_k: i64,
    pub max_new_tokens: i64,
    pub output_sample_rate: u32,
    pub blocksize: usize,
    pub streaming_chunk_size: usize,
}

/// What of the configuration shapes the stream of a request.
#[derive(Clone, Copy, Debug, PartialEq, Eq, Structural)]
pub struct StreamSettings {
    pub output_sample_rate: u32,
    /// The samples in a block, at least one.
    pub blocksize: usize,
    /// The codec frames decoded at a time, at least one.
    pub streaming_chunk_size: usize,
}

impl StreamSettings {
    /// Sizes are at least one.
    pub open spec fn wf(self) -> bool {
        self.blocksize >= 1 && self.streaming_chunk_size >= 1
    }
}

/// `n`, but at least one.
pub open spec fn at_least_one(n: int) -> int {
    if n < 1 {
        1
    } else {
        n
    }
}

/// A worker, as far as it does not generate audio.
#[derive(Debug)]
pub struct Worker {
    /// The model as it is shown to people.
    pub model_name: String,
    /// Where the weights of the audio tokenizer are.
    pub tokenizer_path: UnixPath,
    /// The transcript that the voice is prepared with.
    pub ref_text: String,
    /// The language that the voice is prepared with.
    pub language: String,
    pub temperature: Double,
    pub top_k: i64,
    pub max_new_tokens: i64,
    pub settings: StreamSettings,
}

impl Worker {
    /// The worker that a configuration asks for, given whether the model directory
    /// exists; else the message.
    pub fn load(config: &WorkerConfig, model_exists: bool) -> (r: Result<Worker, String>)
        ensures
            r is Ok <==> model_exists,
            r matches Err(message) ==> message@ == "worker requires a local model directory, got "@
                + shown_text(config.model_path@),
            r matches Ok(worker) ==> {
                &&& worker.model_name@ == shown_text(config.model_path@)
                &&& worker.tokenizer_path@ == tokenizer_of(config.model_path@)
                &&& worker.ref_text@ == config.ref_text@
                &&& worker.language@ == config.language@
                &&& worker.temperature == config.temperature
                &&& worker.top_k == config.top_k
                &&& worker.max_new_tokens == config.max_new_tokens
                &&& worker.settings.wf()
                &&& worker.settings.output_sample_rate == config.output_sample_rate
                &&& worker.settings.blocksize == at_least_one(config.blocksize as int)
                &&& worker.settings.streaming_chunk_size == at_least_one(
                    config.streaming_chunk_size as int,
                )
            },
    {
        if !model_exists {
            return Err(
                text::concat(
                    "worker requires a local model directory, got ",
                    config.model_path.display().as_str(),
                ),
            );
        }
        Ok(
            Worker {
                model_name: config.model_path.display(),
                tokenizer_path: tokenizer_path(&config.model_path),
                ref_text: config.ref_text.clone(),
                language: config.language.clone(),
                temperature: config.temperature,
                top_k: config.top_k,
                max_new_tokens: config.max_new_tokens,
                settings: StreamSettings {
                    output_sample_rate: config.output_sample_rate,
                    blocksize: if config.blocksize < 1 {
                        1
                    } else {
                        config.blocksize
                    },
                    streaming_chunk_size: if config.streaming_chunk_size < 1 {
                        1
                    } else {
                        config.streaming_chunk_size
                    },
                },
            },
        )
    }
}

// ---------------------------------------------------------------------------
// Languages
// ---------------------------------------------------------------------------

/// The language that a normalized code stands for; other names pass through.
pub open spec fn language_name(code: Seq<char>) -> Seq<char> {
    if code == ""@ || code == "auto"@ {
        "auto"@
    } else if code == "de"@ || code == "de-de"@ {
        "german"@
    } else if code == "en"@ || code == "en-us"@ || code == "en-gb"@ {
        "english"@
    } else if code == "fr"@ || code == "fr-fr"@ {
        "french"@
    } else if code == "es"@ || code == "es-es"@ {
        "spanish"@
    } else if code == "it"@ || code == "it-it"@ {
        "italian"@
    } else if code == "pt"@ || code == "pt-br"@ || code == "pt-pt"@ {
        "portuguese"@
    } else if code == "ja"@ || code == "ja-jp"@ {
        "japanese"@
    } else if code == "ko"@ || code == "ko-kr"@ {
        "korean"@
    } else if code == "zh"@ || code == "zh-cn"@ || code == "zh-tw"@ {
        "chinese"@
    } else if code == "ru"@ || code == "ru-ru"@ {
        "russian"@
    } else {
        code
    }
}

/// The code that a language is looked up under: trimmed, in lower case, and with
/// hyphens.
pub open spec fn language_code(language: Seq<char>) -> Seq<char> {
    replaced(lowered(trimmed(language)), '_', "-"@)
}

/// The language that a normalized code stands for; other names pass through.
pub fn name_language(code: &str) -> (r: String)
    ensures
        r@ == language_name(code@),
{
    let name: &str = if text::same_text(code, "") || text::same_text(code, "auto") {
        "auto"
    } else if text::same_text(code, "de") || text::same_text(code, "de-de") {
        "german"
    } else if text::same_text(code, "en") || text::same_text(code, "en-us") || text::same_text(
        code,
        "en-gb",
    ) {
        "english"
    } else if text::same_text(code, "fr") || text::same_text(code, "fr-fr") {
        "french"
    } else if text::same_text(code, "es") || text::same_text(code, "es-es") {
        "spanish"
    } else if text::same_text(code, "it") || text::same_text(code, "it-it") {
        "italian"
    } else if text::same_text(code, "pt") || text::same_text(code, "pt-br") || text::same_text(
        code,
        "pt-pt",
    ) {
        "portuguese"
    } else if text::same_text(code, "ja") || text::same_text(code, "ja-jp") {
        "japanese"
    } else if text::same_text(code, "ko") || text::same_text(code, "ko-kr") {
        "korean"
    } else if text::same_text(code, "zh") || text::same_text(code, "zh-cn") || text::same_text(
        code,
        "zh-tw",
    ) {
        "chinese"
    } else if text::same_text(code, "ru") || text::same_text(code, "ru-ru") {
        "russian"
    } else {
        code
    };
    name.to_owned()
}

/// Normalizes language aliases (`de` to `german`); `auto` passes through.
pub fn normalize_language(language: &str) -> (r: String)
    ensures
        r@ == language_name(language_code(language@)),
{
    let bare: &str = text::trim(language);
    let lower: String = text::to_lowercase(bare);
    name_language(text::replace(lower.as_str(), '_', "-").as_str())
}

proof fn lemma_trimmed_is_ascii(s: Seq<char>)
    requires
        is_ascii_chars(s),
    ensures
        is_ascii_chars(trimmed(s)),
{
    text::trimming_adds_nothing(s);
}

/// Whether ASCII text reads the same trimmed, in lower case and with hyphens.
pub open spec fn is_plain(s: Seq<char>) -> bool {
    &&& is_ascii_chars(s)
    &&& forall|i: int|
        0 <= i < s.len() ==> s[i] != '_' && !('A' <= #[trigger] s[i] <= 'Z')
    &&& s.len() > 0 ==> !is_white_space(s[0]) && !is_white_space(s.last())
}

proof fn lemma_plain_stays(s: Seq<char>)
    requires
        is_plain(s),
    ensures
        language_code(s) == s,
{
    assert(trimmed(s) == s);
    assert(text::ascii_lowercase(s) =~= s);
    text::replacing_nothing(s, '_', "-"@);
}

/// What the codes mean: each language has one name, under its code and under its
/// regional variants.
pub proof fn codes_name_their_language()
    ensures
        language_name(""@) == "auto"@,
        language_name("auto"@) == "auto"@,
        language_name("de"@) == "german"@,
        language_name("de-de"@) == "german"@,
        language_name("en"@) == "english"@,
        language_name("en-us"@) == "english"@,
        language_name("en-gb"@) == "english"@,
        language_name("fr"@) == "french"@,
        language_name("fr-fr"@) == "french"@,
        language_name("es"@) == "spanish"@,
        language_name("es-es"@) == "spanish"@,
        language_name("it"@) == "italian"@,
        language_name("it-it"@) == "italian"@,
        language_name("pt"@) == "portuguese"@,
        language_name("pt-br"@) == "portuguese"@,
        language_name("pt-pt"@) == "portuguese"@,
        language_name("ja"@) == "japanese"@,
        language_name("ja-jp"@) == "japanese"@,
        language_name("ko"@) == "korean"@,
        language_name("ko-kr"@) == "korean"@,
        language_name("zh"@) == "chinese"@,
        language_name("zh-cn"@) == "chinese"@,
        language_name("zh-tw"@) == "chinese"@,
        language_name("ru"@) == "russian"@,
        language_name("ru-ru"@) == "russian"@,
{
    reveal_strlit("");
    reveal_strlit("auto");
    reveal_strlit("de");
    reveal_strlit("de-de");
    reveal_strlit("en");
    reveal_strlit("en-us");
    reveal_strlit("en-gb");
    reveal_strlit("fr");
    reveal_strlit("fr-fr");
    reveal_strlit("es");
    reveal_strlit("es-es");
    reveal_strlit("it");
    reveal_strlit("it-it");
    reveal_strlit("pt");
    reveal_strlit("pt-br");
    reveal_strlit("pt-pt");
    reveal_strlit("ja");
    reveal_strlit("ja-jp");
    reveal_strlit("ko");
    reveal_strlit("ko-kr");
    reveal_strlit("zh");
    reveal_strlit("zh-cn");
    reveal_strlit("zh-tw");
    reveal_strlit("ru");
    reveal_strlit("ru-ru");
    assert(""@.len() == 0);
    assert("auto"@.len() == 4);
    assert("de"@.len() == 2);
    assert("de-de"@.len() == 5);
    assert("en"@.len() == 2);
    assert("en-us"@.len() == 5);
    assert("en-gb"@.len() == 5);
    assert("fr"@.len() == 2);
    assert("fr-fr"@.len() == 5);
    assert("es"@.len() == 2);
    assert("es-es"@.len() == 5);
    assert("it"@.len() == 2);
    assert("it-it"@.len() == 5);
    assert("pt"@.len() == 2);
    assert("pt-br"@.len() == 5);
    assert("pt-pt"@.len() == 5);
    assert("ja"@.len() == 2);
    assert("ja-jp"@.len() == 5);
    assert("ko"@.len() == 2);
    assert("ko-kr"@.len() == 5);
    assert("zh"@.len() == 2);
    assert("zh-cn"@.len() == 5);
    assert("zh-tw"@.len() == 5);
    assert("ru"@.len() == 2);
    assert("ru-ru"@.len() == 5);
    assert("de"@[0] == 'd' && "de"@[1] == 'e');
    assert("de-de"@[0] == 'd' && "de-de"@[1] == 'e' && "de-de"@[3] == 'd' && "de-de"@[4] == 'e');
    assert("en"@[0] == 'e' && "en"@[1] == 'n');
    assert("en-us"@[0] == 'e' && "en-us"@[1] == 'n' && "en-us"@[3] == 'u' && "en-us"@[4] == 's');
    assert("en-gb"@[0] == 'e' && "en-gb"@[1] == 'n' && "en-gb"@[3] == 'g' && "en-gb"@[4] == 'b');
    assert("fr"@[0] == 'f' && "fr"@[1] == 'r');
    assert("fr-fr"@[0] == 'f' && "fr-fr"@[1] == 'r' && "fr-fr"@[3] == 'f' && "fr-fr"@[4] == 'r');
    assert("es"@[0] == 'e' && "es"@[1] == 's');
    assert("es-es"@[0] == 'e' && "es-es"@[1] == 's' && "es-es"@[3] == 'e' && "es-es"@[4] == 's');
    assert("it"@[0] == 'i' && "it"@[1] == 't');
    assert("it-it"@[0] == 'i' && "it-it"@[1] == 't' && "it-it"@[3] == 'i' && "it-it"@[4] == 't');
    assert("pt"@[0] == 'p' && "pt"@[1] == 't');
    assert("pt-br"@[0] == 'p' && "pt-br"@[1] == 't' && "pt-br"@[3] == 'b' && "pt-br"@[4] == 'r');
    assert("pt-pt"@[0] == 'p' && "pt-pt"@[1] == 't' && "pt-pt"@[3] == 'p' && "pt-pt"@[4] == 't');
    assert("ja"@[0] == 'j' && "ja"@[1] == 'a');
    assert("ja-jp"@[0] == 'j' && "ja-jp"@[1] == 'a' && "ja-jp"@[3] == 'j' && "ja-jp"@[4] == 'p');
    assert("ko"@[0] == 'k' && "ko"@[1] == 'o');
    assert("ko-kr"@[0] == 'k' && "ko-kr"@[1] == 'o' && "ko-kr"@[3] == 'k' && "ko-kr"@[4] == 'r');
    assert("zh"@[0] == 'z' && "zh"@[1] == 'h');
    assert("zh-cn"@[0] == 'z' && "zh-cn"@[1] == 'h' && "zh-cn"@[3] == 'c' && "zh-cn"@[4] == 'n');
    assert("zh-tw"@[0] == 'z' && "zh-tw"@[1] == 'h' && "zh-tw"@[3] == 't' && "zh-tw"@[4] == 'w');
    assert("ru"@[0] == 'r' && "ru"@[1] == 'u');
    assert("ru-ru"@[0] == 'r' && "ru-ru"@[1] == 'u' && "ru-ru"@[3] == 'r' && "ru-ru"@[4] == 'u');
}

/// A code with a region names the language of the code without it.
pub proof fn regions_do_not_matter(code: Seq<char>)
    requires
        code == "de-de"@
            || code == "en-us"@
            || code == "en-gb"@
            || code == "fr-fr"@
            || code == "es-es"@
            || code == "it-it"@
            || code == "pt-br"@
            || code == "pt-pt"@
            || code == "ja-jp"@
            || code == "ko-kr"@
            || code == "zh-cn"@
            || code == "zh-tw"@
            || code == "ru-ru"@,
    ensures
        language_name(code) == language_name(code.take(2)),
{
    codes_name_their_language();
    reveal_strlit("de");
    reveal_strlit("de-de");
    reveal_strlit("en");
    reveal_strlit("en-us");
    reveal_strlit("en-gb");
    reveal_strlit("fr");
    reveal_strlit("fr-fr");
    reveal_strlit("es");
    reveal_strlit("es-es");
    reveal_strlit("it");
    reveal_strlit("it-it");
    reveal_strlit("pt");
    reveal_strlit("pt-br");
    reveal_strlit("pt-pt");
    reveal_strlit("ja");
    reveal_strlit("ja-jp");
    reveal_strlit("ko");
    reveal_strlit("ko-kr");
    reveal_strlit("zh");
    reveal_strlit("zh-cn");
    reveal_strlit("zh-tw");
    reveal_strlit("ru");
    reveal_strlit("ru-ru");
    assert("de-de"@.take(2) =~= "de"@);
    assert("en-us"@.take(2) =~= "en"@);
    assert("en-gb"@.take(2) =~= "en"@);
    assert("fr-fr"@.take(2) =~= "fr"@);
    assert("es-es"@.take(2) =~= "es"@);
    assert("it-it"@.take(2) =~= "it"@);
    assert("pt-br"@.take(2) =~= "pt"@);
    assert("pt-pt"@.take(2) =~= "pt"@);
    assert("ja-jp"@.take(2) =~= "ja"@);
    assert("ko-kr"@.take(2) =~= "ko"@);
    assert("zh-cn"@.take(2) =~= "zh"@);
    assert("zh-tw"@.take(2) =~= "zh"@);
    assert("ru-ru"@.take(2) =~= "ru"@);
}

/// What is not a code passes through.
pub proof fn other_languages_pass_through(code: Seq<char>)
    requires
        code != ""@,
        code != "auto"@,
        code != "de"@,
        code != "de-de"@,
        code != "en"@,
        code != "en-us"@,
        code != "en-gb"@,
        code != "fr"@,
        code != "fr-fr"@,
        code != "es"@,
        code != "es-es"@,
        code != "it"@,
        code != "it-it"@,
        code != "pt"@,
        code != "pt-br"@,
        code != "pt-pt"@,
        code != "ja"@,
        code != "ja-jp"@,
        code != "ko"@,
        code != "ko-kr"@,
        code != "zh"@,
        code != "zh-cn"@,
        code != "zh-tw"@,
        code != "ru"@,
        code != "ru-ru"@,
    ensures
        language_name(code) == code,
{
}

/// Whether two characters are spellings of one: equal, the two cases of an ASCII
/// letter, or a hyphen and an underscore.
pub open spec fn same_letter(a: char, b: char) -> bool {
    ||| a == b
    ||| ('A' <= a <= 'Z' && b as int == a as int + 32)
    ||| ('A' <= b <= 'Z' && a as int == b as int + 32)
    ||| (a == '_' && b == '-')
    ||| (a == '-' && b == '_')
}

/// The spelling of a language does not matter: texts that differ in the case of
/// letters, and in hyphens and underscores, are one language. Nor does white space
/// around it.
pub proof fn spelling_does_not_matter(a: Seq<char>, b: Seq<char>)
    requires
        is_ascii_chars(a),
        is_ascii_chars(b),
        a.len() == b.len(),
        forall|i: int| 0 <= i < a.len() ==> same_letter(#[trigger] a[i], b[i]),
    ensures
        language_code(a) == language_code(b),
        language_code(a.push(' ')) == language_code(a),
        language_code(seq![' '] + a) == language_code(a),
{
    lemma_trimmed_alike(a, b);
    lemma_trimmed_is_ascii(a);
    lemma_trimmed_is_ascii(b);
    let x = trimmed(a);
    let y = trimmed(b);
    reveal_strlit("-");
    assert("-"@ =~= seq!['-']);
    text::replacing_one_for_one(text::ascii_lowercase(x), '_', '-');
    text::replacing_one_for_one(text::ascii_lowercase(y), '_', '-');
    assert(language_code(a) =~= language_code(b));
    text::trimming_drops_the_end(a, ' ');
    assert((seq![' '] + a).drop_first() =~= a);
}

proof fn lemma_trimmed_alike(a: Seq<char>, b: Seq<char>)
    requires
        a.len() == b.len(),
        forall|i: int| 0 <= i < a.len() ==> same_letter(#[trigger] a[i], b[i]),
    ensures
        trimmed(a).len() == trimmed(b).len(),
        forall|i: int|
            0 <= i < trimmed(a).len() ==> same_letter(#[trigger] trimmed(a)[i], trimmed(b)[i]),
{
    lemma_trimmed_start_alike(a, b);
    lemma_trimmed_end_alike(text::trimmed_start(a), text::trimmed_start(b));
}

proof fn lemma_trimmed_start_alike(a: Seq<char>, b: Seq<char>)
    requires
        a.len() == b.len(),
        forall|i: int| 0 <= i < a.len() ==> same_letter(#[trigger] a[i], b[i]),
    ensures
        text::trimmed_start(a).len() == text::trimmed_start(b).len(),
        forall|i: int|
            0 <= i < text::trimmed_start(a).len() ==> same_letter(
                #[trigger] text::trimmed_start(a)[i],
                text::trimmed_start(b)[i],
            ),
    decreases a.len(),
{
    if a.len() > 0 {
        assert(same_letter(a[0], b[0]));
        let x = a.drop_first();
        let y = b.drop_first();
        assert forall|i: int| 0 <= i < x.len() implies same_letter(#[trigger] x[i], y[i]) by {
            assert(same_letter(a[i + 1], b[i + 1]));
        }
        lemma_trimmed_start_alike(x, y);
    }
}

proof fn lemma_trimmed_end_alike(a: Seq<char>, b: Seq<char>)
    requires
        a.len() == b.len(),
        forall|i: int| 0 <= i < a.len() ==> same_letter(#[trigger] a[i], b[i]),
    ensures
        text::trimmed_end(a).len() == text::trimmed_end(b).len(),
        forall|i: int|
            0 <= i < text::trimmed_end(a).len() ==> same_letter(
                #[trigger] text::trimmed_end(a)[i],
                text::trimmed_end(b)[i],
            ),
    decreases a.len(),
{
    if a.len() > 0 {
        assert(same_letter(a[a.len() - 1], b[b.len() - 1]));
        lemma_trimmed_end_alike(a.drop_last(), b.drop_last());
    }
}

/// A name that is in lower case and has hyphens is normalized by the table alone.
pub proof fn plain_names_are_looked_up(name: Seq<char>)
    requires
        is_plain(name),
    ensures
        language_name(language_code(name)) == language_name(name),
{
    lemma_plain_stays(name);
}

/// Normalizing never gives an empty name, nor one with an underscore.
pub proof fn normalized_is_never_empty(language: Seq<char>)
    ensures
        language_name(language_code(language)).len() > 0,
        !language_name(language_code(language)).contains('_'),
{
    reveal_strlit("-");
    text::replacing_removes(lowered(trimmed(language)), '_', "-"@);
    reveal_strlit("");
    reveal_strlit("auto");
    reveal_strlit("german");
    reveal_strlit("english");
    reveal_strlit("french");
    reveal_strlit("spanish");
    reveal_strlit("italian");
    reveal_strlit("portuguese");
    reveal_strlit("japanese");
    reveal_strlit("korean");
    reveal_strlit("chinese");
    reveal_strlit("russian");
    let code = language_code(language);
    if code.len() == 0 {
        assert(code =~= ""@);
    }
}

/// Normalizing a language that is written in ASCII twice is normalizing it once. The
/// result is in lower case, with no white space around it.
pub proof fn normalizing_is_idempotent(language: Seq<char>)
    requires
        is_ascii_chars(language),
    ensures
        language_name(language_code(language_name(language_code(language)))) == language_name(
            language_code(language),
        ),
        is_plain(language_name(language_code(language))),
{
    let bare = trimmed(language);
    let lower = text::ascii_lowercase(bare);
    let code = replaced(lower, '_', "-"@);
    lemma_trimmed_is_ascii(language);
    text::trimmed_has_no_white_space_around(language);
    reveal_strlit("-");
    text::replacing_one_for_one(lower, '_', '-');
    assert("-"@ =~= seq!['-']);
    assert(is_plain(code));
    reveal_strlit("");
    reveal_strlit("auto");
    reveal_strlit("german");
    reveal_strlit("english");
    reveal_strlit("french");
    reveal_strlit("spanish");
    reveal_strlit("italian");
    reveal_strlit("portuguese");
    reveal_strlit("japanese");
    reveal_strlit("korean");
    reveal_strlit("chinese");
    reveal_strlit("russian");
    if language_name(code) != code {
        lemma_codes_are_short(language_name(code));
    }
    assert(is_plain(language_name(code)));
    lemma_plain_stays(language_name(code));
}

/// What is named by a code keeps its name.
proof fn lemma_codes_are_short(name: Seq<char>)
    requires
        name.len() > 5 || name == "auto"@,
    ensures
        language_name(name) == name,
{
    reveal_strlit("");
    reveal_strlit("auto");
    reveal_strlit("de");
    reveal_strlit("de-de");
    reveal_strlit("en");
    reveal_strlit("en-us");
    reveal_strlit("en-gb");
    reveal_strlit("fr");
    reveal_strlit("fr-fr");
    reveal_strlit("es");
    reveal_strlit("es-es");
    reveal_strlit("it");
    reveal_strlit("it-it");
    reveal_strlit("pt");
    reveal_strlit("pt-br");
    reveal_strlit("pt-pt");
    reveal_strlit("ja");
    reveal_strlit("ja-jp");
    reveal_strlit("ko");
    reveal_strlit("ko-kr");
    reveal_strlit("zh");
    reveal_strlit("zh-cn");
    reveal_strlit("zh-tw");
    reveal_strlit("ru");
    reveal_strlit("ru-ru");
}

// ---------------------------------------------------------------------------
// Cancelled requests
// ---------------------------------------------------------------------------

/// Whether a request has been cancelled; the cancellation is used up.
pub fn take_cancelled(cancelled: &mut HashSet<u32>, request_id: u32) -> (r: bool)
    ensures
        r == old(cancelled)@.contains(request_id),
        final(cancelled)@ == old(cancelled)@.remove(request_id),
{
    let r: bool = cancelled.remove(&request_id);
    assert(cancelled@ =~= old(cancelled)@.remove(request_id));
    r
}

/// Forgets that a request has been cancelled.
pub fn clear_cancelled(cancelled: &mut HashSet<u32>, request_id: u32)
    ensures
        final(cancelled)@ == old(cancelled)@.remove(request_id),
{
    let _ = take_cancelled(cancelled, request_id);
}

// ---------------------------------------------------------------------------
// Frames that come in
// ---------------------------------------------------------------------------

/// What becomes of a frame as soon as it has been read.
#[derive(Clone, Copy, Debug, PartialEq, Eq, Structural)]
pub enum Route {
    /// It has been dealt with.
    Done,
    /// It waits for its turn.
    Queue,
    /// It waits for its turn, and nothing is read after it.
    QueueLast,
}

/// The cancelled requests after a frame has been read.
pub open spec fn cancelled_after(cancelled: Set<u32>, frame: Frame) -> Set<u32> {
    if frame.frame_type == WORKER_INPUT_CANCEL {
        cancelled.insert(frame.request_id)
    } else {
        cancelled
    }
}

/// The cancelled requests after frames have been read, one after the other.
pub open spec fn cancelled_after_all(cancelled: Set<u32>, frames: Seq<Frame>) -> Set<u32>
    decreases frames.len(),
{
    if frames.len() == 0 {
        cancelled
    } else {
        cancelled_after(cancelled_after_all(cancelled, frames.drop_last()), frames.last())
    }
}

/// Routes a frame that has been read: a cancellation takes effect at once, ahead
/// of everything that waits, and nothing is read after a shutdown.
pub fn route_frame(frame: &Frame, cancelled: &mut HashSet<u32>) -> (r: Route)
    ensures
        r == (if frame.frame_type == WORKER_INPUT_CANCEL {
            Route::Done
        } else if frame.frame_type == WORKER_INPUT_SHUTDOWN {
            Route::QueueLast
        } else {
            Route::Queue
        }),
        final(cancelled)@ == cancelled_after(old(cancelled)@, *frame),
{
    if frame.frame_type == WORKER_INPUT_CANCEL {
        cancelled.insert(frame.request_id);
        Route::Done
    } else if frame.frame_type == WORKER_INPUT_SHUTDOWN {
        Route::QueueLast
    } else {
        Route::Queue
    }
}

/// A cancellation overtakes everything that waits: once its frame has been read,
/// the request is cancelled, whatever is read before its turn comes. Reading
/// cancels nothing else.
pub proof fn cancellation_is_remembered(cancelled: Set<u32>, frames: Seq<Frame>, request_id: u32)
    ensures
        cancelled_after_all(cancelled, frames).contains(request_id) <==> {
            ||| cancelled.contains(request_id)
            ||| exists|i: int|
                0 <= i < frames.len() && (#[trigger] frames[i]).frame_type == WORKER_INPUT_CANCEL
                    && frames[i].request_id == request_id
        },
    decreases frames.len(),
{
    if frames.len() > 0 {
        let before = frames.drop_last();
        cancellation_is_remembered(cancelled, before, request_id);
        assert forall|i: int| 0 <= i < before.len() implies #[trigger] frames[i] == before[i] by {}
        if frames.last().frame_type == WORKER_INPUT_CANCEL && frames.last().request_id
            == request_id {
            assert(frames[frames.len() - 1] == frames.last());
        }
        if exists|i: int|
            0 <= i < before.len() && (#[trigger] before[i]).frame_type == WORKER_INPUT_CANCEL
                && before[i].request_id == request_id {
            let i = choose|i: int|
                0 <= i < before.len() && (#[trigger] before[i]).frame_type == WORKER_INPUT_CANCEL
                    && before[i].request_id == request_id;
            assert(frames[i] == before[i]);
        }
    }
}

/// What to do with a frame whose turn has come.
#[derive(Debug)]
pub enum Turn {
    /// Stop serving.
    Stop,
    /// Speak.
    Speak,
    /// Answer with this frame.
    Answer(Vec<u8>),
}

/// An error frame.
pub open spec fn error_bytes(request_id: u32, message: Seq<char>) -> Seq<u8> {
    frame_bytes(WORKER_OUTPUT_ERROR, request_id, encode_utf8(message))
}

/// Decides what to do with a frame whose turn has come.
pub fn take_turn(frame: &Frame) -> (r: Turn)
    ensures
        match r {
            Turn::Stop => frame.frame_type == WORKER_INPUT_SHUTDOWN,
            Turn::Speak => frame.frame_type == WORKER_INPUT_SPEAK,
            Turn::Answer(bytes) => {
                &&& frame.frame_type != WORKER_INPUT_SHUTDOWN
                &&& frame.frame_type != WORKER_INPUT_SPEAK
                &&& bytes@ == error_bytes(
                    frame.request_id,
                    "unknown frame type "@ + decimal_text(frame.frame_type as nat),
                )
            },
        },
{
    if frame.frame_type == WORKER_INPUT_SHUTDOWN {
        return Turn::Stop;
    }
    if frame.frame_type == WORKER_INPUT_SPEAK {
        return Turn::Speak;
    }
    let message: String = text::concat(
        "unknown frame type ",
        text::decimal(frame.frame_type as u64).as_str(),
    );
    proof {
        reveal_strlit("unknown frame type ");
        text::decimal_is_short(frame.frame_type as nat);
        lemma_short_encoding(message@);
    }
    match error_frame(frame.request_id, message.as_str()) {
        Ok(bytes) => Turn::Answer(bytes),
        Err(_) => Turn::Stop,
    }
}

/// A character takes at most four bytes.
proof fn lemma_short_encoding(s: Seq<char>)
    ensures
        encode_utf8(s).len() <= 4 * s.len(),
    decreases s.len(),
{
    if s.len() > 0 {
        lemma_short_encoding(s.drop_first());
    }
}

/// An error frame; fails when the message is too long for a frame.
pub fn error_frame(request_id: u32, message: &str) -> (r: Result<Vec<u8>, FrameTooLong>)
    ensures
        r is Ok <==> encode_utf8(message@).len() <= u32::MAX,
        r matches Ok(bytes) ==> bytes@ == error_bytes(request_id, message@),
{
    write_frame(WORKER_OUTPUT_ERROR, request_id, message.as_bytes())
}

/// An error frame tells its reader which request has failed, and why.
pub proof fn error_frame_is_understood(request_id: u32, message: Seq<char>, rest: Seq<u8>)
    requires
        encode_utf8(message).len() <= u32::MAX,
    ensures
        ({
            let bytes = error_bytes(request_id, message) + rest;
            &&& has_frame(bytes)
            &&& bytes[0] == WORKER_OUTPUT_ERROR
            &&& from_le4(bytes.subrange(1, 5)) == request_id
            &&& decode_utf8(bytes.subrange(9, 9 + announced_len(bytes))) == message
        }),
{
    let payload = encode_utf8(message);
    let bytes = error_bytes(request_id, message) + rest;
    assert(bytes.subrange(1, 5) =~= le4(request_id as int));
    assert(bytes.subrange(5, 9) =~= le4(payload.len() as int));
    le4_roundtrip(request_id as int);
    le4_roundtrip(payload.len() as int);
    assert(bytes.subrange(9, 9 + announced_len(bytes)) =~= payload);
    vstd::utf8::encode_utf8_decode_utf8(message);
}

/// The frame that says that the worker is ready.
pub fn ready_frame() -> (r: Vec<u8>)
    ensures
        r@ == frame_bytes(WORKER_OUTPUT_READY, 0, Seq::empty()),
{
    empty_frame(WORKER_OUTPUT_READY, 0)
}

/// A frame without payload.
fn empty_frame(frame_type: u8, request_id: u32) -> (r: Vec<u8>)
    ensures
        r@ == frame_bytes(frame_type, request_id, Seq::empty()),
{
    let nothing: Vec<u8> = Vec::new();
    assert(nothing@ =~= Seq::empty());
    match write_frame(frame_type, request_id, nothing.as_slice()) {
        Ok(bytes) => bytes,
        Err(_) => nothing,
    }
}

/// Answers a request that has failed, and forgets its cancellation.
pub fn fail_request(request_id: u32, message: &str, cancelled: &mut HashSet<u32>) -> (r: Result<
    Vec<u8>,
    FrameTooLong,
>)
    ensures
        r is Ok <==> encode_utf8(message@).len() <= u32::MAX,
        r matches Ok(bytes) ==> bytes@ == error_bytes(request_id, message@),
        final(cancelled)@ == (if r is Ok {
            old(cancelled)@.remove(request_id)
        } else {
            old(cancelled)@
        }),
{
    match error_frame(request_id, message) {
        Ok(bytes) => {
            clear_cancelled(cancelled, request_id);
            Ok(bytes)
        },
        Err(e) => Err(e),
    }
}

// ---------------------------------------------------------------------------
// Speaking
// ---------------------------------------------------------------------------

/// Why a request is not spoken.
#[derive(Debug)]
pub enum SpeakError {
    /// The payload is not UTF-8; the message says where.
    NotText(String),
    /// There is nothing to speak.
    EmptyText,
    /// A frame would be too long.
    TooLong,
}

impl SpeakError {
    /// What the request is answered with.
    pub open spec fn text(self) -> Seq<char> {
        match self {
            SpeakError::NotText(message) => message@,
            SpeakError::EmptyText => "empty text"@,
            SpeakError::TooLong => "out of range integral type conversion attempted"@,
        }
    }

    /// What the request is answered with.
    pub fn message(&self) -> (r: String)
        ensures
            r@ == self.text(),
    {
        match self {
            SpeakError::NotText(message) => message.clone(),
            SpeakError::EmptyText => "empty text".to_owned(),
            SpeakError::TooLong => "out of range integral type conversion attempted".to_owned(),
        }
    }
}

/// How a request to speak begins.
#[derive(Debug)]
pub enum SpeakStart {
    /// It was cancelled before its turn: the frame is the whole answer.
    Cancelled { frame: Vec<u8> },
    /// It is refused; the answer is an error frame.
    Refused { error: SpeakError },
    /// It is spoken: the frame goes out first, then what the session hands out
    /// for the audio of the text.
    Started { text: String, frame: Vec<u8>, session: SpeakSession },
}

/// A request that is being spoken, as it stands.
pub struct SpeakState {
    pub request_id: u32,
    /// Whether output cleanup is bypassed.
    pub ungated: bool,
    /// Whether a chunk of audio has come.
    pub heard: bool,
    /// Whether the request was cancelled while it was spoken.
    pub cancelled: bool,
    pub stream: PcmState,
}

impl SpeakState {
    /// What holds at any time.
    pub open spec fn wf(self) -> bool {
        self.stream.wf()
    }

    /// A request before the first chunk of audio.
    pub open spec fn fresh(settings: StreamSettings, request_id: u32, ungated: bool) -> SpeakState {
        SpeakState {
            request_id,
            ungated,
            heard: false,
            cancelled: false,
            stream: PcmState::fresh(settings.output_sample_rate, settings.blocksize as int),
        }
    }

    /// Whether the blocks of the stream fit into frames.
    pub open spec fn blocks_fit(self) -> bool {
        2 * self.stream.blocksize <= u32::MAX
    }
}

/// A request that is being spoken.
#[derive(Debug)]
pub struct SpeakSession {
    request_id: u32,
    ungated: bool,
    heard: bool,
    cancelled: bool,
    streamer: PcmStreamer,
}

impl View for SpeakSession {
    type V = SpeakState;

    closed spec fn view(&self) -> SpeakState {
        SpeakState {
            request_id: self.request_id,
            ungated: self.ungated,
            heard: self.heard,
            cancelled: self.cancelled,
            stream: self.streamer@,
        }
    }
}

/// What to do with a chunk of generated audio.
#[derive(Clone, Copy, Debug, PartialEq, Eq, Structural)]
pub enum ChunkStep {
    /// Stop generating.
    Stop,
    /// Send the chunk.
    Send { first: bool },
}

/// The audio blocks as frames.
pub open spec fn chunk_frames(request_id: u32, blocks: Seq<Seq<i16>>) -> Seq<Seq<u8>> {
    blocks.map_values(
        |block: Seq<i16>|
            frame_bytes(WORKER_OUTPUT_AUDIO_CHUNK, request_id, pcm_bytes(block)),
    )
}

impl Worker {
    /// Begins a request to speak.
    pub fn handle_speak(
        &self,
        request_id: u32,
        payload: &[u8],
        ungated: bool,
        cancelled: &mut HashSet<u32>,
    ) -> (r: SpeakStart)
        requires
            self.settings.wf(),
        ensures
            final(cancelled)@ == old(cancelled)@.remove(request_id),
            match r {
                SpeakStart::Cancelled { frame } => {
                    &&& old(cancelled)@.contains(request_id)
                    &&& frame@ == frame_bytes(WORKER_OUTPUT_AUDIO_DONE, request_id, Seq::empty())
                },
                SpeakStart::Refused { error } => {
                    &&& !old(cancelled)@.contains(request_id)
                    &&& match error {
                        SpeakError::NotText(message) => !valid_utf8(payload@) && message@
                            == utf8_error_text(payload@),
                        SpeakError::EmptyText => valid_utf8(payload@) && trimmed(
                            decode_utf8(payload@),
                        ).len() == 0,
                        SpeakError::TooLong => false,
                    }
                },
                SpeakStart::Started { text, frame, session } => {
                    &&& !old(cancelled)@.contains(request_id)
                    &&& valid_utf8(payload@)
                    &&& text@ == trimmed(decode_utf8(payload@))
                    &&& text@.len() > 0
                    &&& frame@ == frame_bytes(
                        WORKER_OUTPUT_AUDIO_START,
                        request_id,
                        le4(self.settings.output_sample_rate as int),
                    )
                    &&& session@ == SpeakState::fresh(self.settings, request_id, ungated)
                    &&& session@.wf()
                },
            },
    {
        if take_cancelled(cancelled, request_id) {
            return SpeakStart::Cancelled { frame: empty_frame(WORKER_OUTPUT_AUDIO_DONE, request_id) };
        }
        match text::from_utf8(payload) {
            Err(message) => SpeakStart::Refused { error: SpeakError::NotText(message) },
            Ok(whole) => {
                let bare: &str = text::trim(whole);
                if bare.is_empty() {
                    return SpeakStart::Refused { error: SpeakError::EmptyText };
                }
                let rate: Vec<u8> = le4_bytes(self.settings.output_sample_rate);
                match write_frame(WORKER_OUTPUT_AUDIO_START, request_id, rate.as_slice()) {
                    Ok(frame) => SpeakStart::Started {
                        text: bare.to_owned(),
                        frame,
                        session: SpeakSession {
                            request_id,
                            ungated,
                            heard: false,
                            cancelled: false,
                            streamer: PcmStreamer::new(
                                self.settings.output_sample_rate,
                                self.settings.blocksize,
                            ),
                        },
                    },
                    Err(_) => SpeakStart::Refused { error: SpeakError::TooLong },
                }
            },
        }
    }
}

impl SpeakSession {
    /// Takes up a chunk of generated audio: stops the request if it has been
    /// cancelled in the meantime, and cleans up the first chunk.
    pub fn take_chunk(
        &mut self,
        samples: &mut Vec<Sample>,
        sample_rate: u32,
        cancelled: &mut HashSet<u32>,
    ) -> (r: ChunkStep)
        ensures
            final(cancelled)@ == old(cancelled)@.remove(old(self)@.request_id),
            if old(cancelled)@.contains(old(self)@.request_id) {
                &&& r == ChunkStep::Stop
                &&& final(self)@ == (SpeakState { cancelled: true, ..old(self)@ })
                &&& final(samples)@ == old(samples)@
            } else if old(self)@.heard || old(self)@.ungated {
                &&& r == (ChunkStep::Send { first: !old(self)@.heard })
                &&& final(self)@ == (SpeakState { heard: true, ..old(self)@ })
                &&& final(samples)@ == old(samples)@
            } else {
                &&& r == (ChunkStep::Send { first: true })
                &&& final(self)@ == (SpeakState { heard: true, ..old(self)@ })
                &&& is_cleaned(final(samples)@, old(samples)@, sample_rate)
            },
    {
        if take_cancelled(cancelled, self.request_id) {
            self.cancelled = true;
            return ChunkStep::Stop;
        }
        let first: bool = !self.heard;
        self.heard = true;
        if first && !self.ungated {
            gate_leading_nonspeech(samples, sample_rate);
        }
        ChunkStep::Send { first }
    }

    /// How many samples have gone out, padding not counted.
    pub fn audio_samples(&self) -> (r: usize)
        ensures
            r == self@.stream.audio_samples,
    {
        self.streamer.audio_samples()
    }

    /// How many samples wait for a block to be filled.
    pub fn waiting(&self) -> (r: usize)
        ensures
            r == self@.stream.leftover.len(),
    {
        self.streamer.waiting()
    }

    /// The frames that go out for samples at the output rate.
    pub fn push(&mut self, samples: &Vec<Sample>) -> (r: Result<Vec<Vec<u8>>, SpeakError>)
        requires
            old(self)@.wf(),
            old(self)@.stream.audio_samples + old(self)@.stream.leftover.len() + samples@.len()
                <= usize::MAX,
        ensures
            final(self)@.wf(),
            ({
                let before = old(self)@;
                let blocks = before.stream.push_blocks(pcm_of(samples@), before.ungated);
                &&& final(self)@ == (SpeakState {
                    stream: before.stream.pushed(pcm_of(samples@), before.ungated),
                    ..before
                })
                &&& r is Ok <==> blocks.len() == 0 || before.blocks_fit()
                &&& match r {
                    Ok(frames) => frames@.map_values(|f: Vec<u8>| f@) == chunk_frames(
                        before.request_id,
                        blocks,
                    ),
                    Err(e) => e is TooLong,
                }
            }),
    {
        let blocks: Vec<Vec<i16>> = self.streamer.push(samples, self.ungated);
        let ghost views = blocks@.map_values(|block: Vec<i16>| block@);
        let mut frames: Vec<Vec<u8>> = Vec::new();
        let mut i: usize = 0;
        while i < blocks.len()
            invariant
                i <= blocks@.len(),
                views == blocks@.map_values(|block: Vec<i16>| block@),
                old(self)@.wf(),
                views == old(self)@.stream.push_blocks(pcm_of(samples@), old(self)@.ungated),
                self@ == (SpeakState {
                    stream: old(self)@.stream.pushed(pcm_of(samples@), old(self)@.ungated),
                    ..old(self)@
                }),
                self@.wf(),
                i > 0 ==> old(self)@.blocks_fit(),
                frames@.len() == i,
                forall|j: int|
                    0 <= j < i ==> #[trigger] frames@[j]@ == frame_bytes(
                        WORKER_OUTPUT_AUDIO_CHUNK,
                        old(self)@.request_id,
                        pcm_bytes(views[j]),
                    ),
            decreases blocks@.len() - i,
        {
            proof {
                crate::pcm::blocks_have_one_size(
                    old(self)@.stream,
                    pcm_of(samples@),
                    old(self)@.ungated,
                    i as int,
                );
                assert(views[i as int] == blocks@[i as int]@);
            }
            match chunk_frame(self.request_id, &blocks[i]) {
                Ok(frame) => {
                    frames.push(frame);
                },
                Err(_) => {
                    return Err(SpeakError::TooLong);
                },
            }
            i += 1;
        }
        assert(frames@.map_values(|f: Vec<u8>| f@) =~= chunk_frames(
            old(self)@.request_id,
            views,
        ));
        Ok(frames)
    }

    /// The frame that goes out for what remains at the end.
    fn finish(&mut self) -> (r: Result<Option<Vec<u8>>, FrameTooLong>)
        requires
            old(self)@.wf(),
            old(self)@.stream.audio_samples + old(self)@.stream.leftover.len() <= usize::MAX,
        ensures
            final(self)@.wf(),
            final(self)@ == (SpeakState { stream: old(self)@.stream.finished(), ..old(self)@ }),
            r is Ok <==> old(self)@.stream.leftover.len() == 0 || old(self)@.blocks_fit(),
            match r {
                Ok(Some(frame)) => old(self)@.stream.leftover.len() > 0 && frame@ == frame_bytes(
                    WORKER_OUTPUT_AUDIO_CHUNK,
                    old(self)@.request_id,
                    pcm_bytes(old(self)@.stream.last_block()),
                ),
                Ok(None) => old(self)@.stream.leftover.len() == 0,
                Err(_) => true,
            },
    {
        match self.streamer.finish() {
            None => Ok(None),
            Some(block) => match chunk_frame(self.request_id, &block) {
                Ok(frame) => Ok(Some(frame)),
                Err(e) => Err(e),
            },
        }
    }

    /// Seconds of non-speech at the end of the audio that has gone out.
    pub fn trailing_nonspeech_seconds(&self) -> (r: Seconds)
        ensures
            r.sample_rate == divisor(self@.stream.output_sample_rate),
            r.samples == self@.stream.trailing_nonspeech(),
            r.samples <= self@.stream.tail.len(),
    {
        self.streamer.trailing_nonspeech_seconds()
    }

    /// The frame that closes a request.
    fn closing_frame(&self, truncated: bool) -> (r: Vec<u8>)
        requires
            self@.wf(),
        ensures
            r@ == self@.closing(truncated),
    {
        let trailing: Seconds = self.trailing_nonspeech_seconds();
        match degenerate_reason(truncated, trailing) {
            Some(reason) => {
                proof {
                    lemma_short_encoding(reason@);
                }
                match error_frame(self.request_id, reason.as_str()) {
                    Ok(frame) => frame,
                    Err(_) => Vec::new(),
                }
            },
            None => empty_frame(WORKER_OUTPUT_AUDIO_DONE, self.request_id),
        }
    }

    /// Ends the request: the last frames that go out. What remains of the audio
    /// comes first. Then the request is done, unless the audio turned out to be
    /// degenerate, which must not pass for a complete utterance. A request that
    /// was cancelled on the way is done, and what remains is dropped.
    pub fn end(&mut self, truncated: bool, cancelled: &mut HashSet<u32>) -> (r: Result<
        Vec<Vec<u8>>,
        SpeakError,
    >)
        requires
            old(self)@.wf(),
            old(self)@.stream.audio_samples + old(self)@.stream.leftover.len() <= usize::MAX,
        ensures
            final(self)@.wf(),
            final(self)@ == old(self)@.ended(),
            r is Ok <==> old(self)@.cancelled || old(self)@.stream.leftover.len() == 0 || old(
                self,
            )@.blocks_fit(),
            match r {
                Ok(frames) => frames@.map_values(|f: Vec<u8>| f@) == old(self)@.last_frames(
                    truncated,
                ),
                Err(e) => e is TooLong,
            },
            final(cancelled)@ == (if r is Ok && !old(self)@.cancelled {
                old(cancelled)@.remove(old(self)@.request_id)
            } else {
                old(cancelled)@
            }),
    {
        let mut frames: Vec<Vec<u8>> = Vec::new();
        if self.cancelled {
            frames.push(empty_frame(WORKER_OUTPUT_AUDIO_DONE, self.request_id));
            assert(frames@.map_values(|f: Vec<u8>| f@) =~= old(self)@.last_frames(truncated));
            return Ok(frames);
        }
        match self.finish() {
            Ok(Some(frame)) => {
                frames.push(frame);
            },
            Ok(None) => {},
            Err(_) => {
                return Err(SpeakError::TooLong);
            },
        }
        clear_cancelled(cancelled, self.request_id);
        frames.push(self.closing_frame(truncated));
        assert(frames@.map_values(|f: Vec<u8>| f@) =~= old(self)@.last_frames(truncated));
        Ok(frames)
    }
}

impl SpeakState {
    /// The request after its end.
    pub open spec fn ended(self) -> SpeakState {
        if self.cancelled {
            self
        } else {
            SpeakState { stream: self.stream.finished(), ..self }
        }
    }

    /// Why the audio that has gone out is degenerate, if it is.
    pub open spec fn degenerate(self, truncated: bool) -> Option<Seq<char>> {
        reason_text(
            truncated,
            Seconds {
                samples: self.stream.trailing_nonspeech() as usize,
                sample_rate: divisor(self.stream.output_sample_rate),
            },
        )
    }

    /// The frame that closes a request whose audio has all gone out.
    pub open spec fn closing(self, truncated: bool) -> Seq<u8> {
        match self.degenerate(truncated) {
            Some(reason) => error_bytes(self.request_id, reason),
            None => frame_bytes(WORKER_OUTPUT_AUDIO_DONE, self.request_id, Seq::empty()),
        }
    }

    /// The last frames of a request.
    pub open spec fn last_frames(self, truncated: bool) -> Seq<Seq<u8>> {
        if self.cancelled {
            seq![frame_bytes(WORKER_OUTPUT_AUDIO_DONE, self.request_id, Seq::empty())]
        } else if self.stream.leftover.len() > 0 {
            chunk_frames(self.request_id, seq![self.stream.last_block()]).push(
                self.ended().closing(truncated),
            )
        } else {
            seq![self.ended().closing(truncated)]
        }
    }
}

/// A request is closed exactly once: its last frame says that it is done or that
/// it has failed, and the frame before it, if there is one, carries audio.
pub proof fn request_is_closed_once(state: SpeakState, truncated: bool)
    ensures
        ({
            let frames = state.last_frames(truncated);
            &&& 1 <= frames.len() <= 2
            &&& frames.last()[0] == WORKER_OUTPUT_AUDIO_DONE || frames.last()[0]
                == WORKER_OUTPUT_ERROR
            &&& frames.len() == 2 ==> frames[0][0] == WORKER_OUTPUT_AUDIO_CHUNK
        }),
{
}

/// Audio that is cut off or has collapsed never passes for a complete utterance:
/// the request fails, unless it was cancelled. Other audio never fails.
pub proof fn degenerate_audio_is_reported(state: SpeakState, truncated: bool)
    requires
        !state.cancelled,
    ensures
        ({
            let last = state.last_frames(truncated).last();
            let trailing = state.ended().stream.trailing_nonspeech() as usize;
            let limit = MAX_TRAILING_SECONDS * state.stream.output_sample_rate;
            &&& last[0] == WORKER_OUTPUT_ERROR <==> truncated || trailing > limit
            &&& last[0] == WORKER_OUTPUT_AUDIO_DONE <==> !truncated && trailing <= limit
        }),
{
}

// ---------------------------------------------------------------------------
// Whole requests
// ---------------------------------------------------------------------------

/// A request that is being spoken after chunks of audio have been pushed one by one;
/// it may have been cancelled after the last of them.
pub open spec fn spoken(
    settings: StreamSettings,
    request_id: u32,
    ungated: bool,
    chunks: Seq<Seq<i16>>,
    cancelled: bool,
) -> SpeakState {
    let fresh = SpeakState::fresh(settings, request_id, ungated);
    SpeakState {
        heard: chunks.len() > 0,
        cancelled,
        stream: after_chunks(fresh.stream, chunks, ungated),
        ..fresh
    }
}

/// A spoken request is what its steps make of it: it begins as it is handed out, each
/// chunk is pushed, and a cancellation only marks it.
pub proof fn spoken_follows_the_steps(
    settings: StreamSettings,
    request_id: u32,
    ungated: bool,
    chunks: Seq<Seq<i16>>,
    pcm: Seq<i16>,
)
    ensures
        spoken(settings, request_id, ungated, Seq::empty(), false) == SpeakState::fresh(
            settings,
            request_id,
            ungated,
        ),
        ({
            let before = spoken(settings, request_id, ungated, chunks, false);
            &&& spoken(settings, request_id, ungated, chunks.push(pcm), false) == (SpeakState {
                heard: true,
                stream: before.stream.pushed(pcm, ungated),
                ..before
            })
            &&& spoken(settings, request_id, ungated, chunks, true) == (SpeakState {
                cancelled: true,
                ..before
            })
        }),
{
    assert(chunks.push(pcm).drop_last() =~= chunks);
}

/// The frames that pushing chunks of audio one by one hands out.
pub open spec fn pushed_frames(
    settings: StreamSettings,
    request_id: u32,
    ungated: bool,
    chunks: Seq<Seq<i16>>,
) -> Seq<Seq<u8>>
    decreases chunks.len(),
{
    if chunks.len() == 0 {
        Seq::empty()
    } else {
        let earlier = chunks.drop_last();
        pushed_frames(settings, request_id, ungated, earlier) + chunk_frames(
            request_id,
            spoken(settings, request_id, ungated, earlier, false).stream.push_blocks(
                chunks.last(),
                ungated,
            ),
        )
    }
}

/// All frames that go out for a request that is spoken: the one that starts it, those
/// for each chunk, and the last ones.
pub open spec fn request_frames(
    settings: StreamSettings,
    request_id: u32,
    ungated: bool,
    chunks: Seq<Seq<i16>>,
    cancelled: bool,
    truncated: bool,
) -> Seq<Seq<u8>> {
    seq![
        frame_bytes(
            WORKER_OUTPUT_AUDIO_START,
            request_id,
            le4(settings.output_sample_rate as int),
        ),
    ] + pushed_frames(settings, request_id, ungated, chunks) + spoken(
        settings,
        request_id,
        ungated,
        chunks,
        cancelled,
    ).last_frames(truncated)
}

/// The audio blocks that go out for a request.
pub open spec fn request_blocks(
    settings: StreamSettings,
    ungated: bool,
    chunks: Seq<Seq<i16>>,
    cancelled: bool,
) -> Seq<Seq<i16>> {
    let fresh = PcmState::fresh(settings.output_sample_rate, settings.blocksize as int);
    let state = after_chunks(fresh, chunks, ungated);
    if !cancelled && state.leftover.len() > 0 {
        sent_blocks(fresh, chunks, ungated).push(state.last_block())
    } else {
        sent_blocks(fresh, chunks, ungated)
    }
}

/// What goes out for a request that is spoken, over any chunks of audio: one frame
/// that starts it; then only frames with audio, all of the one size; then exactly one
/// frame that closes it, and nothing behind that. The audio is that of the chunks in
/// order, but for an inaudible front part, and the last block is filled up with
/// silence. A request that was cancelled breaks off after a whole block.
pub proof fn request_is_answered_whole(
    settings: StreamSettings,
    request_id: u32,
    ungated: bool,
    chunks: Seq<Seq<i16>>,
    cancelled: bool,
    truncated: bool,
)
    requires
        settings.wf(),
    ensures
        ({
            let frames = request_frames(
                settings,
                request_id,
                ungated,
                chunks,
                cancelled,
                truncated,
            );
            let blocks = request_blocks(settings, ungated, chunks, cancelled);
            let state = spoken(settings, request_id, ungated, chunks, cancelled);
            let audio = joined(chunks);
            let sent = joined(blocks);
            // How much of the front is left out, and how much of the rest goes out.
            let skipped = audio.len() - state.stream.audio_samples - state.stream.leftover.len();
            let carried = audio.skip(skipped);
            &&& frames.len() == blocks.len() + 2
            &&& frames[0] == frame_bytes(
                WORKER_OUTPUT_AUDIO_START,
                request_id,
                le4(settings.output_sample_rate as int),
            )
            &&& forall|i: int|
                0 < i <= blocks.len() ==> #[trigger] frames[i] == frame_bytes(
                    WORKER_OUTPUT_AUDIO_CHUNK,
                    request_id,
                    pcm_bytes(blocks[i - 1]),
                )
            &&& forall|i: int|
                0 <= i < blocks.len() ==> pcm_bytes(#[trigger] blocks[i]).len() == 2
                    * settings.blocksize
            &&& frames.last() == (if cancelled {
                frame_bytes(WORKER_OUTPUT_AUDIO_DONE, request_id, Seq::empty())
            } else {
                state.ended().closing(truncated)
            })
            &&& frames.last()[0] == WORKER_OUTPUT_AUDIO_DONE || frames.last()[0]
                == WORKER_OUTPUT_ERROR
            &&& 0 <= skipped <= audio.len()
            &&& forall|i: int| 0 <= i < skipped ==> !audible(#[trigger] audio[i])
            &&& ungated ==> skipped == 0
            &&& if cancelled {
                sent.len() <= carried.len() && sent == carried.take(sent.len() as int)
            } else {
                &&& carried.len() <= sent.len() < carried.len() + settings.blocksize
                &&& sent.take(carried.len() as int) == carried
                &&& forall|i: int| carried.len() <= i < sent.len() ==> #[trigger] sent[i] == 0
            }
        }),
{
    let fresh = PcmState::fresh(settings.output_sample_rate, settings.blocksize as int);
    let state = spoken(settings, request_id, ungated, chunks, cancelled);
    let stream = state.stream;
    let pushed = sent_blocks(fresh, chunks, ungated);
    let blocks = request_blocks(settings, ungated, chunks, cancelled);
    let frames = request_frames(settings, request_id, ungated, chunks, cancelled, truncated);
    lemma_pushed_frames(settings, request_id, ungated, chunks);
    sent_blocks_hold_the_samples(fresh, chunks, ungated);
    stream_carries_the_audio(
        settings.output_sample_rate,
        settings.blocksize as int,
        chunks,
        ungated,
    );
    let audio = joined(chunks);
    let before = sent_samples(fresh, chunks, ungated);
    let carried = before + stream.leftover;
    let skipped = audio.len() - carried.len();
    let sent = joined(blocks);
    if !cancelled && stream.leftover.len() > 0 {
        assert(blocks.drop_last() =~= pushed);
        assert(sent == before + stream.last_block());
        assert(sent.take(carried.len() as int) =~= carried);
    } else {
        assert(blocks == pushed);
        if cancelled {
            assert(sent =~= carried.take(sent.len() as int));
        } else {
            assert(carried =~= sent);
            assert(sent.take(carried.len() as int) =~= carried);
        }
    }
    assert forall|i: int| 0 < i <= blocks.len() implies #[trigger] frames[i] == frame_bytes(
        WORKER_OUTPUT_AUDIO_CHUNK,
        request_id,
        pcm_bytes(blocks[i - 1]),
    ) by {
        if i <= pushed.len() {
            assert(chunk_frames(request_id, pushed)[i - 1] == frames[i]);
        }
    }
    assert forall|i: int| 0 <= i < blocks.len() implies pcm_bytes(#[trigger] blocks[i]).len() == 2
        * settings.blocksize by {
        if i < pushed.len() {
            assert(pushed[i].len() == settings.blocksize);
        }
    }
}

/// Whether none of the last `m` samples is above two percent of full scale.
pub open spec fn is_quiet_at_the_end(sent: Seq<i16>, m: int) -> bool {
    &&& 0 <= m <= sent.len()
    &&& forall|i: int| sent.len() - m <= i < sent.len() ==> -655 <= #[trigger] sent[i] <= 655
}

/// The error that reports a silent tail of `t` samples.
pub open spec fn collapsed_bytes(request_id: u32, t: int, sample_rate: u32) -> Seq<u8> {
    frame_bytes(
        5,
        request_id,
        encode_utf8(
            "generation collapsed: "@ + (Seconds { samples: t as usize, sample_rate }).shown()
                + "s of trailing non-speech — split the text into shorter segments"@,
        ),
    )
}

/// Collapsed audio is reported: if what has gone out for a request ends in more than
/// three seconds in which no sample is above two percent of full scale (and a part of a
/// five-millisecond block more, and no more than the thirty seconds that are looked
/// at), then the request is closed by an error.
pub proof fn collapsed_audio_is_an_error(
    settings: StreamSettings,
    request_id: u32,
    ungated: bool,
    chunks: Seq<Seq<i16>>,
    truncated: bool,
    m: int,
)
    requires
        settings.wf(),
        3 * settings.output_sample_rate + five_ms(settings.output_sample_rate) <= m <= 30
            * settings.output_sample_rate,
        is_quiet_at_the_end(joined(request_blocks(settings, ungated, chunks, false)), m),
        joined(request_blocks(settings, ungated, chunks, false)).len() <= usize::MAX,
    ensures
        request_frames(settings, request_id, ungated, chunks, false, truncated).last()[0] == 5,
        !truncated ==> exists|t: int|
            {
                &&& m - five_ms(settings.output_sample_rate) < t
                &&& is_quiet_at_the_end(joined(request_blocks(settings, ungated, chunks, false)), t)
                &&& request_frames(
                    settings,
                    request_id,
                    ungated,
                    chunks,
                    false,
                    truncated,
                ).last() == #[trigger] collapsed_bytes(request_id, t, settings.output_sample_rate)
            },
{
    let sent = joined(request_blocks(settings, ungated, chunks, false));
    let ended = spoken(settings, request_id, ungated, chunks, false).ended();
    lemma_ended_tail(settings, request_id, ungated, chunks);
    lemma_last_frame(settings, request_id, ungated, chunks, truncated);
    let tail = ended.stream.tail;
    assert forall|i: int| tail.len() - m <= i < tail.len() implies -655 <= #[trigger] tail[i]
        <= 655 by {
        assert(tail[i] == sent[sent.len() - tail.len() + i]);
    }
    stream_measures_its_tail(ended.stream, m);
    lemma_closing(ended, truncated);
    if !truncated {
        let t = ended.stream.trailing_nonspeech();
        assert forall|i: int| sent.len() - t <= i < sent.len() implies -655 <= #[trigger] sent[i]
            <= 655 by {
            let k = i - (sent.len() - tail.len());
            assert(tail[k] == sent[i]);
        }
        assert(ended.closing(truncated) == collapsed_bytes(
            request_id,
            t,
            settings.output_sample_rate,
        ));
    }
}

proof fn lemma_last_frame(
    settings: StreamSettings,
    request_id: u32,
    ungated: bool,
    chunks: Seq<Seq<i16>>,
    truncated: bool,
)
    requires
        settings.wf(),
    ensures
        request_frames(settings, request_id, ungated, chunks, false, truncated).last() == spoken(
            settings,
            request_id,
            ungated,
            chunks,
            false,
        ).ended().closing(truncated),
{
    request_is_answered_whole(settings, request_id, ungated, chunks, false, truncated);
}

/// The frame that closes a request says by its type whether the audio was cut off or
/// has collapsed.
proof fn lemma_closing(state: SpeakState, truncated: bool)
    requires
        0 <= state.stream.trailing_nonspeech() <= usize::MAX,
    ensures
        state.closing(truncated)[0] == (if truncated || state.stream.trailing_nonspeech() > 3
            * divisor(state.stream.output_sample_rate) {
            5
        } else {
            4int
        }),
{
}

/// Good audio is not reported: if there is a sample above two percent of full scale in
/// the last three seconds of what has gone out for a request, or no more than three
/// seconds have gone out, then the request is done, unless it was cut off.
pub proof fn good_audio_is_done(
    settings: StreamSettings,
    request_id: u32,
    ungated: bool,
    chunks: Seq<Seq<i16>>,
    i: int,
)
    requires
        settings.wf(),
        ({
            let sent = joined(request_blocks(settings, ungated, chunks, false));
            let last = sent.len() - 3 * settings.output_sample_rate;
            ||| last <= 0
            ||| last <= i < sent.len() && (sent[i] < -655 || sent[i] > 655)
        }),
        joined(request_blocks(settings, ungated, chunks, false)).len() <= usize::MAX,
    ensures
        request_frames(settings, request_id, ungated, chunks, false, false).last() == frame_bytes(
            4,
            request_id,
            Seq::empty(),
        ),
        request_frames(settings, request_id, ungated, chunks, false, true).last() == frame_bytes(
            5,
            request_id,
            encode_utf8(
                "generation hit the frame cap without reaching EOS; the utterance is truncated — split the text into shorter segments"@,
            ),
        ),
{
    let sent = joined(request_blocks(settings, ungated, chunks, false));
    let ended = spoken(settings, request_id, ungated, chunks, false).ended();
    lemma_ended_tail(settings, request_id, ungated, chunks);
    lemma_last_frame(settings, request_id, ungated, chunks, false);
    lemma_last_frame(settings, request_id, ungated, chunks, true);
    let tail = ended.stream.tail;
    if settings.output_sample_rate > 0 {
        stream_measures_its_tail(ended.stream, 0);
        if sent.len() > 3 * settings.output_sample_rate {
            let k = i - (sent.len() - tail.len());
            assert(tail[k] == sent[i]);
        }
    }
    lemma_closing(ended, false);
    lemma_closing(ended, true);
}

proof fn lemma_ended_tail(
    settings: StreamSettings,
    request_id: u32,
    ungated: bool,
    chunks: Seq<Seq<i16>>,
)
    requires
        settings.wf(),
    ensures
        ({
            let sent = joined(request_blocks(settings, ungated, chunks, false));
            let ended = spoken(settings, request_id, ungated, chunks, false).ended().stream;
            &&& ended.tail == end_of(sent, 30 * settings.output_sample_rate)
            &&& ended.output_sample_rate == settings.output_sample_rate
        }),
{
    let fresh = PcmState::fresh(settings.output_sample_rate, settings.blocksize as int);
    let state = after_chunks(fresh, chunks, ungated);
    let pushed = sent_blocks(fresh, chunks, ungated);
    let blocks = request_blocks(settings, ungated, chunks, false);
    stream_remembers_thirty_seconds(
        settings.output_sample_rate,
        settings.blocksize as int,
        chunks,
        ungated,
    );
    sent_blocks_hold_the_samples(fresh, chunks, ungated);
    if state.leftover.len() > 0 {
        assert(blocks.drop_last() =~= pushed);
    }
}

proof fn lemma_pushed_frames(
    settings: StreamSettings,
    request_id: u32,
    ungated: bool,
    chunks: Seq<Seq<i16>>,
)
    ensures
        pushed_frames(settings, request_id, ungated, chunks) == chunk_frames(
            request_id,
            sent_blocks(
                PcmState::fresh(settings.output_sample_rate, settings.blocksize as int),
                chunks,
                ungated,
            ),
        ),
    decreases chunks.len(),
{
    let fresh = PcmState::fresh(settings.output_sample_rate, settings.blocksize as int);
    if chunks.len() > 0 {
        lemma_pushed_frames(settings, request_id, ungated, chunks.drop_last());
    }
    assert(pushed_frames(settings, request_id, ungated, chunks) =~= chunk_frames(
        request_id,
        sent_blocks(fresh, chunks, ungated),
    ));
}

/// A block of audio as a frame.
fn chunk_frame(request_id: u32, block: &Vec<i16>) -> (r: Result<Vec<u8>, FrameTooLong>)
    ensures
        r is Ok <==> 2 * block@.len() <= u32::MAX,
        r matches Ok(bytes) ==> bytes@ == frame_bytes(
            WORKER_OUTPUT_AUDIO_CHUNK,
            request_id,
            pcm_bytes(block@),
        ),
{
    let bytes: Vec<u8> = i16_bytes(block.as_slice());
    write_frame(WORKER_OUTPUT_AUDIO_CHUNK, request_id, bytes.as_slice())
}

// ---------------------------------------------------------------------------
// Degenerate audio
// ---------------------------------------------------------------------------

/// The longest tail of non-speech, in seconds, that a good utterance can have.
pub const MAX_TRAILING_SECONDS: u64 = 3;

/// Why a finished generation is reported as failed, if it is.
pub open spec fn reason_text(truncated: bool, trailing: Seconds) -> Option<Seq<char>> {
    if truncated {
        Some(
            "generation hit the frame cap without reaching EOS; the utterance is truncated — split the text into shorter segments"@,
        )
    } else if trailing.exceeds(MAX_TRAILING_SECONDS as int) {
        Some(
            "generation collapsed: "@ + trailing.shown()
                + "s of trailing non-speech — split the text into shorter segments"@,
        )
    } else {
        None
    }
}

/// Whether a finished generation is reported as failed.
///
/// Truncation means that the end was not reached, so the utterance is cut off. A
/// long silent tail means that the model stopped speaking but kept emitting
/// frames. Both produce audio that looks fine to the caller.
pub fn degenerate_reason(truncated: bool, trailing: Seconds) -> (r: Option<String>)
    requires
        trailing.samples < 0x20_0000_0000_0000,
    ensures
        match r {
            Some(reason) => reason_text(truncated, trailing) == Some(reason@),
            None => reason_text(truncated, trailing) is None,
        },
        r matches Some(reason) ==> reason@.len() <= 200,
{
    proof {
        reveal_strlit(
            "generation hit the frame cap without reaching EOS; the utterance is truncated — split the text into shorter segments",
        );
        reveal_strlit("generation collapsed: ");
        reveal_strlit("s of trailing non-speech — split the text into shorter segments");
    }
    if truncated {
        return Some(
            "generation hit the frame cap without reaching EOS; the utterance is truncated — split the text into shorter segments".to_owned(),
        );
    }
    if trailing.samples as u64 > MAX_TRAILING_SECONDS * trailing.sample_rate as u64 {
        let shown: String = seconds_text(trailing);
        let begin: String = text::concat("generation collapsed: ", shown.as_str());
        return Some(
            text::concat(
                begin.as_str(),
                "s of trailing non-speech — split the text into shorter segments",
            ),
        );
    }
    None
}

/// What a degenerate request is answered with: that it was cut off, or else how long
/// its silent tail is.
pub proof fn reasons_say_what_happened(truncated: bool, trailing: Seconds)
    ensures
        truncated ==> reason_text(truncated, trailing) == Some(
            "generation hit the frame cap without reaching EOS; the utterance is truncated — split the text into shorter segments"@,
        ),
        !truncated && trailing.samples > 3 * trailing.sample_rate ==> reason_text(
            truncated,
            trailing,
        ) == Some(
            "generation collapsed: "@ + trailing.shown()
                + "s of trailing non-speech — split the text into shorter segments"@,
        ),
        !truncated && trailing.samples <= 3 * trailing.sample_rate ==> reason_text(
            truncated,
            trailing,
        ) is None,
{
}

/// A size is taken as it is given, unless it is less than one.
pub proof fn sizes_are_kept(n: int)
    ensures
        at_least_one(n) >= 1,
        n >= 1 ==> at_least_one(n) == n,
        n < 1 ==> at_least_one(n) == 1,
{
}

/// A request begins with nothing heard and nothing sent, as it was asked for.
pub proof fn requests_begin_fresh(settings: StreamSettings, request_id: u32, ungated: bool)
    ensures
        ({
            let fresh = SpeakState::fresh(settings, request_id, ungated);
            &&& fresh.request_id == request_id
            &&& fresh.ungated == ungated
            &&& !fresh.heard
            &&& !fresh.cancelled
            &&& !fresh.stream.found_speech
            &&& fresh.stream.leftover.len() == 0
            &&& fresh.stream.tail.len() == 0
            &&& fresh.stream.audio_samples == 0
            &&& fresh.stream.blocksize == settings.blocksize
            &&& fresh.stream.output_sample_rate == settings.output_sample_rate
        }),
{
}

/// What a refused request is answered with.
pub proof fn refusals_say_why(message: String)
    ensures
        SpeakError::NotText(message).text() == message@,
        SpeakError::EmptyText.text() == "empty text"@,
        SpeakError::TooLong.text() == "out of range integral type conversion attempted"@,
{
}

/// The code of a language, in whatever script, is its trimmed text in lower case, with a
/// hyphen in the place of each underscore and nothing else changed.
pub proof fn codes_keep_their_letters(language: Seq<char>, i: int)
    requires
        0 <= i < lowered(trimmed(language)).len(),
    ensures
        language_code(language).len() == lowered(trimmed(language)).len(),
        language_code(language)[i] == (if lowered(trimmed(language))[i] == '_' {
            '-'
        } else {
            lowered(trimmed(language))[i]
        }),
{
    reveal_strlit("-");
    assert("-"@ =~= seq!['-']);
    text::replacing_one_for_one(lowered(trimmed(language)), '_', '-');
}

} // verus!
