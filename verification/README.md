# spqx

Local text-to-speech with voice cloning. `src/` is a library whose
functions are verified with Verus against the contracts in their headers, apart from
the few calls named under Trust; `app/` is the command line around it.

## The library

- `frame`: the binary frames of the worker protocol, written and read.
- `worker`: what the persistent worker does with frames, cancellation included,
  and what it answers. Degenerate audio never passes for a complete utterance.
- `pcm`: generated samples on their way out, in blocks of one size.
- `postprocess`: gating of leading clicks, and the tail of an utterance.
- `sample`, `scaling`, `rounding`, `seconds`, `doubles`: single- and double-precision numbers
  as bit patterns, with comparison, rounding and display in exact integer
  arithmetic.
- `engine`, `say`, `serve`, `worker_args`, `cli`, `config`, `paths`, `path`: from
  flags, configuration and environment to a model, a voice and an output.
- `voices`, `hygiene`: the registry of voices, and checks on recordings.
- `json_worker`, `codes`, `playback`: the JSON-lines worker, codec frames from JSON,
  and the source that playback draws on.
- `text`: the string operations that the rest is built on.

Paths are Unix paths, held as bytes. What is on disk, what the environment holds and
what arrives on a stream is looked up by the caller and handed in.

## The application

`app/` reads and writes files and streams, parses flags and configuration, and calls
the inference engine. Audio playback needs the ALSA headers on Linux. Resampling, the
model, and figures that are only reported are floating-point work and stay there.

## Trust

What the library takes from the standard library, `base64` and `serde_json` stands in
`text`, `json_worker` and `codes`, each behind a contract that says what is relied on.
