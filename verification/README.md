# auris_core

The verified core of Auris, a local-first meeting recorder: it records two
tracks (microphone and system sound), transcribes them offline, tells the
speakers apart and turns the conversation into notes with an
OpenAI-compatible chat model.

- `src/` — the library, verified with Verus: speaker labels and transcript
  assembly, chat-model choice and request driving (report prompts, cutting
  long conversations into parts, map-reduce rounds), the recording session
  in segments, the capture loop's decisions (silence to the wall clock,
  reopening a stalled system-sound stream), the rules of the meeting folder, model selection and
  model files, the automatic-recording monitor, the audio editor's frame
  decisions, and the text helpers they are stated with.
- `tests/` — tests of the library.
- `app/` — ordinary Rust around it: WAV files (hound), decoding (symphonia,
  rubato), the database (rusqlite), HTTP (ureq), downloads (tar, bzip2),
  the whisper command line, the floating-point signal work (resampling,
  loudness maps, cut intervals, voice clustering, log-mel features, joining
  recognised tokens into phrases) and the commands that the desktop window
  calls.
