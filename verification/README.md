# game_rs

The core of GAME.rs, a transcriber from audio to MIDI: executable Rust whose
contracts are proved by Verus.

* `src/` is the library. It chooses the audio track and steers its decoding,
  mixes and resamples, resolves the language, steers the rounds of boundary
  refinement, turns the output of the models into clean notes, writes those as a
  MIDI file, and decides where the installer finds and puts its files.
* `tests/` runs the library on concrete values.
* `app/` is ordinary Rust around it: the command line, files, audio decoding,
  ONNX sessions, the download, and floating point arithmetic.

Verus does not calculate with floating point numbers here. Times and pitches are
held as their bit patterns, which is enough to compare them. Where numbers have to
be added, weighed or rounded, the library takes the calculation as a function and
proves which numbers go into it and where the result goes.

MIDI files are laid out by the `midly` crate. `src/smf.rs` holds every call into
it, and says of each what is taken on trust, down to the bytes of the file.
