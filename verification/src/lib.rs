//! The decision-making core of GAME.rs, a transcriber from audio to MIDI.
//!
//! Everything here is executable Rust whose contracts are proved by Verus, but
//! for the calls into `midly`, which [`smf`] gathers:
//!
//! * [`single`] orders single-precision numbers by their bit patterns;
//! * [`audio`] chooses a track and steers the decoding loop;
//! * [`mixing`] mixes frames down to mono;
//! * [`loading`] takes the turns of that loop and says what a whole run comes to;
//! * [`resampling`] resamples mono samples;
//! * [`language`] resolves a language code to the identifier of the model;
//! * [`refinement`] steers the rounds of boundary refinement;
//! * [`notes`] turns the output of the models into clean notes;
//! * [`midi`] turns notes into the bytes of a MIDI file;
//! * [`functions`] says what a function passed as an argument may promise;
//! * [`install`] decides where the installer finds and puts its files.
pub mod audio;
pub mod functions;
pub mod install;
pub mod language;
pub mod loading;
pub mod midi;
pub mod mixing;
pub mod notes;
pub mod refinement;
pub mod resampling;
pub mod single;
pub mod smf;
