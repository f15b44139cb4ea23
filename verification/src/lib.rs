//! The verified core of a live audio looper: record a loop, play it round and round,
//! and overdub onto it.
//!
//! - `session`: the states, the keys and the timing of overdubs;
//! - `running`: what holds as long as the looper runs;
//! - `channels`: which channels of the input are recorded;
//! - `mixing`: overdubbing into the loop buffer;
//! - `playback`: playing the loop buffer;
//! - `frames`: counting frames round a loop;
//! - `devices`: how to open the input device;
//! - `pactl`: what PulseAudio says about its devices;
//! - `display`: what is written to the terminal;
//! - `text`: white space, lines, words and numbers.
//!
//! Samples are generic: the loop logic moves and combines them through functions that
//! the caller gives.
pub mod channels;
pub mod devices;
pub mod display;
pub mod frames;
pub mod mixing;
pub mod pactl;
pub mod playback;
pub mod running;
pub mod session;
pub mod text;
