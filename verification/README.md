# looper

A live audio looper for the terminal: SPACE records a loop, plays it and overdubs
onto it, R discards it, the left and right arrow keys nudge overdubs earlier and
later.

`src/` is the library. Its contracts are proved with Verus:

- which samples of an interleaved input block are recorded (`channels`);
- where each captured sample is mixed into the loop, and that a pass over the loop
  mixes each slot exactly once however the audio was cut into blocks, and that silence
  never alters the loop (`mixing`);
- which recorded sample each output sample is, and that playing never leaves the
  recording (`playback`);
- the steps from idle to recording, looping and overdubbing (`session`), and that every
  loop reached by them is played and overdubbed inside its buffer (`running`);
- which configuration the input device is opened with (`devices`);
- how the output of `pactl` is read (`pactl`, `text`);
- what is written to the terminal (`display`).

`app/` is the program around it: audio streams, the terminal, `pactl`, and the
floating-point arithmetic on levels and times. `tests/` runs the library.
