# rtracker

Tracker-style music as data: patterns of sparse cells over a row grid, rendered
offline to WAV or edited live in a terminal.

`src/` is the library. Its functions are verified with Verus against their
contracts, but for the few wrappers around outside code that are named below.
`tests/` runs it on concrete values. `app/` is the program around it:
command line, files, JSON, audio device and terminal.

## Pipeline

A `Song` is a list of `Pattern`s. A pattern compiles to a `Piece`, a flat list
of timed events; a song compiles its patterns onto one timeline. The mixer
renders a piece to interleaved stereo samples.

## Numbers

Samples, frequencies and tempos are IEEE 754 values held as bit patterns
(`single`, `double`), with arithmetic proved to be the exact result rounded to
the nearest value. Sines, cosines, exponentials and powers have no exact value;
whoever renders hands them in (`curve`).

## What is trusted

The WAV reader and writer of `hound`, behind the four wrappers of `wav`, and
`String::push` in `text`. Each says in its doc comment what is taken for granted.
