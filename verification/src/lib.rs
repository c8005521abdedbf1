//! Tracker-style music as data: patterns of sparse cells over a row grid,
//! compiled to flat lists of timed events, rendered to stereo samples, and
//! edited key by key.

// Numbers
pub mod rounding;
pub mod single;
pub mod double;
pub mod order;
pub mod closeness;
pub mod accuracy;
pub mod curve;

// Text and tables
pub mod text;
pub mod table;
pub mod paths;

// Pieces, patterns and songs
pub mod piece;
pub mod note;
pub mod presets;
pub mod pattern;
pub mod compile;
pub mod song;
pub mod timing;
pub mod score;

// Sound
pub mod wav;
pub mod sample;
pub mod dsp;
pub mod response;
pub mod envelope;
pub mod fx;
pub mod voice;
pub mod mixer;
pub mod sounding;
pub mod voicing;
pub mod engine;

// Files made into patterns
pub mod mod_import;
pub mod protracker;
pub mod slice;
pub mod gapless;
pub mod placing;
pub mod loudness;
pub mod faithful;

// The editor
pub mod cells;
pub mod editor;
pub mod keys;
pub mod session;
pub mod listening;
pub mod patch;
pub mod rerender;
pub mod view;
pub mod outputs;
