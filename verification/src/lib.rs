//! The core of a terminal audio meter and oscilloscope.
//!
//! The audio callbacks ([`capture`], [`playback`]) and the display ([`scope`],
//! [`plot`], [`level`], [`view`]) work on amplitudes that are held by their bit
//! patterns ([`sample`]). What the scope needs of arithmetic is done on integers and
//! rounded as binary32 numbers are ([`rounding`], [`codes`]), the rest is handed in
//! as closures ([`function`]). The rest of the program is decided here too: how
//! values are packed ([`packing`]) and queued ([`queue`]), what the command line asks
//! for ([`options`]), how the streams are set up ([`setup`]) and when to redraw
//! ([`interface`]).

pub mod capture;
pub mod codes;
pub mod function;
pub mod interface;
pub mod level;
pub mod options;
pub mod packing;
pub mod playback;
pub mod plot;
pub mod queue;
pub mod rounding;
pub mod sample;
pub mod scope;
pub mod setup;
pub mod view;
