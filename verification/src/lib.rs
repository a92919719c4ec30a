//! Ages on the faces a detector already found: the frame passes through
//! untouched, and the boxes riding it come back with an age on each.
//!
//! A face is not scored afresh every frame. Boxes are followed from frame to
//! frame by overlap, and a face carries the running mean of its own last
//! thirty scores, so the number a row reports settles rather than jitters.
//! `every` is how many frames apart a face is scored - the work is one
//! inference per face per `every` frames - and `hold` keeps a face the
//! detector lost, re-emitted where it was last seen, so what reads these rows
//! does not flicker for the frame a head turns. With `hold` 0, for stills that
//! have nothing to do with each other, no face is followed to the next frame.
//!
//! Every number a frame carries is binary64, and is held as its bits in a
//! [`number::Num`]; what is computed of it is what IEEE 754 says.

// Numbers.
pub mod number;
pub mod rounding;
pub mod arithmetic;
pub mod exact;
pub mod sums;

// Faces, from frame to frame.
pub mod boxes;
pub mod face;
pub mod matching;
pub mod tracker;
pub mod laws;
pub mod frame;
pub mod turns;

// What comes in and goes out.
pub mod params;
pub mod rows;
pub mod stream;
pub mod text;

// The graph.
pub mod head;
pub mod graph;
