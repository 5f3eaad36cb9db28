//! An experimental symmetric block cipher driven by two binary cellular automata evolving
//! on a torus.
//!
//! Layers, leaves first: [`bits`] (bit access on machine words), [`matrix`] (toroidal binary
//! matrices with a dense and a bit-packed backing), [`automata`] (the automaton engine) and
//! [`encrypt`] (the block transform). [`parse`] reads grid text, [`parse::typing`] converts
//! between bytes, words and bits, and [`key`] turns a key argument into a 32-bit key.
pub mod automata;
pub mod bits;
pub mod encrypt;
pub mod key;
pub mod matrix;
pub mod parse;
