//! The Playfair cipher: a digraph substitution over a 5×5 grid of letters
//! that is derived from a keyword.
//!
//! The cipher works on 25 symbols, the lowercase Latin letters with 'j'
//! merged into 'i'. A [`Keyword`] orders those symbols, a [`Playfair`]
//! holds the grid laid out from it, and [`Cipher`] names the two directions
//! of the substitution.

pub mod alphabet;
pub mod cipher;
pub mod digraph;
pub mod keyword;
pub mod std_specs;
pub mod substitution;

pub use crate::cipher::{Cipher, Playfair, Position};
pub use crate::digraph::Bigram;
pub use crate::keyword::{Keyword, Matrix};
