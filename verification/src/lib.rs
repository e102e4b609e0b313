//! A script-facing binding layer over a mutable document tree.
//!
//! The library holds a document as a tree of nodes ([`dom`]), reads and writes it as markup
//! ([`markup`], [`parser`], [`writer`]), looks elements up by id ([`query`]), and gives
//! script handles to elements whose `innerHTML` reads and writes the tree ([`document`],
//! [`bridge`]). Every write through a handle asks the display host to repaint
//! ([`binding`]). The laws that hold of all this are stated and proved in [`inverse`] and
//! [`laws`].
//!
//! The library talks to no script engine and to no display: it takes and gives plain
//! values, and the program around it carries them to the engine and to the screen.

pub mod binding;
pub mod bridge;
pub mod descent;
pub mod document;
pub mod dom;
pub mod inverse;
pub mod laws;
pub mod markup;
pub mod parser;
pub mod query;
pub mod writer;
