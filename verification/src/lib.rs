//! Turns a snippet of TeX-like markup into the HTML clipboard container that
//! word processors paste as native equations.
//!
//! The text is cut into spans ([`parser`]), the math spans are handed to a
//! pool of renderer workers and put back by position ([`solver`], [`worker`]),
//! and the pieces are stitched into the container with its byte offsets
//! ([`wrap_html`]).
pub mod bytes;
pub mod channel;
pub mod comm;
pub mod error;
pub mod grammar;
pub mod parser;
pub mod postproc;
pub mod solver;
pub mod util;
pub mod wellformed;
pub mod worker;
pub mod wrap_html;
