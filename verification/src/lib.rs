//! From a document to its boxes: the core of a small browser, with machine-checked
//! contracts.
//!
//! The pipeline runs in one direction:
//!
//! 1. [`html`] parses markup into a document tree ([`dom`]);
//! 2. [`css`] parses a stylesheet into rules, and says which rules match a node;
//! 3. [`style`] resolves the properties of every node and leaves out what is not
//!    displayed;
//! 4. [`layout`] turns the styled tree into a tree of block, inline and anonymous boxes.
//!
//! Every type has a view as plain data, and every function says over these views what
//! it returns. Each grammar is written down as spec functions, one for each rule, and
//! the parsers are proved to compute them. What should hold of the pipeline as a whole
//! is proved as well: [`markup`] shows that markup that was written parses back to the
//! tree it was written from, [`style`] that the last declaration of a property wins and
//! that nothing that is not displayed is styled, [`layout`] that inline boxes never
//! stand beside block boxes.
//!
//! Painting, scripting and storing the tree are left to the programs around the
//! library.

pub mod css;
pub mod dom;
pub mod html;
pub mod layout;
pub mod markup;
pub mod parse;
pub mod string_map;
pub mod style;
pub mod text;
