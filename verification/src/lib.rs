//! Expands question and answer pairs written with alternatives (`a/b`) and
//! optional parts (`a(b)`) into a sorted list in which every variant of a
//! question maps to all variants of its answers.
//!
//! A text is read line by line (`parser`), each field is expanded into its
//! variants (`expander`, on top of `divider` and `splitter`), the items are
//! merged into one mapping without regard to case (`combiner`, with what
//! holds of its rows in `contents`), and the mapping is written out in
//! ascending order of its keys (`formatter`, `order`). `generator` runs the
//! steps in turn; `text` holds what the others need to know about strings.

pub mod combiner;
pub mod contents;
pub mod divider;
pub mod expander;
pub mod formatter;
pub mod generator;
pub mod order;
pub mod parser;
pub mod splitter;
pub mod text;
