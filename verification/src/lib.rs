//! Where source comments belong, and how they are printed.
//!
//! Comments stand between the tokens of a program, outside its syntax tree. `attachments` gives
//! each of them a node of the tree for a host. `codegen`, `operands` and `legal` print them at
//! the places of the output where they belong, out of a `store` of those that are still to be
//! printed. `compress` conflates the assignments of a function's body.
//!
//! What holds of all this, told by the characters of the source, the spans of the nodes and the
//! contents of the comments, is stated apart from the code: of texts in `spots` and `cuts`, of
//! hosts in `neighbours` and `hosting`, of the choice of comments in `questions`, of the printed
//! text in `weaving` and `rows`, of the places of the output in `pages` and `layers`, of legal
//! comments in `licences`, and of conflated assignments in `chains`.

pub mod comment;
pub mod order;
pub mod text;
pub mod spots;

pub mod tree;
pub mod scene;
pub mod place;
pub mod pruning;
pub mod attacher;
pub mod arena;
pub mod attachments;
pub mod neighbours;
pub mod hosting;

pub mod list;
pub mod pending;
pub mod store;

pub mod options;
pub mod selection;
pub mod expression;
pub mod printer;
pub mod codegen;
pub mod operands;
pub mod legal;

pub mod laws;
pub mod questions;
pub mod weaving;
pub mod rows;
pub mod cuts;
pub mod pages;
pub mod layers;
pub mod licences;
pub mod views;

pub mod conflate;
pub mod compress;
pub mod meaning;
pub mod chains;
