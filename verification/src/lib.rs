//! Rewrites the keymap table of a keyboard firmware source file into an
//! aligned form, and draws each layer as a box diagram in a comment.
//!
//! The lexer and the parser find the key tables of the keymaps block, the
//! renderer draws each table over the grid of the keyboard, and the patcher
//! writes the tables back between the braces of the block. What each of
//! them gives is stated by spec functions; the laws that hold between them
//! are proved in the modules whose names end in `laws`, in `rereading` and
//! in `fixed_point`.

pub mod ast;
pub mod cli;
pub mod data;
pub mod fixed_point;
pub mod formatter;
pub mod lexer;
pub mod lexing_laws;
pub mod parser;
pub mod parsing_laws;
pub mod patcher;
pub mod rendering_laws;
pub mod rereading;
pub mod text;
