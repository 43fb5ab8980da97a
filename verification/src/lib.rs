//! Renders a directory hierarchy as an indented text tree.
//!
//! ```text
//! project
//! ├── Cargo.toml
//! └── src
//!     ├── lib.rs
//!     └── main.rs
//! ```
//!
//! The first line is the root as it was given. Below it every entry of the
//! root has a line, and below the line of a directory stand the lines of
//! what it holds, indented by four columns. The entries of a directory
//! follow each other in the dictionary order of their paths, whatever order
//! the file system lists them in. Directories are listed down to a depth
//! limit; below it a notice takes the place of their contents.
//!
//! The library does not read the file system. A tree is rendered either
//! from a [`snapshot::Snapshot`], which holds the listings of the
//! directories ([`render::render_tree`]), or step by step by a
//! [`walk::Walk`], which names the directory whose listing it needs next and
//! goes on when that listing is handed in. Both give the same text
//! ([`agreement`]).
//!
//! A directory that has to be listed and cannot be ends the rendering. The
//! caller is told which directory it was and gets no text, so that a tree
//! with a part missing is never taken for the whole.
//!
//! The contracts are stated over a model of the rendering: a run of
//! [`line::Line`]s, each of which knows which of its ancestors were the last
//! of their listings. [`shape`] holds what follows for every rendering.

pub mod agreement;
pub mod entry;
pub mod line;
pub mod options;
pub mod order;
pub mod render;
pub mod shape;
pub mod snapshot;
pub mod sorting;
pub mod text;
pub mod walk;
