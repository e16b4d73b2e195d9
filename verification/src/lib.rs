//! Core of a project-context generator: it turns a set of scanned files into a
//! single text document holding an ASCII directory tree followed by each file's
//! content, in a deterministic, diff-friendly layout.

pub mod app;
pub mod formatter;
pub mod numfmt;
pub mod order;
pub mod scanner;
