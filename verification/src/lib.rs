//! Core of a small static-site builder.
//!
//! HTML pages may embed other files ("partials") through `{% name %}`
//! directives; `resolve` expands them recursively against an in-memory
//! store of partials.  A cache of last-seen modification times, with a
//! plain-text line format, makes rebuilds incremental; `file` holds the
//! per-entry decision of whether a source file must be written again,
//! and `log` formats the progress lines the builder prints.

pub mod file;
pub mod log;
pub mod mtime;
pub mod numeral;
pub mod resolve;
pub mod text;
