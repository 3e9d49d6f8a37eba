//! A static site generator's core: it turns a tree of markdown documents into
//! a fully linked HTML site. Relative and absolute markdown links are
//! canonicalized and rewritten to on-disk relative URLs; per-document
//! metadata is read from a trailing fenced JSON block; a deterministically
//! ordered navigation tree is built and rendered, with branches far from the
//! current page collapsed; and a streaming pass over parser events promotes
//! the first heading to the page title, rewrites and validates links, and
//! fills link text in from cross-document metadata.
//!
//! Markdown parsing and HTML rendering come from pulldown_cmark, metadata
//! parsing from serde_json, and a few character-class rewrites from regex;
//! each call into them stands behind a small trusted boundary, and the logic
//! around those calls is verified.

pub mod html;
pub mod index;
pub mod jsonio;
pub mod links;
pub mod mdtrust;
pub mod metadata;
pub mod nav;
pub mod paths;
pub mod pipeline;
pub mod site;
pub mod text;
pub mod textnorm;
