//! Amalgamates a header-only C++ library into one self-contained file by
//! resolving local inclusion directives and splicing in the referenced
//! content, each distinct target at most once.
//!
//! The crate is laid out bottom-up: `text` classifies and parses single
//! lines, `strmap` supplies the string-keyed containers the engine runs
//! on, `catalog` maps root-relative paths to canonical absolute ones (the
//! first search root wins), `resolve` turns directive lines into canonical
//! target paths, `expand` renders a file with each resolvable directive
//! spliced in place, and `output` composes the final header text.
//!
//! Filesystem work - walking the search roots, reading files and
//! canonicalizing paths - stays with the caller, who hands the library
//! plain values: the discovered headers, their contents, and a canonical
//! answer for each quoted-target query the library raises.

pub mod catalog;
pub mod expand;
pub mod output;
pub mod resolve;
pub mod strmap;
pub mod text;
