//! Translation catalog toolkit: a scanner that finds translation call-sites in
//! tokenized source, a codec between flat dotted key paths and hierarchical
//! catalog documents, a locale resolver with deterministic fallback, and the
//! synchronizer that reconciles catalogs against the keys a code base uses.
pub mod args;
pub mod codec;
pub mod locale;
pub mod scanner;
pub mod strmap;
pub mod sync;
pub mod translator;
