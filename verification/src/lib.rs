//! An acoustic fingerprinting engine.
//!
//! A catalog of reference recordings is distilled into an inverted index of
//! compact audio fingerprints; a short query recording is matched against the
//! index by a histogram-of-offsets vote, returning the best-aligned catalog
//! entry together with the temporal offset of the alignment.

pub mod error;
pub mod song;
pub mod spectrum;
pub mod constellation;
pub mod fingerprint;
pub mod config;
pub mod database;
pub mod matcher;

pub use error::Error;
pub use song::Song;
