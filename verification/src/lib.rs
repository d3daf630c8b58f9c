//! Verified core of a secondhand-watch listing harvester.
//!
//! The library turns noisy listing titles into brand and model-number
//! guesses, extracts currency mentions and converts them to USD cents
//! against a historical monthly rate table, and maintains a named,
//! deduplicated, time-ordered price database together with the state
//! machine that drives a resumable forum crawl.

pub mod codec;
pub mod currency;
pub mod dates;
pub mod error;
pub mod text;
pub mod identify;
pub mod scrapers;
pub mod tokenize;

pub use error::{WatchError, WatchIdError};
