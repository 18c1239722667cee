//! What holds of the library as a whole.
pub mod chunking;
pub mod config;
pub mod directives;
pub mod events;
pub mod grammar;
pub mod handling;
pub mod headers;
pub mod http;
pub mod listening;
pub mod paths;
pub mod pieces;
pub mod places;
pub mod requests;
pub mod routing;
pub mod scripts;
pub mod serving;
pub mod sessions;
pub mod storing;
pub mod targets;
pub mod texts;
pub mod uploads;
pub mod validation;
pub mod visits;
pub mod words;
