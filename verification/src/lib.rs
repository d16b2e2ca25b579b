//! Verified core of the Rivals Beyond launcher: manifest authentication and validation,
//! update decisions, news validation, diagnostic relay decisions and error classification.
pub mod bindings;
pub mod diagnostics;
pub mod errors;
pub mod news;
pub mod paths;
pub mod scrub;
pub mod text;
pub mod updater;
