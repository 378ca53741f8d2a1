//! Reversible masking of personal data in text: span selection, token formatting,
//! evidence location and the small text protocols around a local language model.
pub mod text;
pub mod search;
pub mod reject;
pub mod gaze;
pub mod gliner;
pub mod splice;
pub mod token_formatter;
pub mod digest;
pub mod llamacpp;
pub mod inspect;
pub mod ui;
pub mod vault;

pub use token_formatter::TokenFormatter;
pub use vault::{Vault, VaultMapping};
