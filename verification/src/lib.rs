//! Account and token helpers for the glassgauge usage widget.

pub mod text;
pub mod accounts;
pub mod codec;
pub mod json;
pub mod token;
pub mod stamp;
pub mod relay;
pub mod transfer;
