//! A terminal copilot library: a pseudo-terminal escape-sequence responder
//! that answers terminal queries inside an arbitrarily chunked byte stream,
//! geometry utilities for width-aware terminal rendering, and the chat
//! overlay's state machine and rendering engine.
//!
//! The input/output edges — the pseudo-terminal itself, the real terminal,
//! and the language-model endpoint — live with the caller; this crate holds
//! the logic between them, with its behaviour stated in contracts.

pub mod config;
pub mod geometry;
pub mod i18n;
pub mod llm;
pub mod overlay;
pub mod responder;
pub mod text;
