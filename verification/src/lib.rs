//! OpenDocu: document parsing, structured extraction and chunking, verified.
//!
//! - Parsing: [`detect`] sniffs the format; [`text`], [`markdown`], [`html`],
//!   [`docx`] and [`epub`] build a [`document::Document`]; [`parse`] holds the
//!   shared plain-text builder and dispatch by format.
//! - Extraction: [`tables`], [`heuristics`] (key-value pairs), [`entities`]
//!   (typed regex matches, [`patterns`]), [`models`], [`vlm`], combined by
//!   [`extractor`] and, from raw bytes, by [`extract`].
//! - Retrieval support: [`chunk`] (chunking strategies) and [`embeddings`]
//!   (the hash embedder's tokens and features).
//! - Orchestration: [`reduce`] (format hints, rendering), [`events`],
//!   [`error`], and the [`security`] primitives.

pub mod chunk;
pub mod detect;
pub mod document;
pub mod docx;
pub mod embeddings;
pub mod entities;
pub mod epub;
pub mod error;
pub mod events;
pub mod extract;
pub mod extractor;
pub mod heuristics;
pub mod html;
pub mod markdown;
pub mod models;
pub mod parse;
pub mod patterns;
pub mod reduce;
pub mod security;
pub mod strmap;
pub mod tables;
pub mod text;
pub mod textutil;
pub mod vlm;
