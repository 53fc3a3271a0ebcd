//! Verified core of a language server for LALRPOP grammars: conversion
//! between UTF-8 byte offsets and UTF-16 editor positions, tracking of a
//! document's text together with its latest valid analysis, and the encoding
//! of semantic highlighting tokens.

pub mod analysis;
pub mod document;
pub mod line_index;
pub mod offset_map;
pub mod round_trip;
pub mod semantic_tokens;
pub mod server;
pub mod server_command;
pub mod sort;
pub mod source;
pub mod text;
pub mod types;
