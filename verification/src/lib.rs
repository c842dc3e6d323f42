pub mod byteutil;
pub mod cmd;
pub mod command;
pub mod edit;
pub mod error;
pub mod common;
pub mod function;
pub mod fuzzy;
pub mod gap_buffer;
pub mod gemini;
pub mod handle;
pub mod llmapi;
pub mod pg;
pub mod searcher;
pub mod text;
pub mod text_rows;
pub mod text_util;
pub mod util;
