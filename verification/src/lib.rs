//! The logic of an NPC chat server for a fantasy game: the input checks
//! that guard the language model against prompt injection, the knowledge
//! base that the NPCs' answers are grounded in (documents cut into chunks,
//! grouped for retrieval, and the prompt built from them), the word counts
//! behind the retrieval's term weights, the per-NPC conversation histories
//! and how a chat request is closed once the model has answered,
//! and the rules of the knowledge-file upload and of a withdrawal endpoint.
use vstd::prelude::*;

pub mod admin;
pub mod bank;
pub mod chat;
pub mod embeddings;
pub mod history;
pub mod rag;
pub mod security;
pub mod text;
pub mod unicode;

verus! {
} // verus!
