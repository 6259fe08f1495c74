//! A minimal conversational endpoint core: a conversation is an ordered,
//! append-only list of question/answer interactions keyed by an identifier.
//! The library renders a conversation into a structured prompt for a
//! text-generation backend, serializes conversations into field-tagged,
//! length-prefixed records, and models the keyed record store together with
//! the per-request orchestration decisions.

pub mod codec;
pub mod conversation;
pub mod store;
pub mod turn;

pub use conversation::Conversation;
pub use conversation::Interaction;
