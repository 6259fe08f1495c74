//! Per-request orchestration: resolving the conversation an incoming
//! question belongs to, and applying the inference backend's outcome —
//! append and persist on success, leave storage untouched on failure. The
//! caller performs the actual inference call and hands its outcome back.

use vstd::prelude::*;
use crate::conversation::Conversation;
use crate::conversation::ConversationView;
use crate::conversation::InteractionView;
use crate::store::Store;
use crate::store::StoreError;
use crate::codec::enc_conv;
use crate::codec::dec_conv;

verus! {

/// The outcome of one inference call, as handed back by the caller.
pub enum InferenceOutcome {
    /// The backend produced this answer text.
    Completed(String),
    /// The backend failed; no text was produced.
    Failed,
}

/// Why a question-handling turn fails.
#[derive(Debug)]
pub enum TurnError {
    /// The inference backend produced no answer; nothing was recorded.
    InferenceFailed,
}

/// The result of the read-only fetch of a conversation by identifier.
pub enum FetchOutcome {
    /// The stored conversation.
    Found(Conversation),
    /// No record exists for the identifier. Distinct from any conversation
    /// body.
    NotFound,
}

/// The identity generator for conversations without a caller-supplied
/// identifier. Relies on uuid::Uuid::new_v4 and its hyphenated rendering
/// through `Display`: a fresh random version-4 identifier written as 36
/// characters. Nothing is assumed about which identifier comes back, only
/// its length.
#[verifier::external_body]
pub(crate) fn fresh_conversation_id() -> (r: String)
    ensures
        r@.len() == 36,
{
    uuid::Uuid::new_v4().to_string()
}

/// Resolves the conversation an incoming question belongs to: the stored
/// conversation when the caller supplied an identifier (fresh and empty if
/// that identifier has no record), otherwise a fresh empty conversation
/// under a newly generated identifier.
pub fn resolve_conversation(store: &Store, supplied_id: Option<&str>) -> (r: Result<
    Conversation,
    StoreError,
>)
    ensures
        match r {
            Ok(c) => match supplied_id {
                Some(id) => if store@.contains_key(id@) {
                    dec_conv(store@[id@]) == Some(c@)
                } else {
                    c@.id == id@ && c@.interactions.len() == 0
                },
                None => c@.id.len() == 36 && c@.interactions.len() == 0,
            },
            Err(e) => supplied_id matches Some(id) && store@.contains_key(id@) && dec_conv(
                store@[id@],
            ) is None,
        },
{
    match supplied_id {
        Some(id) => store.load(id),
        None => Ok(Conversation::new(fresh_conversation_id())),
    }
}

/// Applies one inference outcome. A completed answer is appended to the
/// conversation as its last interaction and the conversation is persisted
/// under its identifier; the call returns the answer and that identifier. A
/// failure records nothing: the store is exactly as it was, so a later load
/// of any identifier sees the conversation as before the failed attempt.
pub fn apply_inference_outcome(
    store: &mut Store,
    conversation: Conversation,
    question: &str,
    outcome: InferenceOutcome,
) -> (r: Result<(String, String), TurnError>)
    ensures
        match outcome {
            InferenceOutcome::Completed(answer) => {
                let updated = (ConversationView {
                    id: conversation@.id,
                    interactions: conversation@.interactions.push(
                        (InteractionView { question: question@, answer: answer@ }),
                    ),
                });
                &&& final(store)@ == old(store)@.insert(conversation@.id, enc_conv(updated))
                &&& r matches Ok(p) && p.0@ == answer@ && p.1@ == conversation@.id
            },
            InferenceOutcome::Failed => final(store)@ == old(store)@ && r is Err,
        },
{
    match outcome {
        InferenceOutcome::Completed(answer) => {
            let mut c = conversation;
            c.add_interaction(question, answer.as_str());
            store.save(&c);
            Ok((answer, c.id))
        },
        InferenceOutcome::Failed => Err(TurnError::InferenceFailed),
    }
}

/// The read-only fetch by identifier: the stored conversation, or a distinct
/// not-found result — never a conversation body — when no record exists.
pub fn fetch_conversation(store: &Store, id: &str) -> (r: Result<FetchOutcome, StoreError>)
    ensures
        match r {
            Ok(f) => match f {
                FetchOutcome::Found(c) => store@.contains_key(id@) && dec_conv(store@[id@])
                    == Some(c@),
                FetchOutcome::NotFound => !store@.contains_key(id@),
            },
            Err(e) => store@.contains_key(id@) && dec_conv(store@[id@]) is None,
        },
        !store@.contains_key(id@) ==> (r matches Ok(f) && f is NotFound),
{
    if store.contains(id) {
        match store.load(id) {
            Ok(c) => Ok(FetchOutcome::Found(c)),
            Err(e) => Err(e),
        }
    } else {
        Ok(FetchOutcome::NotFound)
    }
}

} // verus!
