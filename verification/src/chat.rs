//! The decision that closes a chat request, once the language model has
//! been asked.
use crate::history::{history_in, HistoryMessage, NpcHistories};
use vstd::prelude::*;

verus! {

/// How the chat endpoint answers after asking the language model.
pub enum ChatReply {
    /// The NPC's reply text, answered with success.
    Answered(String),
    /// The model could not be reached: answered as a server error.
    ModelFailed,
}

/// Closes a chat request with the language model's outcome (the reply text,
/// the player's message and the NPC's reply, or nothing when the call
/// failed): on a reply the exchange is recorded in the NPC's history and the
/// text is answered; on a failure the histories are left as they were.
pub fn finish_chat(
    histories: &mut NpcHistories,
    npc: &str,
    outcome: Option<(String, HistoryMessage, HistoryMessage)>,
) -> (r: ChatReply)
    ensures
        match outcome {
            Some((text, user, reply)) => {
                &&& r == ChatReply::Answered(text)
                &&& final(histories)@ == old(histories)@.insert(
                    npc@,
                    history_in(old(histories)@, npc@).push(user).push(reply),
                )
            },
            None => r == ChatReply::ModelFailed && final(histories)@ == old(histories)@,
        },
{
    match outcome {
        Some((text, user, reply)) => {
            histories.record_exchange(npc, user, reply);
            ChatReply::Answered(text)
        },
        None => ChatReply::ModelFailed,
    }
}

} // verus!
