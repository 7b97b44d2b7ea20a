//! Chat messages and the per-NPC conversation histories that the chat
//! endpoint keeps between requests.
use vstd::prelude::*;

verus! {

/// The role of the player's messages.
pub const ROLE_USER: &'static str = "user";

/// The role of the NPC's replies.
pub const ROLE_ASSISTANT: &'static str = "assistant";

/// The role of the instructions that open a conversation.
pub const ROLE_SYSTEM: &'static str = "system";

/// The reply used when the language model's answer holds no text.
pub const NO_REPLY: &'static str = "...";

/// One message of a conversation, as the language model exchanges them: a
/// JSON object whose "role" and "content" fields are read. A field is `Some`
/// exactly when the object holds a string there.
pub struct HistoryMessage {
    /// The "role" field, when it is a string.
    pub role: Option<String>,
    /// The "content" field, when it is a string.
    pub content: Option<String>,
}

/// The message has the given role and content.
pub open spec fn is_message(m: HistoryMessage, role: Seq<char>, content: Seq<char>) -> bool {
    &&& m.role matches Some(r) && r@ == role
    &&& m.content matches Some(c) && c@ == content
}

impl HistoryMessage {
    /// A message with the given role and content.
    pub fn new(role: &str, content: &str) -> (m: HistoryMessage)
        ensures
            is_message(m, role@, content@),
    {
        HistoryMessage { role: Some(role.to_owned()), content: Some(content.to_owned()) }
    }

    /// A copy of the message.
    pub fn duplicate(&self) -> (m: HistoryMessage)
        ensures
            m == *self,
    {
        let role = match &self.role {
            Some(r) => Some(r.clone()),
            None => None,
        };
        let content = match &self.content {
            Some(c) => Some(c.clone()),
            None => None,
        };
        HistoryMessage { role, content }
    }
}

/// The text of the model's reply: its content when it holds a string,
/// otherwise "...".
pub fn reply_text(content: Option<String>) -> (r: String)
    ensures
        content matches Some(c) ==> r@ == c@,
        content is None ==> r@ == NO_REPLY@,
{
    match content {
        Some(c) => c,
        None => NO_REPLY.to_owned(),
    }
}

/// The messages sent to the language model: the system prompt, then the
/// conversation so far, then the player's new message.
pub fn compose_messages(system_prompt: &str, history: &Vec<HistoryMessage>, user_message: &str) -> (r: Vec<HistoryMessage>)
    ensures
        r.len() == history.len() + 2,
        is_message(r@[0], ROLE_SYSTEM@, system_prompt@),
        forall|i: int| 0 <= i < history.len() ==> r@[i + 1] == history@[i],
        is_message(r@[history.len() + 1], ROLE_USER@, user_message@),
{
    let mut r: Vec<HistoryMessage> = Vec::new();
    r.push(HistoryMessage::new(ROLE_SYSTEM, system_prompt));
    let mut i: usize = 0;
    while i < history.len()
        invariant
            i <= history.len(),
            r.len() == i + 1,
            is_message(r@[0], ROLE_SYSTEM@, system_prompt@),
            forall|j: int| 0 <= j < i ==> r@[j + 1] == history@[j],
        decreases history.len() - i,
    {
        r.push(history[i].duplicate());
        i = i + 1;
    }
    r.push(HistoryMessage::new(ROLE_USER, user_message));
    r
}

/// An entry of the histories, as (NPC name, messages).
pub open spec fn entry_view(e: (String, Vec<HistoryMessage>)) -> (Seq<char>, Seq<HistoryMessage>) {
    (e.0@, e.1@)
}

/// The map from NPC names to messages that a list of entries stands for;
/// a later entry for a name overrides an earlier one.
pub open spec fn map_of(es: Seq<(Seq<char>, Seq<HistoryMessage>)>) -> Map<Seq<char>, Seq<HistoryMessage>>
    decreases es.len(),
{
    if es.len() == 0 {
        Map::empty()
    } else {
        map_of(es.drop_last()).insert(es.last().0, es.last().1)
    }
}

/// No NPC name has two entries.
pub open spec fn names_distinct(es: Seq<(Seq<char>, Seq<HistoryMessage>)>) -> bool {
    forall|i: int, j: int| 0 <= i < j < es.len() ==> (#[trigger] es[i]).0 != (#[trigger] es[j]).0
}

/// The messages of `name` in the histories, or none when it has no history.
pub open spec fn history_in(m: Map<Seq<char>, Seq<HistoryMessage>>, name: Seq<char>) -> Seq<HistoryMessage> {
    if m.contains_key(name) {
        m[name]
    } else {
        Seq::empty()
    }
}

proof fn lemma_map_of_dom(es: Seq<(Seq<char>, Seq<HistoryMessage>)>, k: Seq<char>)
    ensures
        map_of(es).contains_key(k) <==> exists|i: int| 0 <= i < es.len() && (#[trigger] es[i]).0 == k,
    decreases es.len(),
{
    if es.len() > 0 {
        lemma_map_of_dom(es.drop_last(), k);
        if map_of(es).contains_key(k) && es.last().0 != k {
            let i = choose|i: int| 0 <= i < es.drop_last().len() && (#[trigger] es.drop_last()[i]).0 == k;
            assert(es[i] == es.drop_last()[i]);
        }
        if exists|i: int| 0 <= i < es.len() && (#[trigger] es[i]).0 == k {
            let i = choose|i: int| 0 <= i < es.len() && (#[trigger] es[i]).0 == k;
            if i < es.len() - 1 {
                assert(es.drop_last()[i] == es[i]);
            }
        }
    }
}

proof fn lemma_map_of_at(es: Seq<(Seq<char>, Seq<HistoryMessage>)>, i: int)
    requires
        names_distinct(es),
        0 <= i < es.len(),
    ensures
        map_of(es).contains_key(es[i].0),
        map_of(es)[es[i].0] == es[i].1,
    decreases es.len(),
{
    if i < es.len() - 1 {
        assert(es.drop_last()[i] == es[i]);
        assert(names_distinct(es.drop_last())) by {
            assert forall|a: int, b: int| 0 <= a < b < es.drop_last().len() implies
                (#[trigger] es.drop_last()[a]).0 != (#[trigger] es.drop_last()[b]).0 by {
                assert(es[a] == es.drop_last()[a]);
                assert(es[b] == es.drop_last()[b]);
            }
        }
        lemma_map_of_at(es.drop_last(), i);
        assert(es[i].0 != es[es.len() - 1].0);
    }
}

proof fn lemma_map_of_remove(es: Seq<(Seq<char>, Seq<HistoryMessage>)>, i: int)
    requires
        names_distinct(es),
        0 <= i < es.len(),
    ensures
        names_distinct(es.remove(i)),
        map_of(es.remove(i)) == map_of(es).remove(es[i].0),
    decreases es.len(),
{
    let k = es[i].0;
    let p = es.drop_last();
    assert(names_distinct(p)) by {
        assert forall|a: int, b: int| 0 <= a < b < p.len() implies (#[trigger] p[a]).0 != (#[trigger] p[b]).0 by {
            assert(es[a] == p[a]);
            assert(es[b] == p[b]);
        }
    }
    assert(names_distinct(es.remove(i))) by {
        assert forall|a: int, b: int| 0 <= a < b < es.remove(i).len() implies
            (#[trigger] es.remove(i)[a]).0 != (#[trigger] es.remove(i)[b]).0 by {
            let a2 = if a < i { a } else { a + 1 };
            let b2 = if b < i { b } else { b + 1 };
            assert(es.remove(i)[a] == es[a2]);
            assert(es.remove(i)[b] == es[b2]);
        }
    }
    if i == es.len() - 1 {
        assert(es.remove(i) =~= p);
        lemma_map_of_dom(p, k);
        assert forall|j: int| 0 <= j < p.len() implies (#[trigger] p[j]).0 != k by {
            assert(p[j] == es[j]);
        }
        assert(map_of(p) =~= map_of(es).remove(k));
    } else {
        lemma_map_of_remove(p, i);
        assert(p[i] == es[i]);
        assert(es.remove(i) =~= p.remove(i).push(es.last()));
        assert(es.remove(i).drop_last() =~= p.remove(i));
        assert(es.last().0 != k);
        assert(map_of(es.remove(i)) =~= map_of(es).remove(k));
    }
}

/// After an exchange is recorded for an NPC, its history is the history it
/// had with the player's message and the reply appended; the history of
/// every other NPC is unchanged.
pub proof fn lemma_record_then_read(
    h: Map<Seq<char>, Seq<HistoryMessage>>,
    npc: Seq<char>,
    other: Seq<char>,
    user_message: HistoryMessage,
    reply: HistoryMessage,
)
    requires
        other != npc,
    ensures
        history_in(h.insert(npc, history_in(h, npc).push(user_message).push(reply)), npc)
            == history_in(h, npc).push(user_message).push(reply),
        history_in(h.insert(npc, history_in(h, npc).push(user_message).push(reply)), other)
            == history_in(h, other),
{
}

/// After an NPC's history is reset, it has no history; the history of every
/// other NPC is unchanged.
pub proof fn lemma_reset_then_read(h: Map<Seq<char>, Seq<HistoryMessage>>, npc: Seq<char>, other: Seq<char>)
    requires
        other != npc,
    ensures
        history_in(h.remove(npc), npc) == Seq::<HistoryMessage>::empty(),
        history_in(h.remove(npc), other) == history_in(h, other),
{
}

/// The entries as (NPC name, messages) pairs.
pub open spec fn views(es: Seq<(String, Vec<HistoryMessage>)>) -> Seq<(Seq<char>, Seq<HistoryMessage>)> {
    es.map_values(|e: (String, Vec<HistoryMessage>)| entry_view(e))
}

/// The index of the entry for `npc`, if there is one.
fn find_entry(entries: &Vec<(String, Vec<HistoryMessage>)>, npc: &str) -> (r: Option<usize>)
    ensures
        r matches Some(i) ==> i < entries.len() && views(entries@)[i as int].0 == npc@,
        r is None ==> forall|i: int| 0 <= i < entries.len() ==> (#[trigger] views(entries@)[i]).0 != npc@,
{
    let name = npc.to_owned();
    let mut i: usize = 0;
    while i < entries.len()
        invariant
            i <= entries.len(),
            name@ == npc@,
            forall|j: int| 0 <= j < i ==> (#[trigger] views(entries@)[j]).0 != npc@,
        decreases entries.len() - i,
    {
        assert(views(entries@)[i as int] == entry_view(entries@[i as int]));
        if entries[i].0 == name {
            return Some(i);
        }
        i = i + 1;
    }
    None
}

/// The conversation history of each NPC.
pub struct NpcHistories {
    entries: Vec<(String, Vec<HistoryMessage>)>,
}

impl View for NpcHistories {
    type V = Map<Seq<char>, Seq<HistoryMessage>>;

    closed spec fn view(&self) -> Map<Seq<char>, Seq<HistoryMessage>> {
        map_of(views(self.entries@))
    }
}

impl NpcHistories {
    /// No NPC has two entries.
    #[verifier::type_invariant]
    closed spec fn wf(&self) -> bool {
        names_distinct(views(self.entries@))
    }

    /// No history yet.
    pub fn new() -> (r: NpcHistories)
        ensures
            r@ == Map::<Seq<char>, Seq<HistoryMessage>>::empty(),
    {
        let entries: Vec<(String, Vec<HistoryMessage>)> = Vec::new();
        assert(views(entries@) =~= Seq::empty());
        NpcHistories { entries }
    }

    /// The history of the NPC: its messages, or none when it has no history.
    pub fn history(&self, npc: &str) -> (r: Vec<HistoryMessage>)
        ensures
            r@ == history_in(self@, npc@),
    {
        proof {
            use_type_invariant(self);
        }
        match find_entry(&self.entries, npc) {
            Some(i) => {
                proof {
                    lemma_map_of_at(views(self.entries@), i as int);
                    assert(views(self.entries@)[i as int] == entry_view(self.entries@[i as int]));
                }
                let msgs = &self.entries[i].1;
                let mut r: Vec<HistoryMessage> = Vec::new();
                let mut j: usize = 0;
                while j < msgs.len()
                    invariant
                        j <= msgs.len(),
                        r@ == msgs@.take(j as int),
                    decreases msgs.len() - j,
                {
                    r.push(msgs[j].duplicate());
                    j = j + 1;
                    assert(r@ =~= msgs@.take(j as int));
                }
                assert(msgs@.take(msgs.len() as int) =~= msgs@);
                r
            },
            None => {
                proof {
                    lemma_map_of_dom(views(self.entries@), npc@);
                }
                Vec::new()
            },
        }
    }

    /// Records an exchange: the player's message and the NPC's reply are
    /// appended to the NPC's history, which is started when it has none.
    pub fn record_exchange(&mut self, npc: &str, user_message: HistoryMessage, reply: HistoryMessage)
        ensures
            final(self)@ == old(self)@.insert(
                npc@,
                history_in(old(self)@, npc@).push(user_message).push(reply),
            ),
    {
        proof {
            use_type_invariant(&*self);
        }
        let mut entries: Vec<(String, Vec<HistoryMessage>)> = Vec::new();
        proof {
            assert(views(entries@) =~= Seq::empty());
        }
        std::mem::swap(&mut entries, &mut self.entries);
        let ghost before = views(entries@);
        let (name, mut msgs) = match find_entry(&entries, npc) {
            Some(i) => {
                proof {
                    lemma_map_of_at(before, i as int);
                    lemma_map_of_remove(before, i as int);
                    assert(views(entries@)[i as int] == entry_view(entries@[i as int]));
                }
                let e = entries.remove(i);
                assert(views(entries@) =~= before.remove(i as int));
                e
            },
            None => {
                proof {
                    lemma_map_of_dom(before, npc@);
                    assert(map_of(before).remove(npc@) =~= map_of(before));
                }
                (npc.to_owned(), Vec::new())
            },
        };
        assert(map_of(views(entries@)) == map_of(before).remove(npc@));
        assert(msgs@ == history_in(map_of(before), npc@));
        msgs.push(user_message);
        msgs.push(reply);
        let ghost mid = views(entries@);
        proof {
            lemma_map_of_dom(mid, npc@);
        }
        entries.push((name, msgs));
        assert(views(entries@) =~= mid.push((npc@, history_in(map_of(before), npc@).push(user_message).push(reply))));
        assert(views(entries@).drop_last() =~= mid);
        assert(map_of(views(entries@)) =~= map_of(before).insert(
            npc@,
            history_in(map_of(before), npc@).push(user_message).push(reply),
        ));
        assert forall|a: int, b: int| 0 <= a < b < views(entries@).len() implies (#[trigger] views(entries@)[a]).0
            != (#[trigger] views(entries@)[b]).0 by {
            if b == mid.len() {
                assert(views(entries@)[a] == mid[a]);
            } else {
                assert(views(entries@)[a] == mid[a]);
                assert(views(entries@)[b] == mid[b]);
            }
        }
        self.entries = entries;
    }

    /// Forgets the NPC's history.
    pub fn reset(&mut self, npc: &str)
        ensures
            final(self)@ == old(self)@.remove(npc@),
    {
        proof {
            use_type_invariant(&*self);
        }
        let mut entries: Vec<(String, Vec<HistoryMessage>)> = Vec::new();
        proof {
            assert(views(entries@) =~= Seq::empty());
        }
        std::mem::swap(&mut entries, &mut self.entries);
        let ghost before = views(entries@);
        match find_entry(&entries, npc) {
            Some(i) => {
                proof {
                    lemma_map_of_remove(before, i as int);
                }
                let _ = entries.remove(i);
                assert(views(entries@) =~= before.remove(i as int));
            },
            None => {
                proof {
                    lemma_map_of_dom(before, npc@);
                }
                assert(map_of(before).remove(npc@) =~= map_of(before));
            },
        }
        self.entries = entries;
    }
}

} // verus!
