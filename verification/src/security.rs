//! The checks that player input goes through before it reaches the language
//! model: blank or overlong input, prompt-injection phrases, unknown NPC
//! names, and the characters that a message may keep.
use crate::history::{HistoryMessage, ROLE_USER};
use crate::text::{chars_of, contains_exec, contains_text, str_trim, trim_text, utf8_len, Strip};
use crate::unicode::{char_is_alphanumeric, is_alphanumeric, lowercase, lowercase_string, push_char};
use vstd::prelude::*;

verus! {

/// The longest input, in bytes, that is accepted.
pub const MAX_INPUT_BYTES: usize = 500;

/// Refusal of a message that is empty or only whitespace.
pub const ERR_EMPTY_MESSAGE: &'static str = "Poruka ne sme biti prazna.";
/// Refusal of a message that is too long.
pub const ERR_LONG_MESSAGE: &'static str = "Poruka je predugacka.";
/// Refusal of a message that holds an injection phrase.
pub const ERR_INJECTION: &'static str = "Detektovan pokusaj napada.";
/// Refusal of an NPC name that is empty or only whitespace.
pub const ERR_EMPTY_NPC: &'static str = "NPC ime ne sme biti prazno.";
/// Refusal of an NPC name that is too long.
pub const ERR_LONG_NPC: &'static str = "NPC ime je predugacko.";
/// Refusal of an NPC name that holds an injection phrase.
pub const ERR_INJECTION_NPC: &'static str = "Detektovan pokusaj napada u npc_name polju.";
/// Refusal of an NPC name that names no known NPC.
pub const ERR_UNKNOWN_NPC: &'static str = "Nepoznati NPC.";
/// Refusal of a conversation history in which a player message holds an
/// injection phrase.
pub const ERR_HISTORY: &'static str = "Detektovana manipulacija u istoriji razgovora.";

/// The phrases that mark an attempt to take over the model's instructions.
pub open spec fn injection_patterns() -> Seq<Seq<char>> {
    seq![
        "ignore previous instructions"@,
        "ignore all previous"@,
        "you are now"@,
        "forget your instructions"@,
        "system prompt"@,
        "reveal your"@,
        "admin console"@,
        "admin mode"@,
        "developer mode"@,
        "jailbreak"@,
        "pretend you are"@,
        "act as if"@,
        "you are an ai"@,
        "ignore your role"@,
        "new instructions"@,
        "override instructions"@,
        "disregard"@,
        "bypass"@,
    ]
}

/// Lowercased text holds one of the injection phrases.
pub open spec fn mentions_injection(lower: Seq<char>) -> bool {
    exists|k: int| 0 <= k < injection_patterns().len() && contains_text(lower, #[trigger] injection_patterns()[k])
}

/// The input, lowercased, holds one of the injection phrases.
pub open spec fn is_injection_text(input: Seq<char>) -> bool {
    mentions_injection(lowercase(input))
}

/// The input is longer than `MAX_INPUT_BYTES` bytes.
pub open spec fn is_too_long_text(input: Seq<char>) -> bool {
    utf8_len(input) > MAX_INPUT_BYTES
}

/// The input is empty or only whitespace.
pub open spec fn is_blank(input: Seq<char>) -> bool {
    trim_text(input, Strip::Whitespace).len() == 0
}

/// A sanitized message keeps the alphanumeric characters and the characters
/// of " .,!?'-".
pub open spec fn kept_char(c: char) -> bool {
    is_alphanumeric(c) || c == ' ' || c == '.' || c == ',' || c == '!' || c == '?' || c == '\''
        || c == '-'
}

/// The characters of `s` that sanitizing keeps, in order.
pub open spec fn sanitize_text(s: Seq<char>) -> Seq<char>
    decreases s.len(),
{
    if s.len() == 0 {
        Seq::empty()
    } else if kept_char(s.last()) {
        sanitize_text(s.drop_last()).push(s.last())
    } else {
        sanitize_text(s.drop_last())
    }
}

/// The history message is the player's and holds an injection phrase.
pub open spec fn is_manipulated(m: HistoryMessage) -> bool {
    &&& m.role matches Some(r) && r@ == ROLE_USER@
    &&& m.content matches Some(c) && is_injection_text(c@)
}

/// Some allowed NPC name is, lowercased, equal to `name` lowercased.
pub open spec fn is_known_npc(name: Seq<char>, allowed: Seq<String>) -> bool {
    exists|i: int| 0 <= i < allowed.len() && lowercase((#[trigger] allowed[i])@) == lowercase(name)
}

/// Every character of a sanitized message is alphanumeric or one of
/// " .,!?'-".
pub proof fn lemma_sanitize_keeps_only_allowed(s: Seq<char>)
    ensures
        forall|i: int| 0 <= i < sanitize_text(s).len() ==> kept_char(#[trigger] sanitize_text(s)[i]),
    decreases s.len(),
{
    if s.len() > 0 {
        lemma_sanitize_keeps_only_allowed(s.drop_last());
        let r = sanitize_text(s.drop_last());
        if kept_char(s.last()) {
            assert forall|i: int| 0 <= i < r.push(s.last()).len() implies kept_char(
                #[trigger] r.push(s.last())[i],
            ) by {
                if i < r.len() {
                    assert(r.push(s.last())[i] == r[i]);
                }
            }
        }
    }
}

proof fn lemma_sanitize_fixed(t: Seq<char>)
    requires
        forall|i: int| 0 <= i < t.len() ==> kept_char(#[trigger] t[i]),
    ensures
        sanitize_text(t) == t,
    decreases t.len(),
{
    if t.len() > 0 {
        assert forall|i: int| 0 <= i < t.drop_last().len() implies kept_char(#[trigger] t.drop_last()[i]) by {
            assert(t.drop_last()[i] == t[i]);
        }
        lemma_sanitize_fixed(t.drop_last());
        assert(kept_char(t[t.len() - 1]));
        assert(t.drop_last().push(t.last()) =~= t);
    }
}

/// Sanitizing a sanitized message changes nothing.
pub proof fn lemma_sanitize_idempotent(s: Seq<char>)
    ensures
        sanitize_text(sanitize_text(s)) == sanitize_text(s),
{
    lemma_sanitize_keeps_only_allowed(s);
    lemma_sanitize_fixed(sanitize_text(s));
}

/// Text added around lowercased text that holds an injection phrase leaves
/// the phrase in it: a flagged message cannot be unflagged by padding, as
/// far as the phrase search goes (what lowercasing does to the padded text
/// is the named `lowercase`, and is not stated).
pub proof fn lemma_padding_keeps_phrase(lower: Seq<char>, before: Seq<char>, after: Seq<char>)
    requires
        mentions_injection(lower),
    ensures
        mentions_injection(before + lower + after),
{
    let k = choose|k: int|
        0 <= k < injection_patterns().len() && contains_text(lower, #[trigger] injection_patterns()[k]);
    let p = injection_patterns()[k];
    let i = choose|i: int| crate::text::matches_at(lower, p, i);
    let t = before + lower + after;
    assert(t.subrange(before.len() + i, before.len() + i + p.len()) =~= lower.subrange(i, i + p.len()));
    assert(crate::text::matches_at(t, p, before.len() + i));
    assert(contains_text(t, injection_patterns()[k]));
}

/// A flagged input stays flagged with text added before and after it,
/// wherever lowercasing the padded input keeps the lowercased input whole
/// inside it (the lowercase mapping itself is the named `lowercase`).
pub proof fn lemma_injection_survives_padding(
    input: Seq<char>,
    before: Seq<char>,
    after: Seq<char>,
    lower_before: Seq<char>,
    lower_after: Seq<char>,
)
    requires
        is_injection_text(input),
        lowercase(before + input + after) == lower_before + lowercase(input) + lower_after,
    ensures
        is_injection_text(before + input + after),
{
    lemma_padding_keeps_phrase(lowercase(input), lower_before, lower_after);
}

/// Each of the eighteen injection phrases, written out here, flags the
/// lowercased text that holds it ("bypass", for one, flags itself).
pub proof fn lemma_each_phrase_flags(lower: Seq<char>, k: int)
    requires
        0 <= k < 18,
        contains_text(lower, seq![
            "ignore previous instructions"@,
            "ignore all previous"@,
            "you are now"@,
            "forget your instructions"@,
            "system prompt"@,
            "reveal your"@,
            "admin console"@,
            "admin mode"@,
            "developer mode"@,
            "jailbreak"@,
            "pretend you are"@,
            "act as if"@,
            "you are an ai"@,
            "ignore your role"@,
            "new instructions"@,
            "override instructions"@,
            "disregard"@,
            "bypass"@,
        ][k]),
    ensures
        mentions_injection(lower),
        mentions_injection("bypass"@),
{
    let phrases = seq![
        "ignore previous instructions"@,
        "ignore all previous"@,
        "you are now"@,
        "forget your instructions"@,
        "system prompt"@,
        "reveal your"@,
        "admin console"@,
        "admin mode"@,
        "developer mode"@,
        "jailbreak"@,
        "pretend you are"@,
        "act as if"@,
        "you are an ai"@,
        "ignore your role"@,
        "new instructions"@,
        "override instructions"@,
        "disregard"@,
        "bypass"@,
    ];
    assert(phrases =~= injection_patterns());
    assert(contains_text(lower, injection_patterns()[k]));
    assert(crate::text::matches_at("bypass"@, "bypass"@, 0)) by {
        assert("bypass"@.subrange(0, "bypass"@.len() as int) =~= "bypass"@);
    }
    assert(contains_text("bypass"@, injection_patterns()[17]));
}

/// A name counts as a known NPC exactly when, lowercased, it equals one of
/// the allowed names lowercased; so a name whose lowercase differs in length
/// from that of every allowed name is unknown.
pub proof fn lemma_known_npc_is_case_insensitive_equality(name: Seq<char>, allowed: Seq<String>)
    ensures
        is_known_npc(name, allowed) <==> exists|i: int|
            0 <= i < allowed.len() && (#[trigger] lowercase(allowed[i]@)) == lowercase(name),
        (forall|i: int| 0 <= i < allowed.len() ==> (#[trigger] lowercase(allowed[i]@)).len() != lowercase(name).len())
            ==> !is_known_npc(name, allowed),
{
    if is_known_npc(name, allowed) {
        let i = choose|i: int| 0 <= i < allowed.len() && lowercase((#[trigger] allowed[i])@) == lowercase(name);
        assert(lowercase(allowed[i]@) == lowercase(name));
    }
    if exists|i: int| 0 <= i < allowed.len() && (#[trigger] lowercase(allowed[i]@)) == lowercase(name) {
        let i = choose|i: int| 0 <= i < allowed.len() && (#[trigger] lowercase(allowed[i]@)) == lowercase(name);
        assert(lowercase((allowed[i])@) == lowercase(name));
    }
}

fn injection_pattern_list() -> (v: Vec<&'static str>)
    ensures
        v@.map_values(|w: &str| w@) == injection_patterns(),
{
    let v = vec![
        "ignore previous instructions",
        "ignore all previous",
        "you are now",
        "forget your instructions",
        "system prompt",
        "reveal your",
        "admin console",
        "admin mode",
        "developer mode",
        "jailbreak",
        "pretend you are",
        "act as if",
        "you are an ai",
        "ignore your role",
        "new instructions",
        "override instructions",
        "disregard",
        "bypass",
    ];
    assert(v@.map_values(|w: &str| w@) =~= injection_patterns());
    v
}

/// Whether `c` is kept by sanitizing.
fn keeps(c: char) -> (b: bool)
    ensures
        b == kept_char(c),
{
    char_is_alphanumeric(c) || c == ' ' || c == '.' || c == ',' || c == '!' || c == '?' || c
        == '\'' || c == '-'
}

/// The input checks of the chat endpoint.
pub struct SecurityFilter;

impl SecurityFilter {
    /// Whether lowercased text holds one of the injection phrases.
    pub fn mentions_injection(lower: &str) -> (b: bool)
        ensures
            b == mentions_injection(lower@),
    {
        let lc = chars_of(lower);
        let patterns = injection_pattern_list();
        let mut k: usize = 0;
        while k < patterns.len()
            invariant
                k <= patterns.len(),
                lc@ == lower@,
                patterns@.map_values(|w: &str| w@) == injection_patterns(),
                forall|j: int| 0 <= j < k ==> !contains_text(lower@, #[trigger] injection_patterns()[j]),
            decreases patterns.len() - k,
        {
            assert(patterns@[k as int]@ == injection_patterns()[k as int]);
            let pc = chars_of(patterns[k]);
            if contains_exec(&lc, &pc) {
                return true;
            }
            k = k + 1;
        }
        false
    }

    /// Whether the input, lowercased, holds one of the injection phrases.
    pub fn is_injection(input: &str) -> (b: bool)
        ensures
            b == is_injection_text(input@),
    {
        let lower = lowercase_string(input);
        Self::mentions_injection(lower.as_str())
    }

    /// Whether the input is longer than 500 bytes.
    pub fn is_too_long(input: &str) -> (b: bool)
        ensures
            b == is_too_long_text(input@),
    {
        input.len() > MAX_INPUT_BYTES
    }

    /// The input with every character removed that is neither alphanumeric
    /// nor one of " .,!?'-".
    pub fn sanitize(input: &str) -> (r: String)
        ensures
            r@ == sanitize_text(input@),
    {
        let cs = chars_of(input);
        let mut r = String::new();
        let mut i: usize = 0;
        while i < cs.len()
            invariant
                i <= cs.len(),
                cs@ == input@,
                r@ == sanitize_text(cs@.take(i as int)),
            decreases cs.len() - i,
        {
            assert(cs@.take(i + 1).drop_last() =~= cs@.take(i as int));
            if keeps(cs[i]) {
                push_char(&mut r, cs[i]);
            }
            i = i + 1;
        }
        assert(cs@.take(cs.len() as int) =~= cs@);
        r
    }

    /// Whether the input is empty or only whitespace.
    pub fn is_blank(input: &str) -> (b: bool)
        ensures
            b == is_blank(input@),
    {
        let t = str_trim(input);
        t.as_str().is_empty()
    }

    /// Checks a chat message: refused when blank, too long, or holding an
    /// injection phrase (in that order of precedence); otherwise accepted
    /// and sanitized.
    pub fn validate(input: &str) -> (r: Result<String, &'static str>)
        ensures
            is_blank(input@) ==> r == Err::<String, &str>(ERR_EMPTY_MESSAGE),
            !is_blank(input@) && is_too_long_text(input@) ==> r == Err::<String, &str>(ERR_LONG_MESSAGE),
            !is_blank(input@) && !is_too_long_text(input@) && is_injection_text(input@) ==> r
                == Err::<String, &str>(ERR_INJECTION),
            !is_blank(input@) && !is_too_long_text(input@) && !is_injection_text(input@) ==> (r matches Ok(s)
                && s@ == sanitize_text(input@)),
    {
        if Self::is_blank(input) {
            return Err(ERR_EMPTY_MESSAGE);
        }
        if Self::is_too_long(input) {
            return Err(ERR_LONG_MESSAGE);
        }
        if Self::is_injection(input) {
            return Err(ERR_INJECTION);
        }
        Ok(Self::sanitize(input))
    }

    /// Checks an NPC name against the allowed names: refused when blank, too
    /// long, holding an injection phrase, or equal (ignoring case) to none of
    /// the allowed names, in that order of precedence; otherwise the name.
    pub fn validate_npc_name(name: &str, allowed_npcs: &[String]) -> (r: Result<String, &'static str>)
        ensures
            is_blank(name@) ==> r == Err::<String, &str>(ERR_EMPTY_NPC),
            !is_blank(name@) && is_too_long_text(name@) ==> r == Err::<String, &str>(ERR_LONG_NPC),
            !is_blank(name@) && !is_too_long_text(name@) && is_injection_text(name@) ==> r == Err::<
                String,
                &str,
            >(ERR_INJECTION_NPC),
            !is_blank(name@) && !is_too_long_text(name@) && !is_injection_text(name@)
                && !is_known_npc(name@, allowed_npcs@) ==> r == Err::<String, &str>(ERR_UNKNOWN_NPC),
            !is_blank(name@) && !is_too_long_text(name@) && !is_injection_text(name@) && is_known_npc(
                name@,
                allowed_npcs@,
            ) ==> (r matches Ok(s) && s@ == name@),
    {
        if Self::is_blank(name) {
            return Err(ERR_EMPTY_NPC);
        }
        if Self::is_too_long(name) {
            return Err(ERR_LONG_NPC);
        }
        if Self::is_injection(name) {
            return Err(ERR_INJECTION_NPC);
        }
        let name_lower = lowercase_string(name);
        let mut i: usize = 0;
        while i < allowed_npcs.len()
            invariant
                i <= allowed_npcs.len(),
                name_lower@ == lowercase(name@),
                !is_blank(name@),
                !is_too_long_text(name@),
                !is_injection_text(name@),
                forall|j: int| 0 <= j < i ==> lowercase((#[trigger] allowed_npcs@[j])@) != lowercase(name@),
            decreases allowed_npcs.len() - i,
        {
            let candidate = lowercase_string(allowed_npcs[i].as_str());
            if candidate == name_lower {
                assert(lowercase(allowed_npcs@[i as int]@) == lowercase(name@));
                return Ok(name.to_owned());
            }
            i = i + 1;
        }
        Err(ERR_UNKNOWN_NPC)
    }

    /// Checks a conversation history: refused when a message with the role
    /// "user" has text content that holds an injection phrase.
    pub fn validate_history(history: &[HistoryMessage]) -> (r: Result<(), &'static str>)
        ensures
            (exists|i: int| 0 <= i < history@.len() && is_manipulated(#[trigger] history@[i])) ==> r
                == Err::<(), &str>(ERR_HISTORY),
            !(exists|i: int| 0 <= i < history@.len() && is_manipulated(#[trigger] history@[i])) ==> r
                == Ok::<(), &str>(()),
    {
        let user = ROLE_USER.to_owned();
        let mut i: usize = 0;
        while i < history.len()
            invariant
                i <= history.len(),
                user@ == ROLE_USER@,
                forall|j: int| 0 <= j < i ==> !is_manipulated(#[trigger] history@[j]),
            decreases history.len() - i,
        {
            let msg = &history[i];
            match &msg.role {
                Some(role) => {
                    if *role == user {
                        match &msg.content {
                            Some(content) => {
                                if Self::is_injection(content.as_str()) {
                                    assert(is_manipulated(history@[i as int]));
                                    return Err(ERR_HISTORY);
                                }
                            },
                            None => {},
                        }
                    }
                },
                None => {},
            }
            i = i + 1;
        }
        Ok(())
    }
}

} // verus!
