//! The rules of the knowledge-file upload endpoint: which file name an
//! upload may write, where the file goes, and what is written when an
//! upload appends.
use crate::text::{replace_from, replace_text, str_replace};
use vstd::prelude::*;

verus! {

/// The directory of the knowledge files.
pub const KNOWLEDGE_DIR: &'static str = "knowledge/";
/// What separates appended text from the text already in a file.
pub const APPEND_SEPARATOR: &'static str = "\n\n";

/// The file name with every "..", then every "/", then every "\" removed.
pub open spec fn safe_name(raw: Seq<char>) -> Seq<char> {
    replace_text(
        replace_text(replace_text(raw, ".."@, Seq::empty()), "/"@, Seq::empty()),
        "\\"@,
        Seq::empty(),
    )
}

/// The file name that an upload writes: `raw` with every "..", then every
/// "/", then every "\" removed; `None` when nothing remains.
pub fn sanitize_filename(raw: &str) -> (r: Option<String>)
    ensures
        r is None <==> safe_name(raw@).len() == 0,
        r matches Some(s) ==> s@ == safe_name(raw@),
{
    proof {
        reveal_strlit("..");
        reveal_strlit("/");
        reveal_strlit("\\");
        reveal_strlit("");
        assert(""@ =~= Seq::<char>::empty());
    }
    let a = str_replace(raw, "..", "");
    let b = str_replace(a.as_str(), "/", "");
    let c = str_replace(b.as_str(), "\\", "");
    if c.as_str().is_empty() {
        None
    } else {
        Some(c)
    }
}

/// The path of a knowledge file: "knowledge/" followed by its name.
pub fn knowledge_path(name: &str) -> (r: String)
    ensures
        r@ == KNOWLEDGE_DIR@ + name@,
{
    let mut r = KNOWLEDGE_DIR.to_owned();
    r.append(name);
    r
}

/// What an appending upload writes: the file's text so far, a blank line,
/// and the new text.
pub fn appended_content(existing: &str, content: &str) -> (r: String)
    ensures
        r@ == existing@ + APPEND_SEPARATOR@ + content@,
{
    let mut r = existing.to_owned();
    r.append(APPEND_SEPARATOR);
    r.append(content);
    r
}

/// Removing every occurrence of a one-character pattern leaves no such
/// character, and leaves absent any character that was absent.
proof fn lemma_remove_char(s: Seq<char>, p: char, c: char, i: int)
    requires
        0 <= i,
        c == p || forall|j: int| i <= j < s.len() ==> s[j] != c,
    ensures
        !replace_from(s, seq![p], Seq::empty(), i).contains(c),
    decreases s.len() - i,
{
    let r = replace_from(s, seq![p], Seq::empty(), i);
    if i < s.len() {
        let rest = replace_from(s, seq![p], Seq::empty(), i + 1);
        lemma_remove_char(s, p, c, i + 1);
        if s.subrange(i, i + 1) =~= seq![p] {
            assert(r =~= Seq::<char>::empty() + rest);
        } else {
            assert(r == seq![s[i]] + rest);
            assert(s[i] != p) by {
                if s[i] == p {
                    assert(s.subrange(i, i + 1) =~= seq![p]);
                }
            }
            if r.contains(c) {
                let j = choose|j: int| 0 <= j < r.len() && r[j] == c;
                if j > 0 {
                    assert(rest[j - 1] == c);
                }
            }
        }
    } else {
        assert(r =~= Seq::<char>::empty());
    }
}

/// A file name that an upload writes holds no path separator, neither "/"
/// nor "\".
pub proof fn lemma_safe_name_has_no_separator(raw: Seq<char>)
    ensures
        !safe_name(raw).contains('/'),
        !safe_name(raw).contains('\\'),
{
    reveal_strlit("/");
    reveal_strlit("\\");
    assert("/"@ =~= seq!['/']);
    assert("\\"@ =~= seq!['\\']);
    let a = replace_text(raw, ".."@, Seq::empty());
    let b = replace_text(a, "/"@, Seq::empty());
    lemma_remove_char(a, '/', '/', 0);
    lemma_remove_char(b, '\\', '\\', 0);
    assert forall|j: int| 0 <= j < b.len() implies b[j] != '/' by {
        if b[j] == '/' {
            assert(b.contains('/'));
        }
    }
    lemma_remove_char(b, '\\', '/', 0);
}

} // verus!
