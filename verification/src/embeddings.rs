//! Tokenizing and stemming of text, and the word counts that the term
//! weights of the retrieval are made from.
use crate::text::{
    chars_of, ends_with_exec, split_whitespace_ranges, string_of, trim_range, utf8_len,
    ends_with_text, range_texts, split_whitespace_text, trim_text, Strip,
};
use crate::unicode::{lowercase, lowercase_string};
use vstd::prelude::*;

verus! {

/// The words that tokenizing drops.
pub open spec fn stop_words() -> Seq<Seq<char>> {
    seq![
        "the"@, "and"@, "for"@, "are"@, "but"@, "not"@, "you"@, "all"@, "can"@, "her"@,
        "was"@, "one"@, "our"@, "out"@, "day"@, "get"@, "has"@, "him"@, "his"@, "how"@,
        "its"@, "may"@, "new"@, "now"@, "old"@, "see"@, "two"@, "way"@, "who"@, "boy"@,
        "did"@, "does"@, "had"@, "let"@, "put"@, "say"@, "she"@, "too"@, "use"@, "that"@,
        "this"@, "with"@, "have"@, "from"@, "they"@, "will"@, "been"@, "were"@, "said"@,
        "what"@, "when"@, "your"@, "which"@, "there"@, "their"@, "would"@, "could"@,
        "should"@, "about"@, "into"@, "than"@, "then"@, "them"@, "these"@, "some"@,
    ]
}

/// The suffixes that stemming removes, in the order in which they are tried.
pub open spec fn stem_suffixes() -> Seq<Seq<char>> {
    seq!["ing"@, "tion"@, "ons"@, "ers"@, "est"@, "ed"@, "es"@, "er"@, "ly"@, "s"@]
}

/// Stemming from the `k`-th suffix on: the first suffix that `word` ends with
/// and that leaves more than two bytes is removed.
pub open spec fn stem_from(word: Seq<char>, k: int) -> Seq<char>
    decreases stem_suffixes().len() - k,
{
    if k < 0 || k >= stem_suffixes().len() {
        word
    } else {
        let sfx = stem_suffixes()[k];
        if ends_with_text(word, sfx) && utf8_len(word) > utf8_len(sfx) + 2 {
            word.subrange(0, word.len() - sfx.len())
        } else {
            stem_from(word, k + 1)
        }
    }
}

/// The stem of `word`.
pub open spec fn stem_word(word: Seq<char>) -> Seq<char> {
    stem_from(word, 0)
}

/// A trimmed word is kept as a token when it is longer than two bytes and is
/// not a stop word.
pub open spec fn is_token(w: Seq<char>) -> bool {
    utf8_len(w) > 2 && !stop_words().contains(w)
}

/// The tokens made from a sequence of whitespace-separated words.
pub open spec fn tokens_from(words: Seq<Seq<char>>) -> Seq<Seq<char>>
    decreases words.len(),
{
    if words.len() == 0 {
        Seq::empty()
    } else {
        let rest = tokens_from(words.drop_last());
        let w = trim_text(words.last(), Strip::NonAlphabetic);
        if is_token(w) {
            rest.push(stem_word(w))
        } else {
            rest
        }
    }
}

/// The tokens of text that is already lowercased.
pub open spec fn tokens_of_lowered(lower: Seq<char>) -> Seq<Seq<char>> {
    tokens_from(split_whitespace_text(lower))
}

/// The tokens of `text`.
pub open spec fn tokens_of(text: Seq<char>) -> Seq<Seq<char>> {
    tokens_of_lowered(lowercase(text))
}

/// How many times `w` occurs in `ts`.
pub open spec fn occurrences(ts: Seq<Seq<char>>, w: Seq<char>) -> nat
    decreases ts.len(),
{
    if ts.len() == 0 {
        0
    } else {
        occurrences(ts.drop_last(), w) + if ts.last() == w {
            1nat
        } else {
            0nat
        }
    }
}

/// The distinct elements of `ts`, in the order of their first occurrence.
pub open spec fn distinct_in_order(ts: Seq<Seq<char>>) -> Seq<Seq<char>>
    decreases ts.len(),
{
    if ts.len() == 0 {
        Seq::empty()
    } else {
        let d = distinct_in_order(ts.drop_last());
        if d.contains(ts.last()) {
            d
        } else {
            d.push(ts.last())
        }
    }
}

/// The tokens of all documents, one document after the other.
pub open spec fn concat_all(docs: Seq<Seq<Seq<char>>>) -> Seq<Seq<char>>
    decreases docs.len(),
{
    if docs.len() == 0 {
        Seq::empty()
    } else {
        concat_all(docs.drop_last()) + docs.last()
    }
}

/// How many of the documents (given by their tokens) contain `w`.
pub open spec fn docs_containing(docs: Seq<Seq<Seq<char>>>, w: Seq<char>) -> nat
    decreases docs.len(),
{
    if docs.len() == 0 {
        0
    } else {
        docs_containing(docs.drop_last(), w) + if docs.last().contains(w) {
            1nat
        } else {
            0nat
        }
    }
}

/// The keys of an association list.
pub open spec fn keys_of(e: Seq<(Seq<char>, usize)>) -> Seq<Seq<char>> {
    e.map_values(|p: (Seq<char>, usize)| p.0)
}

/// The tokens of each document.
pub open spec fn tokens_of_docs(docs: Seq<Seq<char>>) -> Seq<Seq<Seq<char>>> {
    docs.map_values(|d: Seq<char>| tokens_of(d))
}

proof fn lemma_distinct_contains(ts: Seq<Seq<char>>, w: Seq<char>)
    ensures
        distinct_in_order(ts).contains(w) <==> ts.contains(w),
    decreases ts.len(),
{
    if ts.len() > 0 {
        let p = ts.drop_last();
        let t = ts.last();
        assert(ts =~= p.push(t));
        lemma_distinct_contains(p, w);
        lemma_contains_push(p, t, w);
        let d = distinct_in_order(p);
        if !d.contains(t) {
            lemma_contains_push(d, t, w);
        }
    }
}

proof fn lemma_occurrences_bound(ts: Seq<Seq<char>>, w: Seq<char>)
    ensures
        occurrences(ts, w) <= ts.len(),
        !ts.contains(w) ==> occurrences(ts, w) == 0,
    decreases ts.len(),
{
    if ts.len() > 0 {
        lemma_occurrences_bound(ts.drop_last(), w);
        if !ts.contains(w) {
            assert(ts[ts.len() - 1] == ts.last());
            assert forall|i: int| 0 <= i < ts.drop_last().len() implies ts.drop_last()[i] != w by {
                assert(ts[i] == ts.drop_last()[i]);
            }
        }
    }
}

proof fn lemma_docs_containing_bound(docs: Seq<Seq<Seq<char>>>, w: Seq<char>)
    ensures
        docs_containing(docs, w) <= docs.len(),
        !concat_all(docs).contains(w) ==> docs_containing(docs, w) == 0,
    decreases docs.len(),
{
    if docs.len() > 0 {
        let rest = docs.drop_last();
        lemma_docs_containing_bound(rest, w);
        if !concat_all(docs).contains(w) {
            let all = concat_all(rest) + docs.last();
            assert forall|i: int| 0 <= i < concat_all(rest).len() implies concat_all(rest)[i] != w by {
                assert(all[i] == concat_all(rest)[i]);
            }
            assert forall|i: int| 0 <= i < docs.last().len() implies docs.last()[i] != w by {
                assert(all[concat_all(rest).len() + i] == docs.last()[i]);
            }
        }
    }
}

proof fn lemma_contains_push(ts: Seq<Seq<char>>, t: Seq<char>, w: Seq<char>)
    ensures
        ts.push(t).contains(w) <==> (ts.contains(w) || t == w),
{
    if ts.push(t).contains(w) {
        let i = choose|i: int| 0 <= i < ts.push(t).len() && ts.push(t)[i] == w;
        if i < ts.len() {
            assert(ts[i] == w);
        }
    }
    if ts.contains(w) {
        let i = choose|i: int| 0 <= i < ts.len() && ts[i] == w;
        assert(ts.push(t)[i] == w);
    }
    if t == w {
        assert(ts.push(t)[ts.len() as int] == w);
    }
}

/// The sum, over the words of `ws`, of their numbers of occurrences in `ts`.
pub open spec fn total_count(ws: Seq<Seq<char>>, ts: Seq<Seq<char>>) -> nat
    decreases ws.len(),
{
    if ws.len() == 0 {
        0
    } else {
        total_count(ws.drop_last(), ts) + occurrences(ts, ws.last())
    }
}

/// No element occurs twice.
pub open spec fn no_duplicates(ws: Seq<Seq<char>>) -> bool {
    forall|i: int, j: int| 0 <= i < j < ws.len() ==> ws[i] != ws[j]
}

proof fn lemma_distinct_in_order_no_duplicates(ts: Seq<Seq<char>>)
    ensures
        no_duplicates(distinct_in_order(ts)),
    decreases ts.len(),
{
    if ts.len() > 0 {
        lemma_distinct_in_order_no_duplicates(ts.drop_last());
        let d = distinct_in_order(ts.drop_last());
        if !d.contains(ts.last()) {
            assert forall|i: int, j: int| 0 <= i < j < d.push(ts.last()).len() implies d.push(ts.last())[i]
                != d.push(ts.last())[j] by {
                if j == d.len() {
                    assert(d.push(ts.last())[i] == d[i]);
                    if d[i] == ts.last() {
                        assert(d.contains(ts.last()));
                    }
                }
            }
        }
    }
}

proof fn lemma_occurrences_once(d: Seq<Seq<char>>, t: Seq<char>)
    requires
        no_duplicates(d),
        d.contains(t),
    ensures
        occurrences(d, t) == 1,
    decreases d.len(),
{
    let q = d.drop_last();
    assert(no_duplicates(q)) by {
        assert forall|i: int, j: int| 0 <= i < j < q.len() implies q[i] != q[j] by {
            assert(q[i] == d[i] && q[j] == d[j]);
        }
    }
    if d.last() == t {
        assert forall|i: int| 0 <= i < q.len() implies q[i] != t by {
            assert(q[i] == d[i]);
        }
        lemma_occurrences_bound(q, t);
    } else {
        let i = choose|i: int| 0 <= i < d.len() && d[i] == t;
        assert(q[i] == t);
        lemma_occurrences_once(q, t);
    }
}

proof fn lemma_total_count_extend(ws: Seq<Seq<char>>, p: Seq<Seq<char>>, t: Seq<char>)
    ensures
        total_count(ws, p.push(t)) == total_count(ws, p) + occurrences(ws, t),
    decreases ws.len(),
{
    if ws.len() > 0 {
        lemma_total_count_extend(ws.drop_last(), p, t);
        assert(p.push(t).drop_last() =~= p);
    }
}

/// Tokenizing works word by word: the tokens of two runs of words are the
/// tokens of the first followed by those of the second, and a word yields
/// exactly one token, its stem, when, trimmed of non-letters, it is longer
/// than two bytes and is not itself a stop word (whatever its stem is), and
/// none otherwise.
pub proof fn lemma_tokens_word_by_word(words: Seq<Seq<char>>, more: Seq<Seq<char>>, word: Seq<char>)
    ensures
        tokens_from(words + more) == tokens_from(words) + tokens_from(more),
        ({
            let t = trim_text(word, Strip::NonAlphabetic);
            tokens_from(seq![word]) == if utf8_len(t) > 2 && !stop_words().contains(t) {
                seq![stem_word(t)]
            } else {
                Seq::<Seq<char>>::empty()
            }
        }),
    decreases more.len(),
{
    assert(seq![word].drop_last() =~= Seq::<Seq<char>>::empty());
    assert(tokens_from(Seq::<Seq<char>>::empty()) =~= Seq::<Seq<char>>::empty());
    assert(seq![word].last() == word);
    let tw = trim_text(word, Strip::NonAlphabetic);
    if is_token(tw) {
        assert(tokens_from(seq![word]) =~= seq![stem_word(tw)]);
    }
    if more.len() == 0 {
        assert(words + more =~= words);
        assert(tokens_from(words) + tokens_from(more) =~= tokens_from(words));
    } else {
        lemma_tokens_word_by_word(words, more.drop_last(), word);
        assert((words + more).drop_last() =~= words + more.drop_last());
        assert((words + more).last() == more.last());
        let t = trim_text(more.last(), Strip::NonAlphabetic);
        if is_token(t) {
            assert(tokens_from(words + more) =~= tokens_from(words) + tokens_from(more));
        } else {
            assert(tokens_from(words + more) =~= tokens_from(words) + tokens_from(more));
        }
    }
}

/// The counts of the distinct tokens add up to the number of tokens: the
/// term frequencies of a text add up to one.
pub proof fn lemma_counts_add_up(ts: Seq<Seq<char>>)
    ensures
        total_count(distinct_in_order(ts), ts) == ts.len(),
    decreases ts.len(),
{
    if ts.len() > 0 {
        let p = ts.drop_last();
        let t = ts.last();
        let d = distinct_in_order(p);
        assert(ts =~= p.push(t));
        lemma_counts_add_up(p);
        lemma_total_count_extend(d, p, t);
        lemma_distinct_in_order_no_duplicates(p);
        lemma_distinct_contains(p, t);
        if d.contains(t) {
            lemma_occurrences_once(d, t);
        } else {
            lemma_occurrences_bound(d, t);
            lemma_occurrences_bound(p, t);
            assert(d.push(t).drop_last() =~= d);
        }
    }
}

/// Every token of the documents is contained in at least one and at most
/// all of them: its inverse document frequency, the logarithm of the number
/// of documents over its document frequency, is defined and not negative.
pub proof fn lemma_document_frequency_bounds(docs: Seq<Seq<Seq<char>>>, w: Seq<char>)
    requires
        concat_all(docs).contains(w),
    ensures
        1 <= docs_containing(docs, w) <= docs.len(),
    decreases docs.len(),
{
    lemma_docs_containing_bound(docs, w);
    let rest = docs.drop_last();
    let all = concat_all(rest) + docs.last();
    assert(concat_all(docs) == all);
    let i = choose|i: int| 0 <= i < all.len() && all[i] == w;
    if i < concat_all(rest).len() {
        assert(concat_all(rest)[i] == w);
        lemma_document_frequency_bounds(rest, w);
    } else {
        assert(docs.last()[i - concat_all(rest).len()] == w);
    }
}

fn stop_word_list() -> (v: Vec<&'static str>)
    ensures
        v@.map_values(|w: &str| w@) == stop_words(),
{
    let v = vec![
        "the", "and", "for", "are", "but", "not", "you", "all", "can", "her",
        "was", "one", "our", "out", "day", "get", "has", "him", "his", "how",
        "its", "may", "new", "now", "old", "see", "two", "way", "who", "boy",
        "did", "does", "had", "let", "put", "say", "she", "too", "use", "that",
        "this", "with", "have", "from", "they", "will", "been", "were", "said",
        "what", "when", "your", "which", "there", "their", "would", "could",
        "should", "about", "into", "than", "then", "them", "these", "some",
    ];
    assert(v@.map_values(|w: &str| w@) =~= stop_words());
    v
}

fn suffix_list() -> (v: Vec<&'static str>)
    ensures
        v@.map_values(|w: &str| w@) == stem_suffixes(),
{
    let v = vec!["ing", "tion", "ons", "ers", "est", "ed", "es", "er", "ly", "s"];
    assert(v@.map_values(|w: &str| w@) =~= stem_suffixes());
    v
}

/// Whether `w` is one of the stop words.
pub fn is_stop_word(w: &str) -> (b: bool)
    ensures
        b == stop_words().contains(w@),
{
    let list = stop_word_list();
    let ws = w.to_owned();
    let mut i: usize = 0;
    while i < list.len()
        invariant
            i <= list.len(),
            list@.map_values(|w: &str| w@) == stop_words(),
            ws@ == w@,
            forall|j: int| 0 <= j < i ==> stop_words()[j] != w@,
        decreases list.len() - i,
    {
        let candidate = list[i].to_owned();
        assert(stop_words()[i as int] == list@[i as int]@);
        if candidate == ws {
            assert(stop_words()[i as int] == w@);
            return true;
        }
        i = i + 1;
    }
    assert forall|j: int| 0 <= j < stop_words().len() implies stop_words()[j] != w@ by {
        assert(j < i);
    }
    false
}

/// No key occurs twice in the association list.
pub open spec fn distinct_keys(e: Seq<(Seq<char>, usize)>) -> bool {
    forall|i: int, j: int| 0 <= i < j < e.len() ==> (#[trigger] e[i]).0 != (#[trigger] e[j]).0
}

/// The count that entry `k` of `after` must hold once `t` has been counted
/// once more in `before`.
pub open spec fn bumped(
    before: Seq<(Seq<char>, usize)>,
    after: Seq<(Seq<char>, usize)>,
    t: Seq<char>,
    k: int,
) -> int {
    if after[k].0 == t {
        (if k < before.len() {
            before[k].1 as int
        } else {
            0
        }) + 1
    } else {
        before[k].1 as int
    }
}

/// The index of the entry of `e` whose key is `w`, if there is one.
fn find_key(e: &Vec<(String, usize)>, w: &String) -> (r: Option<usize>)
    ensures
        r matches Some(j) ==> j < e.len() && e.deep_view()[j as int].0 == w@,
        r is None ==> !keys_of(e.deep_view()).contains(w@),
{
    let mut j: usize = 0;
    while j < e.len()
        invariant
            j <= e.len(),
            forall|k: int| 0 <= k < j ==> e.deep_view()[k].0 != w@,
        decreases e.len() - j,
    {
        if e[j].0 == *w {
            return Some(j);
        }
        j = j + 1;
    }
    proof {
        if keys_of(e.deep_view()).contains(w@) {
            let k = choose|k: int|
                0 <= k < keys_of(e.deep_view()).len() && keys_of(e.deep_view())[k] == w@;
            assert(keys_of(e.deep_view())[k] == e.deep_view()[k].0);
        }
    }
    None
}

/// Whether `w` is among the first `upto` elements of `v`.
fn occurs_before(v: &Vec<String>, upto: usize, w: &String) -> (b: bool)
    requires
        upto <= v.len(),
    ensures
        b == v.deep_view().take(upto as int).contains(w@),
{
    let mut j: usize = 0;
    while j < upto
        invariant
            j <= upto <= v.len(),
            forall|k: int| 0 <= k < j ==> v.deep_view()[k] != w@,
        decreases upto - j,
    {
        if v[j] == *w {
            assert(v.deep_view().take(upto as int)[j as int] == w@);
            return true;
        }
        j = j + 1;
    }
    proof {
        if v.deep_view().take(upto as int).contains(w@) {
            let k = choose|k: int| 0 <= k < upto && v.deep_view().take(upto as int)[k] == w@;
            assert(v.deep_view().take(upto as int)[k] == v.deep_view()[k]);
        }
    }
    false
}

/// Adds one to the count of `t` in `e`, or adds `t` with count one.
fn bump(e: &mut Vec<(String, usize)>, t: &String) -> (found: bool)
    requires
        distinct_keys(old(e).deep_view()),
        forall|k: int|
            0 <= k < old(e).len() && (#[trigger] old(e)@[k]).0@ == t@ ==> old(e)@[k].1 < usize::MAX,
    ensures
        distinct_keys(final(e).deep_view()),
        found == keys_of(old(e).deep_view()).contains(t@),
        found ==> keys_of(final(e).deep_view()) == keys_of(old(e).deep_view()),
        !found ==> keys_of(final(e).deep_view()) == keys_of(old(e).deep_view()).push(t@),
        final(e).len() >= old(e).len(),
        forall|k: int|
            0 <= k < final(e).len() ==> (#[trigger] final(e).deep_view()[k]).1 == bumped(
                old(e).deep_view(),
                final(e).deep_view(),
                t@,
                k,
            ),
{
    match find_key(e, t) {
        Some(j) => {
            proof {
                assert(keys_of(e.deep_view())[j as int] == t@);
            }
            let c = e[j].1;
            let key = e[j].0.clone();
            e.set(j, (key, c + 1));
            assert(keys_of(e.deep_view()) =~= keys_of(old(e).deep_view()));
            assert forall|k: int|
                0 <= k < e.len() implies (#[trigger] e.deep_view()[k]).1 == bumped(
                old(e).deep_view(),
                e.deep_view(),
                t@,
                k,
            ) by {
                if k != j {
                    assert(e.deep_view()[k] == old(e).deep_view()[k]);
                    if k < j {
                        assert(old(e).deep_view()[k].0 != old(e).deep_view()[j as int].0);
                    } else {
                        assert(old(e).deep_view()[j as int].0 != old(e).deep_view()[k].0);
                    }
                }
            }
            assert forall|a: int, b: int|
                0 <= a < b < e.deep_view().len() implies (#[trigger] e.deep_view()[a]).0 != (
                #[trigger] e.deep_view()[b]).0 by {
                assert(e.deep_view()[a].0 == old(e).deep_view()[a].0);
                assert(e.deep_view()[b].0 == old(e).deep_view()[b].0);
            }
            true
        },
        None => {
            e.push((t.clone(), 1));
            assert(keys_of(e.deep_view()) =~= keys_of(old(e).deep_view()).push(t@));
            assert forall|a: int, b: int|
                0 <= a < b < e.deep_view().len() implies (#[trigger] e.deep_view()[a]).0 != (
                #[trigger] e.deep_view()[b]).0 by {
                if b == old(e).len() {
                    assert(keys_of(old(e).deep_view())[a] == old(e).deep_view()[a].0);
                } else {
                    assert(e.deep_view()[a] == old(e).deep_view()[a]);
                    assert(e.deep_view()[b] == old(e).deep_view()[b]);
                }
            }
            assert forall|k: int|
                0 <= k < e.len() implies (#[trigger] e.deep_view()[k]).1 == bumped(
                old(e).deep_view(),
                e.deep_view(),
                t@,
                k,
            ) by {
                if k < old(e).len() {
                    assert(e.deep_view()[k] == old(e).deep_view()[k]);
                    assert(keys_of(old(e).deep_view())[k] == old(e).deep_view()[k].0);
                }
            }
            false
        },
    }
}

/// Counts the tokens: one entry per distinct token, in the order of first
/// occurrence, with the number of times it occurs.
pub fn count_tokens(tokens: &Vec<String>) -> (e: Vec<(String, usize)>)
    ensures
        distinct_keys(e.deep_view()),
        keys_of(e.deep_view()) == distinct_in_order(tokens.deep_view()),
        forall|k: int|
            0 <= k < e.len() ==> (#[trigger] e.deep_view()[k]).1 == occurrences(
                tokens.deep_view(),
                e.deep_view()[k].0,
            ),
{
    let ghost ts = tokens.deep_view();
    let mut e: Vec<(String, usize)> = Vec::new();
    let mut i: usize = 0;
    assert(keys_of(e.deep_view()) =~= distinct_in_order(ts.take(0)));
    while i < tokens.len()
        invariant
            i <= tokens.len(),
            ts == tokens.deep_view(),
            distinct_keys(e.deep_view()),
            keys_of(e.deep_view()) == distinct_in_order(ts.take(i as int)),
            forall|k: int|
                0 <= k < e.len() ==> (#[trigger] e.deep_view()[k]).1 == occurrences(
                    ts.take(i as int),
                    e.deep_view()[k].0,
                ),
        decreases tokens.len() - i,
    {
        let ghost prev = e.deep_view();
        let ghost t = ts[i as int];
        assert(ts.take(i + 1).drop_last() =~= ts.take(i as int));
        assert(ts.take(i + 1).last() == t);
        assert forall|k: int| 0 <= k < e.len() implies (#[trigger] e@[k]).1 < usize::MAX by {
            assert(e@[k].1 == e.deep_view()[k].1);
            lemma_occurrences_bound(ts.take(i as int), e.deep_view()[k].0);
        }
        let found = bump(&mut e, &tokens[i]);
        proof {
            lemma_distinct_contains(ts.take(i as int), t);
            assert forall|k: int| 0 <= k < e.len() implies (#[trigger] e.deep_view()[k]).1
                == occurrences(ts.take(i + 1), e.deep_view()[k].0) by {
                let key = e.deep_view()[k].0;
                if k < prev.len() {
                    assert(keys_of(prev)[k] == prev[k].0);
                    assert(keys_of(e.deep_view())[k] == key);
                    assert(prev[k].0 == key);
                } else {
                    assert(keys_of(e.deep_view()).len() == e.len());
                    assert(keys_of(prev).len() == prev.len());
                    assert(!found);
                    assert(k == prev.len());
                    assert(keys_of(e.deep_view())[k] == keys_of(prev).push(t)[k]);
                    assert(keys_of(e.deep_view())[k] == key);
                    assert(key == t);
                    lemma_occurrences_bound(ts.take(i as int), t);
                }
            }
        }
        i = i + 1;
    }
    assert(ts.take(tokens.len() as int) =~= ts);
    e
}

/// Counts, for each distinct token, the documents (given by their tokens)
/// that contain it; the keys come in the order of first occurrence.
pub fn count_documents(token_docs: &Vec<Vec<String>>) -> (e: Vec<(String, usize)>)
    ensures
        distinct_keys(e.deep_view()),
        keys_of(e.deep_view()) == distinct_in_order(concat_all(token_docs.deep_view())),
        forall|k: int|
            0 <= k < e.len() ==> (#[trigger] e.deep_view()[k]).1 == docs_containing(
                token_docs.deep_view(),
                e.deep_view()[k].0,
            ),
{
    let ghost td = token_docs.deep_view();
    let mut e: Vec<(String, usize)> = Vec::new();
    let mut i: usize = 0;
    assert(keys_of(e.deep_view()) =~= distinct_in_order(concat_all(td.take(0))));
    while i < token_docs.len()
        invariant
            i <= token_docs.len(),
            td == token_docs.deep_view(),
            distinct_keys(e.deep_view()),
            keys_of(e.deep_view()) == distinct_in_order(concat_all(td.take(i as int))),
            forall|k: int|
                0 <= k < e.len() ==> (#[trigger] e.deep_view()[k]).1 == docs_containing(
                    td.take(i as int),
                    e.deep_view()[k].0,
                ),
        decreases token_docs.len() - i,
    {
        let toks = &token_docs[i];
        let ghost ts = toks.deep_view();
        let ghost c = concat_all(td.take(i as int));
        assert(ts == td[i as int]);
        let mut k: usize = 0;
        assert(c + ts.take(0) =~= c);
        while k < toks.len()
            invariant
                i < token_docs.len(),
                k <= toks.len(),
                td == token_docs.deep_view(),
                ts == toks.deep_view(),
                c == concat_all(td.take(i as int)),
                distinct_keys(e.deep_view()),
                keys_of(e.deep_view()) == distinct_in_order(c + ts.take(k as int)),
                forall|kk: int|
                    0 <= kk < e.len() ==> (#[trigger] e.deep_view()[kk]).1 == docs_containing(
                        td.take(i as int),
                        e.deep_view()[kk].0,
                    ) + if ts.take(k as int).contains(e.deep_view()[kk].0) {
                        1int
                    } else {
                        0int
                    },
            decreases toks.len() - k,
        {
            let ghost t = ts[k as int];
            let ghost x = c + ts.take(k as int);
            assert(c + ts.take(k + 1) =~= x.push(t));
            assert(ts.take(k + 1) =~= ts.take(k as int).push(t));
            assert(x.push(t).drop_last() =~= x);
            proof {
                lemma_distinct_contains(x, t);
            }
            let seen = occurs_before(toks, k, &toks[k]);
            let ghost prev = e.deep_view();
            if seen {
                proof {
                    let j = choose|j: int| 0 <= j < ts.take(k as int).len() && ts.take(k as int)[j] == t;
                    assert(x[c.len() + j] == t);
                    assert forall|kk: int| 0 <= kk < e.len() implies (#[trigger] e.deep_view()[kk]).1
                        == docs_containing(td.take(i as int), e.deep_view()[kk].0) + if ts.take(
                        k + 1,
                    ).contains(e.deep_view()[kk].0) {
                        1int
                    } else {
                        0int
                    } by {
                        lemma_contains_push(ts.take(k as int), t, e.deep_view()[kk].0);
                    }
                }
            } else {
                proof {
                    assert forall|kk: int|
                        0 <= kk < e.len() && (#[trigger] e@[kk]).0@ == t implies e@[kk].1
                        < usize::MAX by {
                        assert(e@[kk].1 == e.deep_view()[kk].1);
                        assert(e.deep_view()[kk].0 == t);
                        lemma_docs_containing_bound(td.take(i as int), t);
                    }
                }
                let found = bump(&mut e, &toks[k]);
                proof {
                    assert forall|kk: int| 0 <= kk < e.len() implies (#[trigger] e.deep_view()[kk]).1
                        == docs_containing(td.take(i as int), e.deep_view()[kk].0) + if ts.take(
                        k + 1,
                    ).contains(e.deep_view()[kk].0) {
                        1int
                    } else {
                        0int
                    } by {
                        let key = e.deep_view()[kk].0;
                        lemma_contains_push(ts.take(k as int), t, key);
                        assert(keys_of(e.deep_view()).len() == e.len());
                        assert(keys_of(prev).len() == prev.len());
                        if kk < prev.len() {
                            assert(keys_of(prev)[kk] == prev[kk].0);
                            assert(keys_of(e.deep_view())[kk] == key);
                            assert(prev[kk].0 == key);
                        } else {
                            assert(kk == prev.len());
                            assert(keys_of(e.deep_view())[kk] == keys_of(prev).push(t)[kk]);
                            assert(key == t);
                            lemma_contains_push(ts.take(k as int), t, t);
                            assert(!x.contains(t));
                            assert forall|j: int| 0 <= j < c.len() implies c[j] != t by {
                                assert(x[j] == c[j]);
                            }
                            lemma_docs_containing_bound(td.take(i as int), t);
                        }
                    }
                }
            }
            k = k + 1;
        }
        proof {
            assert(ts.take(toks.len() as int) =~= ts);
            assert(td.take(i + 1).drop_last() =~= td.take(i as int));
            assert(td.take(i + 1).last() == ts);
        }
        i = i + 1;
    }
    assert(td.take(token_docs.len() as int) =~= td);
    e
}

/// The word counts of a text: how often each distinct token occurs, and how
/// many tokens there are. The term frequency of a token is its count divided
/// by the total.
pub struct TermCounts {
    /// One entry per distinct token, in the order of first occurrence.
    pub counts: Vec<(String, usize)>,
    /// The number of tokens.
    pub total: usize,
}

/// The public face of the tokenizer and of the word counts used for retrieval.
pub struct SimpleEmbedder;

impl SimpleEmbedder {
    /// The stem of `word`: the first of the suffixes "ing", "tion", "ons",
    /// "ers", "est", "ed", "es", "er", "ly", "s" that `word` ends with and
    /// whose removal leaves more than two bytes is removed; otherwise `word`.
    pub fn stem(word: &str) -> (r: String)
        ensures
            r@ == stem_word(word@),
    {
        let wc = chars_of(word);
        let suffixes = suffix_list();
        let mut k: usize = 0;
        while k < suffixes.len()
            invariant
                k <= suffixes.len(),
                wc@ == word@,
                suffixes@.map_values(|w: &str| w@) == stem_suffixes(),
                stem_from(word@, k as int) == stem_word(word@),
            decreases suffixes.len() - k,
        {
            let sfx = suffixes[k];
            assert(sfx@ == stem_suffixes()[k as int]);
            let sc = chars_of(sfx);
            let wlen = word.len();
            let slen = sfx.len();
            if ends_with_exec(&wc, &sc) && wlen > 2 && wlen - 2 > slen {
                return string_of(&wc, 0, wc.len() - sc.len());
            }
            k = k + 1;
        }
        word.to_owned()
    }

    /// The tokens of text that is already lowercased: its whitespace-separated
    /// words, trimmed of non-alphabetic characters at both ends, kept when
    /// longer than two bytes and not a stop word, and stemmed.
    pub fn tokenize_lowered(lower: &str) -> (r: Vec<String>)
        ensures
            r.deep_view() == tokens_of_lowered(lower@),
    {
        let cs = chars_of(lower);
        let words = split_whitespace_ranges(&cs);
        let ghost all = range_texts(cs@, words@);
        let mut out: Vec<String> = Vec::new();
        let mut i: usize = 0;
        while i < words.len()
            invariant
                i <= words.len(),
                cs@ == lower@,
                all == range_texts(cs@, words@),
                all == split_whitespace_text(lower@),
                crate::text::ranges_within(words@, cs.len() as int),
                out.deep_view() == tokens_from(all.take(i as int)),
            decreases words.len() - i,
        {
            let (lo, hi) = words[i];
            assert(all.take(i + 1).drop_last() =~= all.take(i as int));
            assert(all.take(i + 1).last() == cs@.subrange(lo as int, hi as int));
            let (a, b) = trim_range(&cs, lo, hi, Strip::NonAlphabetic);
            let w = string_of(&cs, a, b);
            if w.as_str().len() > 2 && !is_stop_word(w.as_str()) {
                let st = Self::stem(w.as_str());
                let ghost prev = out.deep_view();
                out.push(st);
                assert(out.deep_view() =~= prev.push(st@));
            }
            i = i + 1;
        }
        assert(all.take(words.len() as int) =~= all);
        out
    }

    /// The tokens of `text`: `tokenize_lowered` applied to the lowercased text.
    pub fn tokenize(text: &str) -> (r: Vec<String>)
        ensures
            r.deep_view() == tokens_of(text@),
    {
        let lower = lowercase_string(text);
        Self::tokenize_lowered(lower.as_str())
    }

    /// The counts behind the term-frequency embedding of `text`: each distinct
    /// token with the number of times it occurs, and the number of tokens.
    pub fn term_counts(text: &str) -> (r: TermCounts)
        ensures
            r.total == tokens_of(text@).len(),
            distinct_keys(r.counts.deep_view()),
            keys_of(r.counts.deep_view()) == distinct_in_order(tokens_of(text@)),
            forall|k: int|
                0 <= k < r.counts.len() ==> (#[trigger] r.counts.deep_view()[k]).1 == occurrences(
                    tokens_of(text@),
                    r.counts.deep_view()[k].0,
                ),
    {
        let tokens = Self::tokenize(text);
        let counts = count_tokens(&tokens);
        TermCounts { counts, total: tokens.len() }
    }

    /// The document frequencies behind the inverse document frequencies: each
    /// distinct token of the documents with the number of documents that
    /// contain it.
    pub fn document_frequencies(documents: &[String]) -> (r: Vec<(String, usize)>)
        ensures
            distinct_keys(r.deep_view()),
            keys_of(r.deep_view()) == distinct_in_order(
                concat_all(tokens_of_docs(documents@.map_values(|d: String| d@))),
            ),
            forall|k: int|
                0 <= k < r.len() ==> (#[trigger] r.deep_view()[k]).1 == docs_containing(
                    tokens_of_docs(documents@.map_values(|d: String| d@)),
                    r.deep_view()[k].0,
                ),
    {
        let ghost docs = documents@.map_values(|d: String| d@);
        assert(tokens_of_docs(docs).len() == documents@.len());
        let mut token_docs: Vec<Vec<String>> = Vec::new();
        let mut i: usize = 0;
        while i < documents.len()
            invariant
                i <= documents.len(),
                docs == documents@.map_values(|d: String| d@),
                token_docs.deep_view() == tokens_of_docs(docs).take(i as int),
                token_docs.len() == i,
            decreases documents.len() - i,
        {
            let toks = Self::tokenize(documents[i].as_str());
            let ghost prev = token_docs.deep_view();
            assert(docs[i as int] == documents@[i as int]@);
            assert(tokens_of_docs(docs)[i as int] == tokens_of(docs[i as int]));
            let ghost tv = toks.deep_view();
            token_docs.push(toks);
            assert(token_docs@[i as int].deep_view() == tv);
            assert(token_docs.deep_view()[i as int] == tv);
            assert(token_docs.deep_view() =~= tokens_of_docs(docs).take(i + 1));
            i = i + 1;
        }
        assert(tokens_of_docs(docs).take(documents.len() as int) =~= tokens_of_docs(docs));
        count_documents(&token_docs)
    }
}

} // verus!
