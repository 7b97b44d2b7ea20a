//! Text operations over the characters of a string: substring search,
//! replacement, splitting, trimming and joining. Each is specified by a spec
//! function over `Seq<char>` and implemented by a verified loop.
use crate::unicode::{char_is_alphabetic, char_is_whitespace, is_alphabetic, is_white_space, push_char};
use vstd::prelude::*;
use vstd::std_specs::iter::IteratorSpec;

verus! {

/// What `str::len` returns for a string with the characters `s`: the number
/// of bytes of its UTF-8 encoding.
pub open spec fn utf8_len(s: Seq<char>) -> usize {
    vstd::utf8::encode_utf8(s).len() as usize
}

/// `pat` occurs in `s` starting at index `i`.
pub open spec fn matches_at(s: Seq<char>, pat: Seq<char>, i: int) -> bool {
    &&& 0 <= i
    &&& i + pat.len() <= s.len()
    &&& s.subrange(i, i + pat.len()) == pat
}

/// `pat` occurs somewhere in `s` (`str::contains`).
pub open spec fn contains_text(s: Seq<char>, pat: Seq<char>) -> bool {
    exists|i: int| matches_at(s, pat, i)
}

/// `s` ends with `pat` (`str::ends_with`).
pub open spec fn ends_with_text(s: Seq<char>, pat: Seq<char>) -> bool {
    pat.len() <= s.len() && s.subrange(s.len() - pat.len(), s.len() as int) == pat
}

/// The rest of `str::replace(s, pat, to)` from index `i` on: occurrences of
/// `pat` are replaced left to right, without overlap.
pub open spec fn replace_from(s: Seq<char>, pat: Seq<char>, to: Seq<char>, i: int) -> Seq<char>
    decreases s.len() - i,
{
    if i < 0 || i >= s.len() {
        Seq::empty()
    } else if pat.len() > 0 && matches_at(s, pat, i) {
        to + replace_from(s, pat, to, i + pat.len())
    } else {
        seq![s[i]] + replace_from(s, pat, to, i + 1)
    }
}

/// `str::replace(s, pat, to)` for a non-empty `pat`.
pub open spec fn replace_text(s: Seq<char>, pat: Seq<char>, to: Seq<char>) -> Seq<char> {
    replace_from(s, pat, to, 0)
}

/// The pieces of `str::split(s, pat)` that start at `start`, scanning from `i`.
pub open spec fn split_from(s: Seq<char>, pat: Seq<char>, start: int, i: int) -> Seq<Seq<char>>
    decreases s.len() - i,
{
    if i < 0 || i >= s.len() {
        seq![s.subrange(start, s.len() as int)]
    } else if pat.len() > 0 && matches_at(s, pat, i) {
        seq![s.subrange(start, i)] + split_from(s, pat, i + pat.len(), i + pat.len())
    } else {
        split_from(s, pat, start, i + 1)
    }
}

/// `str::split(s, pat)` for a non-empty `pat`.
pub open spec fn split_text(s: Seq<char>, pat: Seq<char>) -> Seq<Seq<char>> {
    split_from(s, pat, 0, 0)
}

/// The words of `str::split_whitespace(s)` that start at `start`, scanning from `i`.
pub open spec fn words_from(s: Seq<char>, start: int, i: int) -> Seq<Seq<char>>
    decreases s.len() - i,
{
    if i < 0 || i >= s.len() {
        if start < s.len() {
            seq![s.subrange(start, s.len() as int)]
        } else {
            Seq::empty()
        }
    } else if is_white_space(s[i]) {
        (if start < i {
            seq![s.subrange(start, i)]
        } else {
            Seq::empty()
        }) + words_from(s, i + 1, i + 1)
    } else {
        words_from(s, start, i + 1)
    }
}

/// `str::split_whitespace(s)`: the maximal runs of non-whitespace characters.
pub open spec fn split_whitespace_text(s: Seq<char>) -> Seq<Seq<char>> {
    words_from(s, 0, 0)
}

/// Which characters a trim removes.
#[derive(Clone, Copy, PartialEq, Eq)]
pub enum Strip {
    /// Whitespace, as `str::trim` removes.
    Whitespace,
    /// Every character that is not alphabetic.
    NonAlphabetic,
}

/// Whether a trim of the given kind removes `c`.
pub open spec fn stripped(kind: Strip, c: char) -> bool {
    match kind {
        Strip::Whitespace => is_white_space(c),
        Strip::NonAlphabetic => !is_alphabetic(c),
    }
}

/// `s` without its leading characters that `kind` removes.
pub open spec fn trim_start_text(s: Seq<char>, kind: Strip) -> Seq<char>
    decreases s.len(),
{
    if s.len() > 0 && stripped(kind, s[0]) {
        trim_start_text(s.drop_first(), kind)
    } else {
        s
    }
}

/// `s` without its trailing characters that `kind` removes.
pub open spec fn trim_end_text(s: Seq<char>, kind: Strip) -> Seq<char>
    decreases s.len(),
{
    if s.len() > 0 && stripped(kind, s.last()) {
        trim_end_text(s.drop_last(), kind)
    } else {
        s
    }
}

/// `s` without the leading and trailing characters that `kind` removes
/// (`str::trim` for whitespace, `str::trim_matches` for the other kind).
pub open spec fn trim_text(s: Seq<char>, kind: Strip) -> Seq<char> {
    trim_end_text(trim_start_text(s, kind), kind)
}

/// The pieces joined, with `sep` between consecutive ones (`[&str]::join`).
pub open spec fn join_text(pieces: Seq<Seq<char>>, sep: Seq<char>) -> Seq<char>
    decreases pieces.len(),
{
    if pieces.len() == 0 {
        Seq::empty()
    } else if pieces.len() == 1 {
        pieces[0]
    } else {
        join_text(pieces.drop_last(), sep) + sep + pieces.last()
    }
}

/// The subranges of `s` that the index pairs of `r` delimit.
pub open spec fn range_texts(s: Seq<char>, r: Seq<(usize, usize)>) -> Seq<Seq<char>> {
    Seq::new(r.len(), |k: int| s.subrange(r[k].0 as int, r[k].1 as int))
}

/// Every pair of `r` delimits a subrange of a sequence of length `n`.
pub open spec fn ranges_within(r: Seq<(usize, usize)>, n: int) -> bool {
    forall|k: int| 0 <= k < r.len() ==> (#[trigger] r[k]).0 <= r[k].1 <= n
}

/// The characters of `s`, in order.
pub fn chars_of(s: &str) -> (v: Vec<char>)
    ensures
        v@ == s@,
{
    broadcast use {vstd::string::axiom_spec_iter, vstd::string::next_postcondition};

    let mut v: Vec<char> = Vec::new();
    let mut chars = s.chars();
    loop
        invariant
            v@ + chars.remaining() == s@,
            chars.decrease() is Some,
        ensures
            v@ == s@,
        decreases chars.decrease()->0,
    {
        match chars.next() {
            Some(c) => {
                v.push(c);
            },
            None => {
                assert(v@ =~= s@);
                break ;
            },
        }
    }
    v
}

/// The string made of the characters `cs[lo..hi]`.
pub fn string_of(cs: &Vec<char>, lo: usize, hi: usize) -> (s: String)
    requires
        lo <= hi <= cs.len(),
    ensures
        s@ == cs@.subrange(lo as int, hi as int),
{
    let mut s = String::new();
    let mut i = lo;
    while i < hi
        invariant
            lo <= i <= hi <= cs.len(),
            s@ == cs@.subrange(lo as int, i as int),
        decreases hi - i,
    {
        push_char(&mut s, cs[i]);
        i = i + 1;
        assert(s@ =~= cs@.subrange(lo as int, i as int));
    }
    s
}

/// Whether `pat` occurs in `s` at index `i`.
pub fn matches_at_exec(s: &Vec<char>, pat: &Vec<char>, i: usize) -> (b: bool)
    ensures
        b == matches_at(s@, pat@, i as int),
{
    if i > s.len() || pat.len() > s.len() - i {
        return false;
    }
    let mut k: usize = 0;
    while k < pat.len()
        invariant
            i + pat.len() <= s.len(),
            k <= pat.len(),
            forall|j: int| 0 <= j < k ==> s@[i + j] == pat@[j],
        decreases pat.len() - k,
    {
        if s[i + k] != pat[k] {
            assert(s@.subrange(i as int, i + pat.len())[k as int] != pat@[k as int]);
            return false;
        }
        k = k + 1;
    }
    assert(s@.subrange(i as int, i + pat.len()) =~= pat@);
    true
}

/// Whether `pat` occurs anywhere in `s`.
pub fn contains_exec(s: &Vec<char>, pat: &Vec<char>) -> (b: bool)
    ensures
        b == contains_text(s@, pat@),
{
    if pat.len() > s.len() {
        return false;
    }
    let last = s.len() - pat.len();
    let mut i: usize = 0;
    while i < last
        invariant
            last == s.len() - pat.len(),
            i <= last,
            forall|j: int| 0 <= j < i ==> !matches_at(s@, pat@, j),
        decreases last - i,
    {
        if matches_at_exec(s, pat, i) {
            return true;
        }
        i = i + 1;
    }
    if matches_at_exec(s, pat, last) {
        return true;
    }
    assert forall|j: int| !matches_at(s@, pat@, j) by {
        if 0 <= j && j + pat.len() <= s.len() && j != last {
            assert(j < i);
        }
    }
    false
}

/// Whether `s` ends with `pat`.
pub fn ends_with_exec(s: &Vec<char>, pat: &Vec<char>) -> (b: bool)
    ensures
        b == ends_with_text(s@, pat@),
{
    if pat.len() > s.len() {
        return false;
    }
    let b = matches_at_exec(s, pat, s.len() - pat.len());
    b
}

/// `str::replace(s, pat, to)`.
pub fn replace_exec(s: &Vec<char>, pat: &Vec<char>, to: &Vec<char>) -> (r: Vec<char>)
    requires
        pat.len() > 0,
    ensures
        r@ == replace_text(s@, pat@, to@),
{
    let mut out: Vec<char> = Vec::new();
    let mut i: usize = 0;
    while i < s.len()
        invariant
            pat.len() > 0,
            i <= s.len(),
            out@ + replace_from(s@, pat@, to@, i as int) == replace_text(s@, pat@, to@),
        decreases s.len() - i,
    {
        if matches_at_exec(s, pat, i) {
            let mut k: usize = 0;
            let ghost before = out@;
            while k < to.len()
                invariant
                    k <= to.len(),
                    out@ == before + to@.subrange(0, k as int),
                decreases to.len() - k,
            {
                out.push(to[k]);
                k = k + 1;
                assert(out@ =~= before + to@.subrange(0, k as int));
            }
            assert(to@.subrange(0, to.len() as int) =~= to@);
            assert(out@ + replace_from(s@, pat@, to@, i + pat.len()) =~= before + replace_from(
                s@,
                pat@,
                to@,
                i as int,
            ));
            i = i + pat.len();
        } else {
            let ghost before = out@;
            out.push(s[i]);
            assert(out@ + replace_from(s@, pat@, to@, i + 1) =~= before + replace_from(
                s@,
                pat@,
                to@,
                i as int,
            ));
            i = i + 1;
        }
    }
    assert(out@ =~= out@ + replace_from(s@, pat@, to@, i as int));
    out
}

/// `str::replace` on strings.
pub fn str_replace(s: &str, pat: &str, to: &str) -> (r: String)
    requires
        pat@.len() > 0,
    ensures
        r@ == replace_text(s@, pat@, to@),
{
    let sc = chars_of(s);
    let pc = chars_of(pat);
    let tc = chars_of(to);
    let rc = replace_exec(&sc, &pc, &tc);
    string_of(&rc, 0, rc.len())
}

proof fn lemma_range_texts_push(s: Seq<char>, r: Seq<(usize, usize)>, p: (usize, usize))
    ensures
        range_texts(s, r.push(p)) == range_texts(s, r).push(s.subrange(p.0 as int, p.1 as int)),
{
    assert(range_texts(s, r.push(p)) =~= range_texts(s, r).push(
        s.subrange(p.0 as int, p.1 as int),
    ));
}

/// The pieces of `str::split(s, pat)`, as index ranges into `s`.
pub fn split_ranges(s: &Vec<char>, pat: &Vec<char>) -> (r: Vec<(usize, usize)>)
    requires
        pat.len() > 0,
    ensures
        ranges_within(r@, s.len() as int),
        range_texts(s@, r@) == split_text(s@, pat@),
{
    let mut out: Vec<(usize, usize)> = Vec::new();
    let mut start: usize = 0;
    let mut i: usize = 0;
    while i < s.len()
        invariant
            pat.len() > 0,
            start <= i <= s.len(),
            ranges_within(out@, s.len() as int),
            range_texts(s@, out@) + split_from(s@, pat@, start as int, i as int) == split_text(
                s@,
                pat@,
            ),
        decreases s.len() - i,
    {
        if matches_at_exec(s, pat, i) {
            proof {
                lemma_range_texts_push(s@, out@, (start, i));
            }
            let ghost before = range_texts(s@, out@);
            out.push((start, i));
            assert(range_texts(s@, out@) + split_from(s@, pat@, (i + pat.len()) as int, (i
                + pat.len()) as int) =~= before + split_from(s@, pat@, start as int, i as int));
            i = i + pat.len();
            start = i;
        } else {
            i = i + 1;
        }
    }
    proof {
        lemma_range_texts_push(s@, out@, (start, s.len()));
    }
    let ghost before = range_texts(s@, out@);
    out.push((start, s.len()));
    assert(range_texts(s@, out@) =~= before + split_from(s@, pat@, start as int, i as int));
    out
}

/// The words of `str::split_whitespace(s)`, as index ranges into `s`.
pub fn split_whitespace_ranges(s: &Vec<char>) -> (r: Vec<(usize, usize)>)
    ensures
        ranges_within(r@, s.len() as int),
        range_texts(s@, r@) == split_whitespace_text(s@),
{
    let mut out: Vec<(usize, usize)> = Vec::new();
    let mut start: usize = 0;
    let mut i: usize = 0;
    while i < s.len()
        invariant
            start <= i <= s.len(),
            ranges_within(out@, s.len() as int),
            range_texts(s@, out@) + words_from(s@, start as int, i as int)
                == split_whitespace_text(s@),
        decreases s.len() - i,
    {
        if char_is_whitespace(s[i]) {
            let ghost before = range_texts(s@, out@);
            if start < i {
                proof {
                    lemma_range_texts_push(s@, out@, (start, i));
                }
                out.push((start, i));
            }
            assert(range_texts(s@, out@) + words_from(s@, (i + 1) as int, (i + 1) as int)
                =~= before + words_from(s@, start as int, i as int));
            i = i + 1;
            start = i;
        } else {
            i = i + 1;
        }
    }
    let ghost before = range_texts(s@, out@);
    if start < s.len() {
        proof {
            lemma_range_texts_push(s@, out@, (start, s.len()));
        }
        out.push((start, s.len()));
    }
    assert(range_texts(s@, out@) =~= before + words_from(s@, start as int, i as int));
    out
}

/// Whether a trim of the given kind removes `c`.
pub fn strips(kind: Strip, c: char) -> (b: bool)
    ensures
        b == stripped(kind, c),
{
    match kind {
        Strip::Whitespace => char_is_whitespace(c),
        Strip::NonAlphabetic => !char_is_alphabetic(c),
    }
}

/// The range of `s[lo..hi]` that remains after trimming the characters that
/// `kind` removes from both ends.
pub fn trim_range(s: &Vec<char>, lo: usize, hi: usize, kind: Strip) -> (r: (usize, usize))
    requires
        lo <= hi <= s.len(),
    ensures
        lo <= r.0 <= r.1 <= hi,
        s@.subrange(r.0 as int, r.1 as int) == trim_text(s@.subrange(lo as int, hi as int), kind),
{
    let ghost whole = s@.subrange(lo as int, hi as int);
    let mut a = lo;
    while a < hi && strips(kind, s[a])
        invariant
            lo <= a <= hi <= s.len(),
            trim_start_text(s@.subrange(a as int, hi as int), kind) == trim_start_text(whole, kind),
        decreases hi - a,
    {
        assert(s@.subrange(a as int, hi as int).drop_first() =~= s@.subrange(a + 1, hi as int));
        a = a + 1;
    }
    assert(trim_start_text(s@.subrange(a as int, hi as int), kind) == s@.subrange(
        a as int,
        hi as int,
    ));
    let mut b = hi;
    while b > a && strips(kind, s[b - 1])
        invariant
            lo <= a <= b <= hi <= s.len(),
            trim_end_text(s@.subrange(a as int, b as int), kind) == trim_text(whole, kind),
        decreases b - a,
    {
        assert(s@.subrange(a as int, b as int).drop_last() =~= s@.subrange(a as int, b - 1));
        b = b - 1;
    }
    (a, b)
}

/// `str::trim`: the string without leading and trailing whitespace.
pub fn str_trim(s: &str) -> (r: String)
    ensures
        r@ == trim_text(s@, Strip::Whitespace),
{
    let cs = chars_of(s);
    let (a, b) = trim_range(&cs, 0, cs.len(), Strip::Whitespace);
    assert(cs@.subrange(0, cs.len() as int) =~= cs@);
    string_of(&cs, a, b)
}

/// `[&str]::join(sep)` on owned strings.
pub fn join_strings(pieces: &Vec<String>, sep: &str) -> (r: String)
    ensures
        r@ == join_text(pieces.deep_view(), sep@),
{
    let mut r = String::new();
    let mut i: usize = 0;
    while i < pieces.len()
        invariant
            i <= pieces.len(),
            r@ == join_text(pieces.deep_view().take(i as int), sep@),
        decreases pieces.len() - i,
    {
        let ghost prev = pieces.deep_view().take(i as int);
        assert(pieces.deep_view().take(i + 1).drop_last() =~= prev);
        if i > 0 {
            r.append(sep);
        }
        r.append(pieces[i].as_str());
        i = i + 1;
        assert(r@ == join_text(pieces.deep_view().take(i as int), sep@));
    }
    assert(pieces.deep_view().take(pieces.len() as int) =~= pieces.deep_view());
    r
}

} // verus!
