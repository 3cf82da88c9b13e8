//! The boundary to the general-purpose pattern-matching primitive.
//!
//! The engine does not build its own automata: each rule pattern is handed to
//! the `regex` crate, compiled once, and then asked one question per scan
//! position — "where is your leftmost match in this text, and how long is
//! it?".  Everything the rest of the library believes about that primitive is
//! stated here, on the trusted functions, over two named results
//! (`compiles`, `find_result`) and the pattern a compiled matcher carries
//! (`regex_source`).

use vstd::prelude::*;

verus! {

#[verifier::external_type_specification]
#[verifier::external_body]
pub struct ExRegex(regex::Regex);

/// The pattern text a compiled matcher was built from.  Names the result of
/// `regex::Regex::as_str`, which returns exactly the string that was handed
/// to `regex::Regex::new`.
pub uninterp spec fn regex_source(re: regex::Regex) -> Seq<char>;

/// Whether `regex::Regex::new` accepts a pattern: it fails exactly on a
/// pattern that is not valid in the crate's dialect, or whose compiled form
/// exceeds the crate's default size limit.  Both conditions depend on the
/// pattern text alone.
pub uninterp spec fn compiles(pat: Seq<char>) -> bool;

/// The leftmost match that `regex::Regex::find` reports for a pattern on a
/// text, with its byte offsets converted to character offsets, or `None`
/// when the pattern matches nowhere in the text.  The match is a function of
/// the pattern and the text alone.
pub uninterp spec fn find_result(pat: Seq<char>, text: Seq<char>) -> Option<(usize, usize)>;

/// Relies on `regex::Regex::new`: compilation succeeds exactly when the
/// pattern is acceptable, and the compiled matcher remembers the pattern it
/// was built from (`regex::Regex::as_str`).
#[verifier::external_body]
pub(crate) fn regex_compile(pat: &str) -> (r: Option<regex::Regex>)
    ensures
        r is Some <==> compiles(pat@),
        r matches Some(re) ==> regex_source(re) == pat@,
{
    match regex::Regex::new(pat) {
        Ok(re) => Some(re),
        Err(_) => None,
    }
}

/// Relies on `regex::Regex::clone`: the clone is the same compiled
/// matcher, built from the same pattern.
#[verifier::external_body]
pub(crate) fn regex_clone(re: &regex::Regex) -> (r: regex::Regex)
    ensures
        regex_source(r) == regex_source(*re),
{
    re.clone()
}

/// Relies on `regex::Regex::find`: it reports the leftmost match as byte
/// offsets into the text, both on character boundaries, with
/// `start <= end <= text.len()`; the offsets are converted to character
/// counts before they are returned.
#[verifier::external_body]
pub(crate) fn regex_find(re: &regex::Regex, text: &str) -> (r: Option<(usize, usize)>)
    ensures
        r == find_result(regex_source(*re), text@),
        r matches Some((s, e)) ==> s <= e && e <= text@.len(),
{
    match re.find(text) {
        Some(m) => {
            let s = text[..m.start()].chars().count();
            let e = text[..m.end()].chars().count();
            Some((s, e))
        },
        None => None,
    }
}

/// How many leading characters one strip of the whitespace pattern `ws`
/// takes off `text`: the length of the match the primitive reports when
/// that match is anchored at the start of the text, and zero otherwise.
/// The primitive reports its preference-order match, not necessarily the
/// longest one — an alternation such as `" |\t"` matches one character at a
/// time — so one strip need not take a whole whitespace run.  Capped at the
/// text's length, so that the strip stays within the text whatever
/// `find_result` is.
pub open spec fn ws_step(ws: Seq<char>, text: Seq<char>) -> nat {
    match find_result(ws, text) {
        Some((s, e)) => if s == 0 {
            if e <= text.len() {
                e as nat
            } else {
                text.len()
            }
        } else {
            0
        },
        None => 0,
    }
}

/// How many leading characters the whitespace pattern `ws` strips from
/// `text` in all: anchored matches are stripped one after another until one
/// makes no progress, so a run of consecutive whitespace matches is
/// consumed whole even when the pattern matches it only piecewise.
pub open spec fn ws_skip(ws: Seq<char>, text: Seq<char>) -> nat
    decreases text.len(),
{
    let k = ws_step(ws, text);
    if k == 0 {
        0
    } else {
        k + ws_skip(ws, text.skip(k as int))
    }
}

/// The length of the match of `pat` anchored at the start of `text`, if any.
/// A match that begins later in the text is no anchored match, and an empty
/// match does not count: a rule that consumes nothing can make no token.
pub open spec fn anchored_len(pat: Seq<char>, text: Seq<char>) -> Option<nat> {
    match find_result(pat, text) {
        Some((s, e)) => if s == 0 && 0 < e <= text.len() {
            Some(e as nat)
        } else {
            None
        },
        None => None,
    }
}

/// The whitespace-skip length never exceeds the text.
pub broadcast proof fn lemma_ws_skip_le_len(ws: Seq<char>, text: Seq<char>)
    ensures
        #[trigger] ws_skip(ws, text) <= text.len(),
    decreases text.len(),
{
    let k = ws_step(ws, text);
    if k != 0 {
        lemma_ws_skip_le_len(ws, text.skip(k as int));
    }
}

/// An anchored match is at least one character and at most the whole text.
pub broadcast proof fn lemma_anchored_len_bounds(pat: Seq<char>, text: Seq<char>)
    ensures
        #[trigger] anchored_len(pat, text) matches Some(l) ==> 1 <= l <= text.len(),
{
}

/// Tests whether `pat` has an anchored, non-empty match at the start of
/// `text`, and if so of what length.
pub(crate) fn find_anchored(re: &regex::Regex, text: &str) -> (r: Option<usize>)
    ensures
        match r {
            Some(l) => anchored_len(regex_source(*re), text@) == Some(l as nat),
            None => anchored_len(regex_source(*re), text@) is None,
        },
{
    match regex_find(re, text) {
        Some((s, e)) => if s == 0 && e > 0 {
            Some(e)
        } else {
            None
        },
        None => None,
    }
}

/// The number of characters one strip of the whitespace matcher `re` takes
/// off the start of `text`.
pub(crate) fn find_ws_step(re: &regex::Regex, text: &str) -> (r: usize)
    ensures
        r == ws_step(regex_source(*re), text@),
        r <= text@.len(),
{
    match regex_find(re, text) {
        Some((s, e)) => if s == 0 {
            e
        } else {
            0
        },
        None => 0,
    }
}

} // verus!
