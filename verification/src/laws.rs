//! The laws of the scanner, stated and proved over its abstract model.

use vstd::prelude::*;

use crate::lexer::advance_step;
use crate::lexer::best_match;
use crate::lexer::parse_consumed;
use crate::lexer::parse_outcome;
use crate::lexer::peek_step;
use crate::lexer::St;
use crate::matching::anchored_len;
use crate::matching::ws_skip;
use crate::text::newlines;
use crate::token::outcome_text;
use crate::token::Outcome;

verus! {

broadcast use crate::matching::lemma_ws_skip_le_len, crate::matching::lemma_anchored_len_bounds;

/// No rule wins exactly when no rule has an anchored match at the head of
/// the text.
pub proof fn lemma_no_winner_no_match(rules: Seq<(Seq<char>, Seq<char>)>, text: Seq<char>)
    ensures
        best_match(rules, text) is None <==> forall|i: int|
            0 <= i < rules.len() ==> (#[trigger] anchored_len(rules[i].1, text)) is None,
    decreases rules.len(),
{
    if rules.len() > 0 {
        lemma_no_winner_no_match(rules.drop_last(), text);
        assert forall|i: int| 0 <= i < rules.len() - 1 implies rules.drop_last()[i] == rules[i] by {}
        assert(anchored_len(rules[rules.len() - 1].1, text) == anchored_len(
            rules.last().1,
            text,
        ));
    }
}

/// The winning rule is a real one: its name stands in the table and its
/// pattern has an anchored match of exactly the winning length.
pub proof fn lemma_winner_is_a_match(rules: Seq<(Seq<char>, Seq<char>)>, text: Seq<char>)
    ensures
        best_match(rules, text) matches Some(m) ==> exists|i: int|
            {
                &&& 0 <= i < rules.len()
                &&& rules[i].0 == m.0
                &&& #[trigger] anchored_len(rules[i].1, text) == Some(m.1)
            },
        best_match(rules, text) matches Some(m) ==> 1 <= m.1 <= text.len(),
    decreases rules.len(),
{
    if rules.len() > 0 {
        lemma_winner_is_a_match(rules.drop_last(), text);
        assert forall|i: int| 0 <= i < rules.len() - 1 implies rules.drop_last()[i] == rules[i] by {}
        if best_match(rules, text) is Some {
            let m = best_match(rules, text)->0;
            if anchored_len(rules.last().1, text) == Some(m.1) && rules.last().0 == m.0 {
                assert(anchored_len(rules[rules.len() - 1].1, text) == Some(m.1));
            }
        }
    }
}

/// Longest match wins: a rule whose pattern has an anchored match of length
/// `l` at the head of the text never loses to a shorter match — whatever
/// wins matches with length at least `l`, wherever in the table the rules
/// stand.
pub proof fn lemma_longest_match_wins(
    rules: Seq<(Seq<char>, Seq<char>)>,
    text: Seq<char>,
    i: int,
    l: nat,
)
    requires
        0 <= i < rules.len(),
        anchored_len(rules[i].1, text) == Some(l),
    ensures
        best_match(rules, text) matches Some(m) && m.1 >= l,
    decreases rules.len(),
{
    if i == rules.len() - 1 {
        assert(anchored_len(rules.last().1, text) == Some(l));
    } else {
        assert(rules.drop_last()[i] == rules[i]);
        lemma_longest_match_wins(rules.drop_last(), text, i, l);
    }
}

/// Ties go to declaration order: the winner is the first rule, in table
/// order, whose pattern matches with the winning length.
pub proof fn lemma_first_declared_wins_ties(rules: Seq<(Seq<char>, Seq<char>)>, text: Seq<char>)
    ensures
        best_match(rules, text) matches Some(m) ==> exists|i: int|
            {
                &&& 0 <= i < rules.len()
                &&& rules[i].0 == m.0
                &&& #[trigger] anchored_len(rules[i].1, text) == Some(m.1)
                &&& forall|j: int|
                    0 <= j < i ==> (#[trigger] anchored_len(rules[j].1, text)) != Some(m.1)
            },
    decreases rules.len(),
{
    if rules.len() == 0 {
        return ;
    }
    let prefix = rules.drop_last();
    let n = rules.len() - 1;
    lemma_first_declared_wins_ties(prefix, text);
    assert forall|i: int| 0 <= i < n implies prefix[i] == rules[i] by {}
    if best_match(rules, text) is Some {
        let m = best_match(rules, text)->0;
        match anchored_len(rules.last().1, text) {
            Some(l) => {
                match best_match(prefix, text) {
                    Some(p) => {
                        if l > p.1 {
                            // the last rule wins outright: nothing before it matches
                            // with length l, or the prefix winner would be at least l
                            assert forall|j: int| 0 <= j < n implies (
                            #[trigger] anchored_len(rules[j].1, text)) != Some(l) by {
                                if anchored_len(rules[j].1, text) == Some(l) {
                                    lemma_longest_match_wins(prefix, text, j, l);
                                }
                            }
                            assert(anchored_len(rules[n].1, text) == Some(m.1));
                        }
                    },
                    None => {
                        lemma_no_winner_no_match(prefix, text);
                        assert forall|j: int| 0 <= j < n implies (
                        #[trigger] anchored_len(rules[j].1, text)) != Some(l) by {
                            assert(anchored_len(prefix[j].1, text) is None);
                        }
                        assert(anchored_len(rules[n].1, text) == Some(m.1));
                    },
                }
            },
            None => {},
        }
    }
}

/// One run of the matching algorithm consumes at most the unconsumed text,
/// and at least one character whenever any text is left.
pub proof fn lemma_parse_consumed_bounds(
    rules: Seq<(Seq<char>, Seq<char>)>,
    ws: Seq<char>,
    text: Seq<char>,
)
    ensures
        parse_consumed(rules, ws, text) <= text.len(),
        text.len() > 0 ==> parse_consumed(rules, ws, text) >= 1,
{
    let k = ws_skip(ws, text);
    let rest = text.skip(k as int);
    lemma_winner_is_a_match(rules, rest);
}

/// Whitespace-only input: where repeated whitespace strips consume the
/// whole unconsumed text — as they do whenever the text is a run of
/// consecutive whitespace matches — a fresh advance reports `EndOfFile`
/// without producing a token, consumes the trailing whitespace, and leaves
/// the scanner done.
pub proof fn lemma_whitespace_only_is_eof(s: St)
    requires
        s.cache is None,
        ws_skip(s.ws, s.remaining) == s.remaining.len(),
    ensures
        advance_step(s).1 is EndOfFile,
        advance_step(s).0.remaining.len() == 0,
{
    assert(s.remaining.skip(s.remaining.len() as int).len() == 0);
}

/// Peeking is idempotent: once a peek has cached its outcome, every further
/// peek hands out that same outcome and leaves the scanner's state exactly
/// as the first peek left it, however often it is repeated.
pub proof fn lemma_peek_idempotent(s: St)
    ensures
        peek_step(peek_step(s).0).1 == peek_step(s).1,
        peek_step(peek_step(s).0).0 == peek_step(s).0,
{
    assert(peek_step(peek_step(s).0).0 =~= peek_step(s).0);
}

/// The lookahead cache drains: an advance right after a peek hands out the
/// peeked outcome, consumes nothing further, and only clears the cache.
pub proof fn lemma_advance_after_peek(s: St)
    ensures
        advance_step(peek_step(s).0).1 == peek_step(s).1,
        advance_step(peek_step(s).0).0 == (St { cache: None, ..peek_step(s).0 }),
{
    assert(advance_step(peek_step(s).0).0 =~= (St { cache: None, ..peek_step(s).0 }));
}

/// Consumption monotonicity: no advance or peek ever grows the unconsumed
/// text; a fresh one (no cached lookahead) on a non-empty text strictly
/// shrinks it; and once the text is empty every fresh advance reports
/// `EndOfFile` and consumes nothing.  An advance that only drains the cache
/// consumes nothing itself: the peek that filled the cache already did.
pub proof fn lemma_consumption_monotonic(s: St)
    ensures
        advance_step(s).0.remaining.len() <= s.remaining.len(),
        peek_step(s).0.remaining.len() <= s.remaining.len(),
        s.cache is None && s.remaining.len() > 0 ==> advance_step(s).0.remaining.len()
            < s.remaining.len(),
        s.cache is None && s.remaining.len() == 0 ==> advance_step(s).1 is EndOfFile
            && advance_step(s).0.remaining == s.remaining,
{
    lemma_parse_consumed_bounds(s.rules, s.ws, s.remaining);
    if s.cache is None && s.remaining.len() == 0 {
        assert(s.remaining.skip(parse_consumed(s.rules, s.ws, s.remaining) as int) =~= s.remaining);
    }
}

/// Longest match at the scanner's surface: where some rule's pattern has an
/// anchored match of length `l` past the whitespace, a fresh advance
/// produces a token, and its value is at least `l` characters long —
/// whichever rule wins, it never consumes less than any match on offer.
pub proof fn lemma_advance_takes_longest(s: St, i: int, l: nat)
    requires
        s.cache is None,
        0 <= i < s.rules.len(),
        anchored_len(s.rules[i].1, s.remaining.skip(ws_skip(s.ws, s.remaining) as int)) == Some(l),
    ensures
        (advance_step(s).1 matches Outcome::Token { value, .. } && value.len() >= l),
{
    let rest = s.remaining.skip(ws_skip(s.ws, s.remaining) as int);
    lemma_longest_match_wins(s.rules, rest, i, l);
    lemma_winner_is_a_match(s.rules, rest);
}

/// Unrecognized-character recovery: where text stands past the whitespace
/// and no rule matches there, a fresh advance reports exactly the one
/// character at the cursor — never a longer slice — and consumes it along
/// with the whitespace, so that the next advance starts past it.
pub proof fn lemma_unrecognized_consumes_one(s: St)
    requires
        s.cache is None,
        s.remaining.skip(ws_skip(s.ws, s.remaining) as int).len() > 0,
        (best_match(s.rules, s.remaining.skip(ws_skip(s.ws, s.remaining) as int)) is None),
    ensures
        advance_step(s).1 == (Outcome::Unrecognized {
            value: seq![s.remaining[ws_skip(s.ws, s.remaining) as int]],
        }),
        advance_step(s).0.remaining == s.remaining.skip(
            (ws_skip(s.ws, s.remaining) + 1) as int,
        ),
{
    let k = ws_skip(s.ws, s.remaining);
    assert(s.remaining.skip(k as int)[0] == s.remaining[k as int]);
    assert(s.remaining.skip(k as int).skip(1) =~= s.remaining.skip((k + 1) as int));
}

/// One advance decomposes the unconsumed text exactly: the skipped
/// whitespace run, then the emitted text (the token's value, the consumed
/// unrecognized character, or nothing at the end of the source), then the
/// new remainder — no text is lost, duplicated or reordered.
pub proof fn lemma_step_round_trip(s: St)
    requires
        (s.cache is None),
    ensures
        s.remaining == s.remaining.take(ws_skip(s.ws, s.remaining) as int) + outcome_text(
            advance_step(s).1,
        ) + advance_step(s).0.remaining,
{
    let k0 = ws_skip(s.ws, s.remaining);
    let rest = s.remaining.skip(k0 as int);
    let k = parse_consumed(s.rules, s.ws, s.remaining);
    lemma_parse_consumed_bounds(s.rules, s.ws, s.remaining);
    let emitted = outcome_text(advance_step(s).1);
    assert(emitted =~= rest.take((k - k0) as int)) by {
        lemma_winner_is_a_match(s.rules, rest);
    }
    assert(s.remaining.take(k0 as int) + rest.take((k - k0) as int) =~= s.remaining.take(
        k as int,
    ));
    assert(s.remaining.take(k0 as int) + emitted + s.remaining.skip(k as int) =~= s.remaining.take(
        k as int,
    ) + s.remaining.skip(k as int));
    assert(s.remaining.take(k as int) + s.remaining.skip(k as int) =~= s.remaining);
}

/// The outcomes a scanner with no pending lookahead produces when advanced
/// over and over until it reports `EndOfFile`; the final `EndOfFile`
/// outcome itself is not listed.
pub open spec fn scan_outcomes(
    rules: Seq<(Seq<char>, Seq<char>)>,
    ws: Seq<char>,
    text: Seq<char>,
    line: nat,
) -> Seq<Outcome>
    decreases text.len(),
    via scan_outcomes_decreases
{
    if text.len() == 0 {
        seq![]
    } else if parse_outcome(rules, ws, text, line) is EndOfFile {
        seq![]
    } else {
        let k = parse_consumed(rules, ws, text);
        seq![parse_outcome(rules, ws, text, line)] + scan_outcomes(
            rules,
            ws,
            text.skip(k as int),
            line + newlines(text.take(k as int)),
        )
    }
}

#[via_fn]
proof fn scan_outcomes_decreases(
    rules: Seq<(Seq<char>, Seq<char>)>,
    ws: Seq<char>,
    text: Seq<char>,
    line: nat,
) {
    lemma_parse_consumed_bounds(rules, ws, text);
}

/// One advance of a lookahead-free scanner peels off exactly the head of
/// `scan_outcomes`: where the list is empty the advance reports
/// `EndOfFile`, and otherwise it produces the first listed outcome and
/// leaves a lookahead-free scanner whose own outcome list is the rest.
pub proof fn lemma_advance_unfolds_scan(s: St)
    requires
        s.cache is None,
    ensures
        scan_outcomes(s.rules, s.ws, s.remaining, s.line).len() == 0 ==> advance_step(s).1
            is EndOfFile,
        scan_outcomes(s.rules, s.ws, s.remaining, s.line).len() > 0 ==> {
            let stepped = advance_step(s);
            &&& stepped.1 == scan_outcomes(s.rules, s.ws, s.remaining, s.line)[0]
            &&& stepped.0.cache is None
            &&& scan_outcomes(stepped.0.rules, stepped.0.ws, stepped.0.remaining, stepped.0.line)
                == scan_outcomes(s.rules, s.ws, s.remaining, s.line).drop_first()
        },
{
    if s.remaining.len() == 0 {
        assert(s.remaining.skip(ws_skip(s.ws, s.remaining) as int).len() == 0);
    } else if scan_outcomes(s.rules, s.ws, s.remaining, s.line).len() > 0 {
        let k = parse_consumed(s.rules, s.ws, s.remaining);
        assert((seq![advance_step(s).1] + scan_outcomes(
            s.rules,
            s.ws,
            s.remaining.skip(k as int),
            s.line + newlines(s.remaining.take(k as int)),
        )).drop_first() =~= scan_outcomes(
            s.rules,
            s.ws,
            s.remaining.skip(k as int),
            s.line + newlines(s.remaining.take(k as int)),
        ));
    }
}

/// `text` is a concatenation of valid lexemes separated by whitespace, the
/// lexemes being `lexs` as (rule name, lexeme text) pairs in order: after
/// each whitespace strip, the next listed lexeme is exactly what the
/// winning rule matches there, until only trailing whitespace is left.
pub open spec fn lexes_to(
    rules: Seq<(Seq<char>, Seq<char>)>,
    ws: Seq<char>,
    text: Seq<char>,
    lexs: Seq<(Seq<char>, Seq<char>)>,
) -> bool
    decreases lexs.len(),
{
    let k = ws_skip(ws, text);
    let rest = text.skip(k as int);
    if lexs.len() == 0 {
        rest.len() == 0
    } else {
        &&& rest.len() > 0
        &&& best_match(rules, rest) == Some((lexs[0].0, lexs[0].1.len()))
        &&& rest.take(lexs[0].1.len() as int) == lexs[0].1
        &&& lexes_to(rules, ws, rest.skip(lexs[0].1.len() as int), lexs.drop_first())
    }
}

/// Scanning a source composed of valid lexemes separated by whitespace
/// reproduces exactly the original lexeme sequence: one token per lexeme,
/// in order, each carrying the matching rule's name and the lexeme's exact
/// text, with no error outcome anywhere.
pub proof fn lemma_scan_reproduces_lexemes(
    rules: Seq<(Seq<char>, Seq<char>)>,
    ws: Seq<char>,
    text: Seq<char>,
    line: nat,
    lexs: Seq<(Seq<char>, Seq<char>)>,
)
    requires
        lexes_to(rules, ws, text, lexs),
    ensures
        scan_outcomes(rules, ws, text, line).len() == lexs.len(),
        forall|i: int|
            0 <= i < lexs.len() ==> {
                &&& (#[trigger] scan_outcomes(rules, ws, text, line)[i]) matches Outcome::Token {
                    name,
                    value,
                    ..
                }
                &&& name == lexs[i].0
                &&& value == lexs[i].1
            },
    decreases lexs.len(),
{
    let k0 = ws_skip(ws, text);
    let rest = text.skip(k0 as int);
    if lexs.len() == 0 {
        if text.len() != 0 {
            assert(rest.len() == 0);
        }
    } else {
        let l = lexs[0].1.len();
        let k = parse_consumed(rules, ws, text);
        lemma_winner_is_a_match(rules, rest);
        assert(k == k0 + l);
        let tail = text.skip(k as int);
        assert(tail =~= rest.skip(l as int));
        let line2 = line + newlines(text.take(k as int));
        lemma_scan_reproduces_lexemes(rules, ws, tail, line2, lexs.drop_first());
        let o0 = parse_outcome(rules, ws, text, line);
        assert(o0 matches Outcome::Token { name, value, .. } && name == lexs[0].0 && value
            == lexs[0].1);
        let outs = scan_outcomes(rules, ws, text, line);
        let tail_outs = scan_outcomes(rules, ws, tail, line2);
        assert(outs == seq![o0] + tail_outs);
        assert forall|i: int| 0 <= i < lexs.len() implies {
            &&& (#[trigger] outs[i]) matches Outcome::Token { name, value, .. }
            &&& name == lexs[i].0
            &&& value == lexs[i].1
        } by {
            if i == 0 {
                assert(outs[0] == o0);
            } else {
                assert(outs[i] == tail_outs[i - 1]);
                assert(lexs.drop_first()[i - 1] == lexs[i]);
            }
        }
    }
}

/// The whitespace run and the emitted text (token value or consumed
/// unrecognized character) of each successive outcome of a full scan, in
/// order.
pub open spec fn scan_spans(
    rules: Seq<(Seq<char>, Seq<char>)>,
    ws: Seq<char>,
    text: Seq<char>,
) -> Seq<(Seq<char>, Seq<char>)>
    decreases text.len(),
    via scan_spans_decreases
{
    if text.len() == 0 {
        seq![]
    } else if parse_outcome(rules, ws, text, 0) is EndOfFile {
        seq![]
    } else {
        let k0 = ws_skip(ws, text);
        let k = parse_consumed(rules, ws, text);
        seq![(text.take(k0 as int), outcome_text(parse_outcome(rules, ws, text, 0)))]
            + scan_spans(rules, ws, text.skip(k as int))
    }
}

#[via_fn]
proof fn scan_spans_decreases(rules: Seq<(Seq<char>, Seq<char>)>, ws: Seq<char>, text: Seq<char>) {
    lemma_parse_consumed_bounds(rules, ws, text);
}

/// The suffix of the source at which a full scan stops: what is left when
/// the scanner reports `EndOfFile`.
pub open spec fn scan_rest(
    rules: Seq<(Seq<char>, Seq<char>)>,
    ws: Seq<char>,
    text: Seq<char>,
) -> Seq<char>
    decreases text.len(),
    via scan_rest_decreases
{
    if text.len() == 0 {
        text
    } else if parse_outcome(rules, ws, text, 0) is EndOfFile {
        text
    } else {
        scan_rest(rules, ws, text.skip(parse_consumed(rules, ws, text) as int))
    }
}

#[via_fn]
proof fn scan_rest_decreases(rules: Seq<(Seq<char>, Seq<char>)>, ws: Seq<char>, text: Seq<char>) {
    lemma_parse_consumed_bounds(rules, ws, text);
}

/// All the spans laid end to end: whitespace run, then emitted text, for
/// each outcome in order.
pub open spec fn concat_spans(spans: Seq<(Seq<char>, Seq<char>)>) -> Seq<char>
    decreases spans.len(),
{
    if spans.len() == 0 {
        Seq::<char>::empty()
    } else {
        spans[0].0 + spans[0].1 + concat_spans(spans.drop_first())
    }
}

/// Round trip: the whitespace runs skipped and the texts emitted (token
/// values and consumed unrecognized characters), concatenated in scan
/// order and followed by the trailing whitespace at which the scan stops,
/// reassemble the source exactly; and that trailing suffix is wholly
/// whitespace, consumed in one strip.
pub proof fn lemma_round_trip(rules: Seq<(Seq<char>, Seq<char>)>, ws: Seq<char>, text: Seq<char>)
    ensures
        concat_spans(scan_spans(rules, ws, text)) + scan_rest(rules, ws, text) == text,
        ws_skip(ws, scan_rest(rules, ws, text)) == scan_rest(rules, ws, text).len(),
    decreases text.len(),
{
    let k0 = ws_skip(ws, text);
    let rest = text.skip(k0 as int);
    let o = parse_outcome(rules, ws, text, 0);
    if text.len() == 0 {
        assert(concat_spans(scan_spans(rules, ws, text)) + text =~= text);
    } else if o is EndOfFile {
        assert(concat_spans(scan_spans(rules, ws, text)) + text =~= text);
        assert(rest.len() == 0);
    } else {
        let k = parse_consumed(rules, ws, text);
        lemma_parse_consumed_bounds(rules, ws, text);
        let tail = text.skip(k as int);
        lemma_round_trip(rules, ws, tail);
        let emitted = outcome_text(o);
        assert(text.take(k0 as int) + emitted =~= text.take(k as int)) by {
            if o is Token {
                assert(emitted == rest.take((k - k0) as int));
            } else {
                assert(emitted =~= rest.take((k - k0) as int));
            }
            assert(text.take(k0 as int) + rest.take((k - k0) as int) =~= text.take(k as int));
        }
        let spans = scan_spans(rules, ws, text);
        let tail_spans = scan_spans(rules, ws, tail);
        assert(spans.drop_first() =~= tail_spans);
        assert(concat_spans(spans) + scan_rest(rules, ws, text) =~= text) by {
            assert(concat_spans(spans) == text.take(k0 as int) + emitted + concat_spans(
                tail_spans,
            ));
            assert(concat_spans(tail_spans) + scan_rest(rules, ws, tail) == tail);
            assert(text.take(k as int) + tail =~= text);
            assert(text.take(k0 as int) + emitted + concat_spans(tail_spans) + scan_rest(
                rules,
                ws,
                tail,
            ) =~= (text.take(k0 as int) + emitted) + (concat_spans(tail_spans) + scan_rest(
                rules,
                ws,
                tail,
            )));
        }
    }
}

} // verus!
