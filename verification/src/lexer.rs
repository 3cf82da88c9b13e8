//! Rule tables and the incremental scanner.

use vstd::prelude::*;

use crate::matching::anchored_len;
use crate::matching::compiles;
use crate::matching::find_anchored;
use crate::matching::find_ws_step;
use crate::matching::regex_clone;
use crate::matching::regex_compile;
use crate::matching::regex_source;
use crate::matching::ws_skip;
use crate::text::char_string;
use crate::text::lemma_newlines_concat;
use crate::text::lemma_newlines_le_len;
use crate::text::newlines;
use crate::text::range_string;
use crate::text::string_to_chars;
use crate::token::duplicate_result;
use crate::token::opt_result_view;
use crate::token::result_view;
use crate::token::Outcome;
use crate::token::ParsingError;
use crate::token::Token;

verus! {

broadcast use crate::matching::lemma_ws_skip_le_len, crate::matching::lemma_anchored_len_bounds;

/// A raw rule specification: token-type names paired with their pattern
/// strings, in declaration order, plus one whitespace pattern string.
/// Declaration order matters only to break ties between rules whose
/// patterns match with equal length: the rule declared first wins.  Two
/// rules may carry the same name; both stay in the table as separate rules
/// under that shared name, nothing is silently overwritten.
pub struct RuleSet {
    pub literals: Vec<(String, String)>,
    pub whitespace: String,
}

/// One compiled rule: a token-type name and the compiled matcher for its
/// pattern.
struct CompiledRule {
    name: String,
    matcher: regex::Regex,
}

/// A compiled rule table: one matcher per rule, in declaration order, plus
/// the compiled whitespace matcher.  Immutable after construction.
pub struct RegexRuleSet {
    literals: Vec<CompiledRule>,
    whitespace: regex::Regex,
}

/// Failure to build a rule table: some pattern string does not compile.
/// `Literal` carries the name of the first rule, in declaration order, whose
/// pattern is rejected; `Whitespace` says the whitespace pattern is.
pub enum RuleCompilationError {
    Literal(String),
    Whitespace,
}

/// The name/pattern pairs a raw rule list stands for.
pub open spec fn raw_rules_view(l: Seq<(String, String)>) -> Seq<(Seq<char>, Seq<char>)> {
    l.map_values(|p: (String, String)| (p.0@, p.1@))
}

/// Every rule pattern and the whitespace pattern compile.
pub open spec fn table_compiles(rules: Seq<(Seq<char>, Seq<char>)>, ws: Seq<char>) -> bool {
    compiles(ws) && (forall|i: int| 0 <= i < rules.len() ==> compiles(#[trigger] rules[i].1))
}

impl RegexRuleSet {
    /// The name/pattern pairs of the table's rules, in declaration order.
    pub closed spec fn rules(self) -> Seq<(Seq<char>, Seq<char>)> {
        self.literals@.map_values(|r: CompiledRule| (r.name@, regex_source(r.matcher)))
    }

    /// The whitespace pattern of the table.
    pub closed spec fn ws(self) -> Seq<char> {
        regex_source(self.whitespace)
    }

    /// Compiles a raw rule specification into a rule table.  Fails on the
    /// first rule, in declaration order, whose pattern does not compile,
    /// then on a whitespace pattern that does not; no partial table is
    /// returned.
    pub fn from(ruleset: RuleSet) -> (r: Result<RegexRuleSet, RuleCompilationError>)
        ensures
            r is Ok <==> table_compiles(raw_rules_view(ruleset.literals@), ruleset.whitespace@),
            r matches Ok(table) ==> table.rules() == raw_rules_view(ruleset.literals@)
                && table.ws() == ruleset.whitespace@,
            r matches Err(RuleCompilationError::Literal(name)) ==> exists|i: int|
                {
                    &&& 0 <= i < ruleset.literals@.len()
                    &&& !compiles(ruleset.literals@[i].1@)
                    &&& name@ == ruleset.literals@[i].0@
                    &&& forall|j: int| 0 <= j < i ==> compiles(#[trigger] ruleset.literals@[j].1@)
                },
            (r matches Err(RuleCompilationError::Whitespace)) <==> !compiles(ruleset.whitespace@)
                && (
            forall|i: int|
                0 <= i < ruleset.literals@.len() ==> compiles(
                    #[trigger] ruleset.literals@[i].1@,
                )),
    {
        let ghost raw = raw_rules_view(ruleset.literals@);
        let mut compiled: Vec<CompiledRule> = Vec::new();
        let mut i: usize = 0;
        while i < ruleset.literals.len()
            invariant
                i <= ruleset.literals@.len(),
                compiled@.len() == i,
                forall|j: int| 0 <= j < i ==> compiles(#[trigger] ruleset.literals@[j].1@),
                forall|j: int|
                    0 <= j < i ==> (#[trigger] compiled@[j].name)@ == ruleset.literals@[j].0@
                        && regex_source(compiled@[j].matcher) == ruleset.literals@[j].1@,
            decreases ruleset.literals@.len() - i,
        {
            match regex_compile(ruleset.literals[i].1.as_str()) {
                Some(re) => {
                    let ghost before = compiled@;
                    compiled.push(
                        CompiledRule { name: ruleset.literals[i].0.clone(), matcher: re },
                    );
                    proof {
                        assert forall|j: int| 0 <= j < i + 1 implies (
                        #[trigger] compiled@[j].name)@ == ruleset.literals@[j].0@ && regex_source(
                            compiled@[j].matcher,
                        ) == ruleset.literals@[j].1@ by {
                            if j < i {
                                assert(compiled@[j] == before[j]);
                            }
                        }
                    }
                },
                None => {
                    proof {
                        let raw = raw_rules_view(ruleset.literals@);
                        let k = i as int;
                        assert(raw.len() == ruleset.literals@.len());
                        assert(raw[k] == (ruleset.literals@[k].0@, ruleset.literals@[k].1@));
                        assert(!compiles(raw[k].1));
                        assert(!table_compiles(raw, ruleset.whitespace@));
                    }
                    return Err(RuleCompilationError::Literal(ruleset.literals[i].0.clone()));
                },
            }
            i = i + 1;
        }
        proof {
            assert forall|k: int| 0 <= k < raw.len() implies compiles(#[trigger] raw[k].1) by {
                assert(raw[k] == (ruleset.literals@[k].0@, ruleset.literals@[k].1@));
            }
        }
        match regex_compile(ruleset.whitespace.as_str()) {
            Some(ws_re) => {
                let table = RegexRuleSet { literals: compiled, whitespace: ws_re };
                proof {
                    assert(table.rules() =~= raw_rules_view(ruleset.literals@));
                }
                Ok(table)
            },
            None => Err(RuleCompilationError::Whitespace),
        }
    }

    /// An owned copy of the table, with the same rules and the same
    /// whitespace pattern, so that one compiled table can serve several
    /// independent scanners.
    pub fn duplicate(&self) -> (r: RegexRuleSet)
        ensures
            r.rules() == self.rules(),
            r.ws() == self.ws(),
    {
        let mut literals: Vec<CompiledRule> = Vec::new();
        let mut i: usize = 0;
        while i < self.literals.len()
            invariant
                i <= self.literals@.len(),
                literals@.len() == i,
                forall|j: int|
                    0 <= j < i ==> (#[trigger] literals@[j].name)@ == self.literals@[j].name@
                        && regex_source(literals@[j].matcher) == regex_source(
                        self.literals@[j].matcher,
                    ),
            decreases self.literals@.len() - i,
        {
            let ghost before = literals@;
            literals.push(
                CompiledRule {
                    name: self.literals[i].name.clone(),
                    matcher: regex_clone(&self.literals[i].matcher),
                },
            );
            proof {
                assert forall|j: int| 0 <= j < i + 1 implies (#[trigger] literals@[j].name)@
                    == self.literals@[j].name@ && regex_source(literals@[j].matcher)
                    == regex_source(self.literals@[j].matcher) by {
                    if j < i {
                        assert(literals@[j] == before[j]);
                    }
                }
            }
            i = i + 1;
        }
        let r = RegexRuleSet { literals, whitespace: regex_clone(&self.whitespace) };
        proof {
            assert(r.rules() =~= self.rules());
        }
        r
    }

    /// The name and length of the winning rule at the head of `text`:
    /// greatest anchored match length wins, and the rule declared first
    /// wins a tie.
    fn best_anchored(&self, text: &str) -> (r: Option<(String, usize)>)
        ensures
            match r {
                Some(b) => best_match(self.rules(), text@) == Some((b.0@, b.1 as nat)) && 0 < b.1
                    <= text@.len(),
                None => best_match(self.rules(), text@) is None,
            },
    {
        let n = self.literals.len();
        let mut best: Option<(usize, usize)> = None;
        let mut i: usize = 0;
        while i < n
            invariant
                n == self.literals@.len(),
                i <= n,
                match best {
                    Some(b) => {
                        &&& (b.0 as int) < i
                        &&& best_match(self.rules().take(i as int), text@) == Some(
                            (self.rules()[b.0 as int].0, b.1 as nat),
                        )
                        &&& 0 < b.1 <= text@.len()
                    },
                    None => best_match(self.rules().take(i as int), text@) is None,
                },
            decreases n - i,
        {
            let m = find_anchored(&self.literals[i].matcher, text);
            proof {
                let rv = self.rules();
                assert(rv.len() == self.literals@.len());
                assert(rv[i as int] == (self.literals@[i as int].name@, regex_source(
                    self.literals@[i as int].matcher,
                )));
                assert(rv.take((i + 1) as int).drop_last() =~= rv.take(i as int));
                assert(rv.take((i + 1) as int).last() == rv[i as int]);
            }
            match m {
                Some(l) => {
                    match best {
                        Some(b) => {
                            if l > b.1 {
                                best = Some((i, l));
                            }
                        },
                        None => {
                            best = Some((i, l));
                        },
                    }
                },
                None => {},
            }
            i = i + 1;
        }
        proof {
            assert(self.rules().take(n as int) =~= self.rules());
        }
        match best {
            Some(b) => Some((self.literals[b.0].name.clone(), b.1)),
            None => None,
        }
    }
}

/// The winning rule among all rules whose pattern has an anchored, non-empty
/// match at the start of `text`: the one with the greatest matched length,
/// and among rules matching with that same length, the one declared first.
/// `None` when no rule matches at the start of the text.
pub open spec fn best_match(rules: Seq<(Seq<char>, Seq<char>)>, text: Seq<char>) -> Option<
    (Seq<char>, nat),
>
    decreases rules.len(),
{
    if rules.len() == 0 {
        None
    } else {
        let prev = best_match(rules.drop_last(), text);
        match anchored_len(rules.last().1, text) {
            Some(l) => match prev {
                Some(p) => if l > p.1 {
                    Some((rules.last().0, l))
                } else {
                    Some(p)
                },
                None => Some((rules.last().0, l)),
            },
            None => prev,
        }
    }
}

/// The abstract state of a scanner: its rule table, the unconsumed suffix of
/// the source, the count of newlines consumed so far, the pending lookahead
/// outcome if one is cached, and the most recently produced outcome.
#[verifier::ext_equal]
pub ghost struct St {
    pub rules: Seq<(Seq<char>, Seq<char>)>,
    pub ws: Seq<char>,
    pub remaining: Seq<char>,
    pub line: nat,
    pub cache: Option<Outcome>,
    pub last: Option<Outcome>,
}

/// What one run of the matching algorithm reports on the unconsumed text:
/// leading whitespace is stripped, then either the text is exhausted
/// (`EndOfFile`), or the winning rule makes a token whose line is the line
/// at the start of the match, or no rule matches and the one character at
/// the cursor is reported unrecognized.
pub open spec fn parse_outcome(
    rules: Seq<(Seq<char>, Seq<char>)>,
    ws: Seq<char>,
    text: Seq<char>,
    line: nat,
) -> Outcome {
    let k = ws_skip(ws, text);
    let rest = text.skip(k as int);
    if rest.len() == 0 {
        Outcome::EndOfFile
    } else {
        match best_match(rules, rest) {
            Some(m) => Outcome::Token {
                name: m.0,
                value: rest.take(m.1 as int),
                line: line + newlines(text.take(k as int)),
            },
            None => Outcome::Unrecognized { value: seq![rest[0]] },
        }
    }
}

/// How many characters one run of the matching algorithm consumes: the
/// skipped whitespace, plus the matched lexeme, or plus the one unrecognized
/// character that is consumed so that a later run can get past it.
pub open spec fn parse_consumed(
    rules: Seq<(Seq<char>, Seq<char>)>,
    ws: Seq<char>,
    text: Seq<char>,
) -> nat {
    let k = ws_skip(ws, text);
    let rest = text.skip(k as int);
    if rest.len() == 0 {
        k
    } else {
        match best_match(rules, rest) {
            Some(m) => k + m.1,
            None => k + 1,
        }
    }
}

/// One `next_token` call on the abstract state: a cached lookahead outcome
/// is handed out and cleared; otherwise the matching algorithm runs on the
/// unconsumed text.  Either way the outcome becomes the recorded last one.
pub open spec fn advance_step(s: St) -> (St, Outcome) {
    match s.cache {
        Some(o) => (St { cache: None, last: Some(o), ..s }, o),
        None => {
            let o = parse_outcome(s.rules, s.ws, s.remaining, s.line);
            let k = parse_consumed(s.rules, s.ws, s.remaining);
            (
                St {
                    remaining: s.remaining.skip(k as int),
                    line: s.line + newlines(s.remaining.take(k as int)),
                    last: Some(o),
                    ..s
                },
                o,
            )
        },
    }
}

/// One `peek_next_token` call on the abstract state: the outcome a
/// `next_token` call would produce, with that outcome left cached so that
/// the next call hands it out again.
pub open spec fn peek_step(s: St) -> (St, Outcome) {
    let stepped = advance_step(s);
    (St { cache: Some(stepped.1), ..stepped.0 }, stepped.1)
}

/// The incremental scanner: it owns the source text, consumes it from the
/// front as tokens are requested, counts the newlines it consumes, caches at
/// most one lookahead result, and remembers the most recent result.
pub struct Lexer {
    source: Vec<char>,
    pos: usize,
    line: usize,
    last_token: Option<Result<Token, ParsingError>>,
    cache: Option<Result<Token, ParsingError>>,
    rules: RegexRuleSet,
}

impl Lexer {
    /// The abstract state this scanner is in.
    pub closed spec fn st(self) -> St {
        St {
            rules: self.rules.rules(),
            ws: self.rules.ws(),
            remaining: self.source@.skip(self.pos as int),
            line: self.line as nat,
            cache: opt_result_view(self.cache),
            last: opt_result_view(self.last_token),
        }
    }

    #[verifier::type_invariant]
    spec fn wf(self) -> bool {
        self.pos <= self.source@.len() && self.line <= self.pos
    }

    /// Builds a scanner from a raw rule list, a whitespace pattern and a
    /// source text.  Fails exactly as the rule table compiler does, and
    /// starts with the whole source unconsumed, on line 0, with no lookahead
    /// and no token produced.
    pub fn from_args(literals: Vec<(String, String)>, whitespace: String, source: String) -> (r:
        Result<Lexer, RuleCompilationError>)
        ensures
            r is Ok <==> table_compiles(raw_rules_view(literals@), whitespace@),
            r matches Ok(lx) ==> lx.st() == (St {
                rules: raw_rules_view(literals@),
                ws: whitespace@,
                remaining: source@,
                line: 0,
                cache: None,
                last: None,
            }),
            r matches Err(RuleCompilationError::Literal(name)) ==> exists|i: int|
                {
                    &&& 0 <= i < literals@.len()
                    &&& !compiles(literals@[i].1@)
                    &&& name@ == literals@[i].0@
                    &&& forall|j: int| 0 <= j < i ==> compiles(#[trigger] literals@[j].1@)
                },
            (r matches Err(RuleCompilationError::Whitespace)) <==> !compiles(whitespace@) && (
            forall|i: int| 0 <= i < literals@.len() ==> compiles(#[trigger] literals@[i].1@)),
    {
        match RegexRuleSet::from(RuleSet { literals, whitespace }) {
            Ok(rules) => {
                let lx = Lexer::from_table(rules, source);
                proof {
                    assert(lx.st() =~= (St {
                        rules: raw_rules_view(literals@),
                        ws: whitespace@,
                        remaining: source@,
                        line: 0,
                        cache: None,
                        last: None,
                    }));
                }
                Ok(lx)
            },
            Err(e) => Err(e),
        }
    }

    /// Builds a scanner over `source` from an already compiled rule table,
    /// with the whole source unconsumed, on line 0, with no lookahead and
    /// no result produced yet.
    pub fn from_table(rules: RegexRuleSet, source: String) -> (lx: Lexer)
        ensures
            lx.st() == (St {
                rules: rules.rules(),
                ws: rules.ws(),
                remaining: source@,
                line: 0,
                cache: None,
                last: None,
            }),
    {
        let chars = string_to_chars(source.as_str());
        let lx = Lexer { source: chars, pos: 0, line: 0, last_token: None, cache: None, rules };
        proof {
            assert(lx.st() =~= (St {
                rules: rules.rules(),
                ws: rules.ws(),
                remaining: source@,
                line: 0,
                cache: None,
                last: None,
            }));
        }
        lx
    }

    /// True once the whole source has been consumed.  A cached lookahead
    /// result does not count: it is still there to be drained.
    pub fn done(&self) -> (r: bool)
        ensures
            r == (self.st().remaining.len() == 0),
    {
        proof {
            use_type_invariant(&*self);
        }
        self.pos >= self.source.len()
    }

    /// How many characters of the source are not yet consumed.
    pub fn remaining_len(&self) -> (r: usize)
        ensures
            r == self.st().remaining.len(),
    {
        proof {
            use_type_invariant(&*self);
        }
        self.source.len() - self.pos
    }

    /// The most recently produced result, or `None` before the first
    /// `next_token` or `peek_next_token` call.
    pub fn current_token(&self) -> (r: Option<Result<Token, ParsingError>>)
        ensures
            opt_result_view(r) == self.st().last,
    {
        match &self.last_token {
            Some(t) => Some(duplicate_result(t)),
            None => None,
        }
    }

    /// Consumes the next `n` characters, counting the newlines among them.
    fn consume(&mut self, n: usize)
        requires
            n <= old(self).st().remaining.len(),
        ensures
            final(self).st() == (St {
                remaining: old(self).st().remaining.skip(n as int),
                line: old(self).st().line + newlines(old(self).st().remaining.take(n as int)),
                ..old(self).st()
            }),
    {
        proof {
            use_type_invariant(&*self);
            assert(old(self).st().remaining.len() == self.source@.len() - self.pos);
        }
        let ghost rem0 = old(self).st().remaining;
        proof {
            assert(self.source.len() == self.source@.len());
        }
        let end = self.pos + n;
        while self.pos < end
            invariant
                old(self).pos <= self.pos <= end,
                end == old(self).pos + n,
                end <= self.source@.len(),
                self.source@ == old(self).source@,
                self.rules == old(self).rules,
                self.cache == old(self).cache,
                self.last_token == old(self).last_token,
                self.line <= self.pos,
                rem0 == old(self).source@.skip(old(self).pos as int),
                self.line as nat == old(self).line + newlines(
                    rem0.take((self.pos - old(self).pos) as int),
                ),
            decreases end - self.pos,
        {
            let c = self.source[self.pos];
            self.pos = self.pos + 1;
            proof {
                let k = self.pos - old(self).pos;
                assert(rem0.take(k).drop_last() =~= rem0.take(k - 1));
                assert(rem0.take(k).last() == rem0[k - 1]);
                lemma_newlines_le_len(rem0.take(k));
            }
            if c == '\n' {
                self.line = self.line + 1;
            }
        }
        proof {
            assert(self.source@.skip(self.pos as int) =~= rem0.skip(n as int));
            assert(self.st() =~= (St {
                remaining: old(self).st().remaining.skip(n as int),
                line: old(self).st().line + newlines(old(self).st().remaining.take(n as int)),
                ..old(self).st()
            }));
        }
    }

    /// The unconsumed suffix of the source, as an owned string for the
    /// matchers to look at.
    fn rest_string(&self) -> (s: String)
        ensures
            s@ == self.st().remaining,
    {
        proof {
            use_type_invariant(&*self);
        }
        let s = range_string(&self.source, self.pos, self.source.len());
        proof {
            assert(self.source@.subrange(self.pos as int, self.source@.len() as int)
                =~= self.st().remaining);
        }
        s
    }

    /// Strips the leading run of whitespace: anchored matches of the
    /// whitespace pattern are consumed one after another until one makes no
    /// progress, and the line counter advances once per newline consumed.
    /// The pattern primitive reports its preference-order match, not
    /// necessarily the longest, so a single strip may take only part of a
    /// whitespace run; the repetition consumes the rest.
    fn skip_whitespace(&mut self)
        ensures
            final(self).st() == (St {
                remaining: old(self).st().remaining.skip(
                    ws_skip(old(self).st().ws, old(self).st().remaining) as int,
                ),
                line: old(self).st().line + newlines(
                    old(self).st().remaining.take(
                        ws_skip(old(self).st().ws, old(self).st().remaining) as int,
                    ),
                ),
                ..old(self).st()
            }),
    {
        proof {
            use_type_invariant(&*self);
            assert(old(self).st().remaining.skip(0) =~= old(self).st().remaining);
            assert(old(self).st().remaining.take(0) =~= Seq::<char>::empty());
            assert(self.st() =~= (St {
                remaining: old(self).st().remaining.skip(0),
                line: old(self).st().line + newlines(old(self).st().remaining.take(0)),
                ..old(self).st()
            }));
        }
        let ghost mut j: nat = 0;
        loop
            invariant
                j <= old(self).st().remaining.len(),
                ws_skip(old(self).st().ws, old(self).st().remaining) == j + ws_skip(
                    old(self).st().ws,
                    old(self).st().remaining.skip(j as int),
                ),
                self.st() == (St {
                    remaining: old(self).st().remaining.skip(j as int),
                    line: old(self).st().line + newlines(
                        old(self).st().remaining.take(j as int),
                    ),
                    ..old(self).st()
                }),
            decreases old(self).st().remaining.len() - j,
        {
            let rest = self.rest_string();
            let k = find_ws_step(&self.rules.whitespace, rest.as_str());
            if k == 0 {
                proof {
                    assert(ws_skip(old(self).st().ws, old(self).st().remaining.skip(j as int))
                        == 0);
                }
                return ;
            }
            self.consume(k);
            proof {
                lemma_step_composition(old(self).st(), j, k as nat);
                assert(self.st() =~= (St {
                    remaining: old(self).st().remaining.skip((j + k) as int),
                    line: old(self).st().line + newlines(
                        old(self).st().remaining.take((j + k) as int),
                    ),
                    ..old(self).st()
                }));
                j = (j + k) as nat;
            }
        }
    }

    /// One run of the matching algorithm: strips leading whitespace, then
    /// reports the end of the source, the token of the winning rule, or the
    /// one unrecognized character at the cursor, which it consumes so that
    /// the next run gets past it.  Does not look at the lookahead cache and
    /// does not record the result.
    fn parse_next(&mut self) -> (r: Result<Token, ParsingError>)
        ensures
            result_view(r) == parse_outcome(
                old(self).st().rules,
                old(self).st().ws,
                old(self).st().remaining,
                old(self).st().line,
            ),
            final(self).st() == (St {
                remaining: old(self).st().remaining.skip(
                    parse_consumed(old(self).st().rules, old(self).st().ws, old(self).st().remaining) as int,
                ),
                line: old(self).st().line + newlines(
                    old(self).st().remaining.take(
                        parse_consumed(
                            old(self).st().rules,
                            old(self).st().ws,
                            old(self).st().remaining,
                        ) as int,
                    ),
                ),
                ..old(self).st()
            }),
    {
        let ghost st0 = old(self).st();
        let ghost k0 = ws_skip(st0.ws, st0.remaining);
        self.skip_whitespace();
        if self.done() {
            return Err(ParsingError::EndOfFileError);
        }
        proof {
            use_type_invariant(&*self);
        }
        let rest = self.rest_string();
        let best = self.rules.best_anchored(rest.as_str());
        let ghost rem1 = self.st().remaining;
        match best {
            Some(b) => {
                let name = b.0;
                let length = b.1;
                let line_here = self.line;
                proof {
                    assert(self.source.len() == self.source@.len());
                }
                let value = range_string(&self.source, self.pos, self.pos + length);
                proof {
                    assert(value@ =~= rem1.take(length as int));
                }
                self.consume(length);
                proof {
                    lemma_step_composition(st0, k0, length as nat);
                }
                Ok(Token { token_type: name, value, line: line_here })
            },
            None => {
                let c = self.source[self.pos];
                self.consume(1);
                proof {
                    assert(seq![c] =~= rem1.take(1));
                    lemma_step_composition(st0, k0, 1);
                }
                Err(ParsingError::UnrecognizedPatternError(char_string(c)))
            },
        }
    }

    /// Advances and returns the next result: a cached lookahead result if
    /// one is pending, else a fresh run of the matching algorithm; either
    /// way it becomes the current result.
    pub fn next_token(&mut self) -> (r: Result<Token, ParsingError>)
        ensures
            final(self).st() == advance_step(old(self).st()).0,
            result_view(r) == advance_step(old(self).st()).1,
    {
        proof {
            use_type_invariant(&*self);
        }
        let mut cached: Option<Result<Token, ParsingError>> = None;
        std::mem::swap(&mut cached, &mut self.cache);
        match cached {
            Some(t) => {
                let d = duplicate_result(&t);
                self.last_token = Some(t);
                proof {
                    assert(self.st() =~= advance_step(old(self).st()).0);
                }
                d
            },
            None => {
                let r = self.parse_next();
                proof {
                    use_type_invariant(&*self);
                }
                self.last_token = Some(duplicate_result(&r));
                proof {
                    assert(self.st() =~= advance_step(old(self).st()).0);
                }
                r
            },
        }
    }

    /// Returns the next result without consuming it: the result the next
    /// `next_token` call will hand out, left cached so that repeated peeks
    /// all see the same thing.
    pub fn peek_next_token(&mut self) -> (r: Option<Result<Token, ParsingError>>)
        ensures
            final(self).st() == peek_step(old(self).st()).0,
            opt_result_view(r) == Some(peek_step(old(self).st()).1),
    {
        let t = self.next_token();
        proof {
            use_type_invariant(&*self);
        }
        let d = duplicate_result(&t);
        self.cache = Some(t);
        proof {
            assert(self.st() =~= peek_step(old(self).st()).0);
        }
        Some(d)
    }
}

/// Consuming `k` characters of whitespace and then `l` more characters is
/// the same as consuming `k + l` characters: the suffixes agree and the
/// newline counts add up.
proof fn lemma_step_composition(s: St, k: nat, l: nat)
    requires
        k + l <= s.remaining.len(),
    ensures
        s.remaining.skip(k as int).skip(l as int) == s.remaining.skip((k + l) as int),
        s.remaining.skip(k as int).take(l as int) == s.remaining.subrange(
            k as int,
            (k + l) as int,
        ),
        newlines(s.remaining.take(k as int)) + newlines(s.remaining.skip(k as int).take(l as int))
            == newlines(s.remaining.take((k + l) as int)),
{
    assert(s.remaining.skip(k as int).skip(l as int) =~= s.remaining.skip((k + l) as int));
    assert(s.remaining.skip(k as int).take(l as int) =~= s.remaining.subrange(
        k as int,
        (k + l) as int,
    ));
    assert(s.remaining.take((k + l) as int) =~= s.remaining.take(k as int) + s.remaining.skip(
        k as int,
    ).take(l as int));
    lemma_newlines_concat(
        s.remaining.take(k as int),
        s.remaining.skip(k as int).take(l as int),
    );
}

} // verus!
