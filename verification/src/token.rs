//! Tokens, scan errors, and their abstract outcomes.

use vstd::prelude::*;

verus! {

/// A token produced by the scanner.  Its type is the name of the rule whose
/// pattern matched, its value is the exact substring consumed, and its line
/// is the 0-based line of the source at the start of the match.  A token
/// owns copies of the matched text and is independent of the scanner's
/// buffer.
#[derive(Clone)]
pub struct Token {
    pub token_type: String,
    pub value: String,
    pub line: usize,
}

/// What a request for a token reports when no token can be made:
/// either the source is exhausted, or no rule matches at the current
/// position (the error carries the one offending character, which the
/// scanner has already consumed so that scanning can resume behind it).
#[derive(Clone)]
pub enum ParsingError {
    EndOfFileError,
    UnrecognizedPatternError(String),
}

/// One scan outcome, seen abstractly: a token (rule name, consumed text,
/// starting line), the end of the source, or an unrecognized character.
pub ghost enum Outcome {
    Token { name: Seq<char>, value: Seq<char>, line: nat },
    EndOfFile,
    Unrecognized { value: Seq<char> },
}

/// The abstract outcome a concrete scan result stands for.
pub open spec fn result_view(r: Result<Token, ParsingError>) -> Outcome {
    match r {
        Ok(t) => Outcome::Token { name: t.token_type@, value: t.value@, line: t.line as nat },
        Err(ParsingError::EndOfFileError) => Outcome::EndOfFile,
        Err(ParsingError::UnrecognizedPatternError(s)) => Outcome::Unrecognized { value: s@ },
    }
}

/// The abstract outcome of an optional scan result, `None` where none was
/// recorded yet.
pub open spec fn opt_result_view(r: Option<Result<Token, ParsingError>>) -> Option<Outcome> {
    match r {
        Some(t) => Some(result_view(t)),
        None => None,
    }
}

/// The text a scan outcome consumed beyond whitespace: a token's value, an
/// unrecognized character, or nothing at the end of the source.
pub open spec fn outcome_text(o: Outcome) -> Seq<char> {
    match o {
        Outcome::Token { value, .. } => value,
        Outcome::Unrecognized { value } => value,
        Outcome::EndOfFile => Seq::<char>::empty(),
    }
}

impl Token {
    /// True when the token's type is one of the given names.
    pub fn is(&self, types: &Vec<String>) -> (r: bool)
        ensures
            r == exists|i: int| 0 <= i < types@.len() && types@[i]@ == self.token_type@,
    {
        let mut k: usize = 0;
        while k < types.len()
            invariant
                k <= types@.len(),
                forall|i: int| 0 <= i < k ==> types@[i]@ != self.token_type@,
            decreases types@.len() - k,
        {
            if types[k].eq(&self.token_type) {
                return true;
            }
            k = k + 1;
        }
        false
    }

    /// An owned copy of the token, equal to it field by field.
    pub fn duplicate(&self) -> (r: Token)
        ensures
            result_view(Ok(r)) == result_view(Ok(*self)),
            r.token_type@ == self.token_type@,
            r.value@ == self.value@,
            r.line == self.line,
    {
        Token {
            token_type: self.token_type.clone(),
            value: self.value.clone(),
            line: self.line,
        }
    }
}

impl ParsingError {
    /// An owned copy of the error, equal to it field by field.
    pub fn duplicate(&self) -> (r: ParsingError)
        ensures
            result_view(Err(r)) == result_view(Err(*self)),
    {
        match self {
            ParsingError::EndOfFileError => ParsingError::EndOfFileError,
            ParsingError::UnrecognizedPatternError(s) => ParsingError::UnrecognizedPatternError(
                s.clone(),
            ),
        }
    }
}

/// An owned copy of a scan result, standing for the same outcome.
pub fn duplicate_result(r: &Result<Token, ParsingError>) -> (d: Result<Token, ParsingError>)
    ensures
        result_view(d) == result_view(*r),
{
    match r {
        Ok(t) => Ok(t.duplicate()),
        Err(e) => Err(e.duplicate()),
    }
}

} // verus!
