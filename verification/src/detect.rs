//! Deciding which single style, if any, a whitespace-free token is
//! written in.

use vstd::prelude::*;
use vstd::string::StringExecFns;

use crate::case::Case;
use crate::chars::{has_space, is_space, space_char};
use crate::matchers::spec_matches;

verus! {

/// The caller handed the detector something that is not a token.
#[derive(Debug, PartialEq, Eq)]
pub enum DetectError {
    /// The offending input, which contains whitespace.
    InvalidInputError(String),
}

impl DetectError {
    /// A human-readable description of the error.
    pub fn message(&self) -> (r: String)
        ensures
            (match self {
                DetectError::InvalidInputError(t) => r@ == "input '"@ + t@
                    + "' is not a token"@,
            }),
    {
        match self {
            DetectError::InvalidInputError(t) => String::from_str("input '").concat(
                t.as_str(),
            ).concat("' is not a token"),
        }
    }
}

/// How many of the five style patterns the token matches.
pub open spec fn match_count(s: Seq<char>) -> int {
    (if spec_matches(Case::PascalCase, s) {
        1int
    } else {
        0int
    }) + (if spec_matches(Case::ShoutingSnakeCase, s) {
        1int
    } else {
        0int
    }) + (if spec_matches(Case::CamelCase, s) {
        1int
    } else {
        0int
    }) + (if spec_matches(Case::SnakeCase, s) {
        1int
    } else {
        0int
    }) + (if spec_matches(Case::KebabCase, s) {
        1int
    } else {
        0int
    })
}

/// The style a whitespace-free token is detected as: the unique matching
/// style when exactly one pattern matches, and nothing when zero or
/// several match.  The result is a set-cardinality test, independent of
/// the order the patterns are tried in.
pub open spec fn spec_detect(s: Seq<char>) -> Option<Case> {
    if match_count(s) == 1 {
        if spec_matches(Case::PascalCase, s) {
            Some(Case::PascalCase)
        } else if spec_matches(Case::ShoutingSnakeCase, s) {
            Some(Case::ShoutingSnakeCase)
        } else if spec_matches(Case::CamelCase, s) {
            Some(Case::CamelCase)
        } else if spec_matches(Case::SnakeCase, s) {
            Some(Case::SnakeCase)
        } else {
            Some(Case::KebabCase)
        }
    } else {
        None
    }
}

impl Case {
    /// Decides which single style the token is written in.
    ///
    /// A token that contains whitespace is a caller-contract violation and
    /// is rejected; a token matching no pattern, or several, detects as
    /// `None`, which is an ordinary outcome rather than an error.
    pub fn detect(token: &str) -> (r: Result<Option<Case>, DetectError>)
        ensures
            (match r {
                Ok(d) => !has_space(token@) && d == spec_detect(token@),
                Err(DetectError::InvalidInputError(t)) => has_space(token@) && t@ == token@,
            }),
    {
        if contains_space(token) {
            return Err(DetectError::InvalidInputError(token.to_owned()));
        }
        let pascal = Case::PascalCase.matches(token);
        let shouting = Case::ShoutingSnakeCase.matches(token);
        let camel = Case::CamelCase.matches(token);
        let snake = Case::SnakeCase.matches(token);
        let kebab = Case::KebabCase.matches(token);
        let n: usize = (if pascal {
            1usize
        } else {
            0usize
        }) + (if shouting {
            1usize
        } else {
            0usize
        }) + (if camel {
            1usize
        } else {
            0usize
        }) + (if snake {
            1usize
        } else {
            0usize
        }) + (if kebab {
            1usize
        } else {
            0usize
        });
        if n != 1 {
            Ok(None)
        } else if pascal {
            Ok(Some(Case::PascalCase))
        } else if shouting {
            Ok(Some(Case::ShoutingSnakeCase))
        } else if camel {
            Ok(Some(Case::CamelCase))
        } else if snake {
            Ok(Some(Case::SnakeCase))
        } else {
            Ok(Some(Case::KebabCase))
        }
    }
}

/// A token matching exactly one style's pattern detects as that style.
pub proof fn lemma_detect_unique(s: Seq<char>, style: Case)
    requires
        spec_matches(style, s),
        forall|other: Case| other != style ==> !spec_matches(other, s),
    ensures
        spec_detect(s) == Some(style),
{
    assert(match_count(s) == 1);
}

/// A token matching zero patterns, or several, detects as nothing: an
/// ordinary outcome, never an error.
pub proof fn lemma_detect_ambiguous(s: Seq<char>)
    requires
        match_count(s) != 1,
    ensures
        spec_detect(s) is None,
{
}

/// The token contains a whitespace character.
fn contains_space(token: &str) -> (r: bool)
    ensures
        r == has_space(token@),
{
    let len = token.unicode_len();
    let mut i: usize = 0;
    while i < len
        invariant
            i <= len,
            len == token@.len(),
            forall|j: int| 0 <= j < i ==> !is_space(#[trigger] token@[j]),
        decreases len - i,
    {
        if space_char(token.get_char(i)) {
            return true;
        }
        i += 1;
    }
    false
}

} // verus!
