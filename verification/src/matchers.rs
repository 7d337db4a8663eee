//! The per-style structural predicate over a token's characters.

use vstd::prelude::*;

use crate::case::Case;
use crate::chars::{is_letter, is_lower, is_upper};

verus! {

/// Whether the whole token is written in the given style.
///
/// The five patterns are not mutually exclusive: a single all-lowercase
/// word matches camelCase, snake_case and kebab-case at once.  Detection
/// resolves that by counting matches, not by pattern order.
pub open spec fn spec_matches(style: Case, s: Seq<char>) -> bool {
    match style {
        Case::PascalCase => s.len() > 0 && is_upper(s[0]) && (forall|i: int|
            1 <= i < s.len() ==> is_letter(#[trigger] s[i])),
        Case::ShoutingSnakeCase => s.len() > 0 && (forall|i: int|
            0 <= i < s.len() ==> is_upper(#[trigger] s[i]) || s[i] == '_'),
        Case::CamelCase => s.len() > 0 && is_lower(s[0]) && (forall|i: int|
            1 <= i < s.len() ==> is_letter(#[trigger] s[i])),
        Case::SnakeCase => s.len() > 0 && (forall|i: int|
            0 <= i < s.len() ==> is_lower(#[trigger] s[i]) || s[i] == '_'),
        Case::KebabCase => s.len() > 0 && (forall|i: int|
            0 <= i < s.len() ==> is_lower(#[trigger] s[i]) || s[i] == '-'),
    }
}

impl Case {
    /// Whether the whole token is written in this style.
    pub fn matches(&self, token: &str) -> (r: bool)
        ensures
            r == spec_matches(*self, token@),
    {
        let len = token.unicode_len();
        if len == 0 {
            return false;
        }
        match self {
            Case::PascalCase => {
                let c0 = token.get_char(0);
                ('A' <= c0 && c0 <= 'Z') && all_letters_from(token, 1)
            },
            Case::ShoutingSnakeCase => all_upper_or(token, '_'),
            Case::CamelCase => {
                let c0 = token.get_char(0);
                ('a' <= c0 && c0 <= 'z') && all_letters_from(token, 1)
            },
            Case::SnakeCase => all_lower_or(token, '_'),
            Case::KebabCase => all_lower_or(token, '-'),
        }
    }
}

/// Every character from position `from` on is an ASCII letter.
fn all_letters_from(token: &str, from: usize) -> (r: bool)
    requires
        from <= token@.len(),
    ensures
        r == forall|i: int| from <= i < token@.len() ==> is_letter(#[trigger] token@[i]),
{
    let len = token.unicode_len();
    let mut i = from;
    while i < len
        invariant
            from <= i <= len,
            len == token@.len(),
            forall|j: int| from <= j < i ==> is_letter(#[trigger] token@[j]),
        decreases len - i,
    {
        let c = token.get_char(i);
        if !(('a' <= c && c <= 'z') || ('A' <= c && c <= 'Z')) {
            return false;
        }
        i += 1;
    }
    true
}

/// Every character is an ASCII uppercase letter or the given separator.
fn all_upper_or(token: &str, sep: char) -> (r: bool)
    ensures
        r == forall|i: int|
            0 <= i < token@.len() ==> is_upper(#[trigger] token@[i]) || token@[i] == sep,
{
    let len = token.unicode_len();
    let mut i: usize = 0;
    while i < len
        invariant
            i <= len,
            len == token@.len(),
            forall|j: int| 0 <= j < i ==> is_upper(#[trigger] token@[j]) || token@[j] == sep,
        decreases len - i,
    {
        let c = token.get_char(i);
        if !(('A' <= c && c <= 'Z') || c == sep) {
            return false;
        }
        i += 1;
    }
    true
}

/// Every character is an ASCII lowercase letter or the given separator.
fn all_lower_or(token: &str, sep: char) -> (r: bool)
    ensures
        r == forall|i: int|
            0 <= i < token@.len() ==> is_lower(#[trigger] token@[i]) || token@[i] == sep,
{
    let len = token.unicode_len();
    let mut i: usize = 0;
    while i < len
        invariant
            i <= len,
            len == token@.len(),
            forall|j: int| 0 <= j < i ==> is_lower(#[trigger] token@[j]) || token@[j] == sep,
        decreases len - i,
    {
        let c = token.get_char(i);
        if !(('a' <= c && c <= 'z') || c == sep) {
            return false;
        }
        i += 1;
    }
    true
}

} // verus!
