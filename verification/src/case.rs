//! The closed taxonomy of recognised case styles.

use vstd::prelude::*;

use crate::chars::str_eq;

verus! {

/// One of the five recognised lexical case styles.
///
/// The declaration order is the canonical order of the taxonomy; it is used
/// as the deterministic tie-break wherever styles are ranked.
#[derive(Debug, Clone, Copy, PartialEq, Eq, Hash, PartialOrd, Ord, Structural)]
pub enum Case {
    PascalCase,
    ShoutingSnakeCase,
    CamelCase,
    SnakeCase,
    KebabCase,
}

impl Case {
    /// Position of the style in the canonical order.
    pub open spec fn spec_index(self) -> int {
        match self {
            Case::PascalCase => 0,
            Case::ShoutingSnakeCase => 1,
            Case::CamelCase => 2,
            Case::SnakeCase => 3,
            Case::KebabCase => 4,
        }
    }

    /// Position of the style in the canonical order.
    pub fn index(&self) -> (i: usize)
        ensures
            i == self.spec_index(),
    {
        match self {
            Case::PascalCase => 0,
            Case::ShoutingSnakeCase => 1,
            Case::CamelCase => 2,
            Case::SnakeCase => 3,
            Case::KebabCase => 4,
        }
    }

    /// The canonical display string of the style.
    pub open spec fn spec_display_name(self) -> Seq<char> {
        match self {
            Case::PascalCase => "PascalCase"@,
            Case::ShoutingSnakeCase => "SHOUTING_SNAKE_CASE"@,
            Case::CamelCase => "camelCase"@,
            Case::SnakeCase => "snake_case"@,
            Case::KebabCase => "kebab-case"@,
        }
    }

    /// The canonical display string of the style.
    pub fn display_name(&self) -> (r: &'static str)
        ensures
            r@ == self.spec_display_name(),
    {
        match self {
            Case::PascalCase => "PascalCase",
            Case::ShoutingSnakeCase => "SHOUTING_SNAKE_CASE",
            Case::CamelCase => "camelCase",
            Case::SnakeCase => "snake_case",
            Case::KebabCase => "kebab-case",
        }
    }

    /// The names a style is recognised under: its hyphenated name, its
    /// canonical display string, and a two-letter shorthand.
    pub open spec fn spec_from_name(s: Seq<char>) -> Option<Case> {
        if s == "pascal-case"@ || s == "PascalCase"@ || s == "pc"@ {
            Some(Case::PascalCase)
        } else if s == "shouting-snake-case"@ || s == "SHOUTING_SNAKE_CASE"@ || s == "ssc"@ {
            Some(Case::ShoutingSnakeCase)
        } else if s == "camel-case"@ || s == "camelCase"@ || s == "cc"@ {
            Some(Case::CamelCase)
        } else if s == "snake-case"@ || s == "snake_case"@ || s == "sc"@ {
            Some(Case::SnakeCase)
        } else if s == "kebab-case"@ || s == "kc"@ {
            Some(Case::KebabCase)
        } else {
            None
        }
    }

    /// Parses a style name or one of its aliases.
    pub fn from_name(s: &str) -> (r: Option<Case>)
        ensures
            r == Case::spec_from_name(s@),
    {
        if str_eq(s, "pascal-case") || str_eq(s, "PascalCase") || str_eq(s, "pc") {
            Some(Case::PascalCase)
        } else if str_eq(s, "shouting-snake-case") || str_eq(s, "SHOUTING_SNAKE_CASE") || str_eq(
            s,
            "ssc",
        ) {
            Some(Case::ShoutingSnakeCase)
        } else if str_eq(s, "camel-case") || str_eq(s, "camelCase") || str_eq(s, "cc") {
            Some(Case::CamelCase)
        } else if str_eq(s, "snake-case") || str_eq(s, "snake_case") || str_eq(s, "sc") {
            Some(Case::SnakeCase)
        } else if str_eq(s, "kebab-case") || str_eq(s, "kc") {
            Some(Case::KebabCase)
        } else {
            None
        }
    }

    /// All five styles, in canonical order.
    pub open spec fn spec_all() -> Seq<Case> {
        seq![
            Case::PascalCase,
            Case::ShoutingSnakeCase,
            Case::CamelCase,
            Case::SnakeCase,
            Case::KebabCase,
        ]
    }

    /// All five styles, in canonical order.
    pub fn all() -> (r: Vec<Case>)
        ensures
            r@ == Case::spec_all(),
    {
        let mut v: Vec<Case> = Vec::new();
        v.push(Case::PascalCase);
        v.push(Case::ShoutingSnakeCase);
        v.push(Case::CamelCase);
        v.push(Case::SnakeCase);
        v.push(Case::KebabCase);
        proof {
            assert(v@ =~= Case::spec_all());
        }
        v
    }
}

} // verus!
