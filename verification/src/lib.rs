//! Classification and conversion of lexical case styles.
//!
//! The crate recognises five identifier styles (PascalCase,
//! SHOUTING_SNAKE_CASE, camelCase, snake_case, kebab-case), detects which
//! single style a whitespace-free token is written in, converts tokens
//! between styles while preserving the surrounding whitespace layout, and
//! aggregates per-style frequency statistics over a body of text.

pub mod case;
pub mod chars;
pub mod convert;
pub mod detect;
pub mod fraction;
pub mod matchers;
pub mod render;
pub mod report;
pub mod round_trip;
pub mod stream;

pub use crate::case::Case;
pub use crate::convert::convert_case_to;
pub use crate::detect::DetectError;
pub use crate::fraction::Fraction;
pub use crate::report::{
    CaseReport, CaseReportError, FrequencyCaseReport, PercentageCaseReport, ProportionCaseReport,
    ReportType,
};
pub use crate::stream::{convert_line, convert_lines};
