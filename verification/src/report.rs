//! Frequency statistics over a body of text: per-style counts, exact
//! proportions, and percentages.

use vstd::prelude::*;

use crate::case::Case;
use crate::chars::{has_space, is_space};
use crate::detect::spec_detect;
use crate::fraction::Fraction;
use crate::stream::{run_len_pos, lemma_run_len_props};

verus! {

/// The whitespace-separated tokens of one line, in order.
pub open spec fn tokens_of(s: Seq<char>) -> Seq<Seq<char>>
    decreases s.len(),
{
    if s.len() == 0 {
        Seq::empty()
    } else {
        let k = run_len_pos(s);
        if is_space(s[0]) {
            tokens_of(s.skip(k))
        } else {
            seq![s.take(k)] + tokens_of(s.skip(k))
        }
    }
}

/// The tokens of a sequence of lines, in order.
pub open spec fn lines_tokens(lines: Seq<Seq<char>>) -> Seq<Seq<char>>
    decreases lines.len(),
{
    if lines.len() == 0 {
        Seq::empty()
    } else {
        tokens_of(lines[0]) + lines_tokens(lines.drop_first())
    }
}

/// How many tokens of the list detect as the given style.
pub open spec fn style_count(ts: Seq<Seq<char>>, style: Case) -> int
    decreases ts.len(),
{
    if ts.len() == 0 {
        0
    } else {
        (if spec_detect(ts[0]) == Some(style) {
            1int
        } else {
            0int
        }) + style_count(ts.drop_first(), style)
    }
}

/// Which derivation of the frequency statistics a report pass renders.
#[derive(Debug, Clone, Copy, PartialEq, Eq, PartialOrd, Ord, Structural)]
pub enum ReportType {
    Frequency,
    Proportion,
    Percentage,
}

/// A per-style frequency report: how many tokens of the input detected
/// as each style.  A zero count means the style did not occur.
#[derive(Debug, Clone, Copy, PartialEq, Eq, Structural)]
pub struct CaseReport {
    pub pascal: u32,
    pub shouting: u32,
    pub camel: u32,
    pub snake: u32,
    pub kebab: u32,
}

/// The frequency report built from an input stream.
pub type FrequencyCaseReport = CaseReport;

/// A per-style report of exact fractions in the unit interval; styles
/// that did not occur are absent.
#[derive(Debug, Clone, Copy)]
pub struct ProportionCaseReport {
    pub pascal: Option<Fraction>,
    pub shouting: Option<Fraction>,
    pub camel: Option<Fraction>,
    pub snake: Option<Fraction>,
    pub kebab: Option<Fraction>,
}

/// A proportion report scaled by one hundred.
#[derive(Debug, Clone, Copy)]
pub struct PercentageCaseReport(pub ProportionCaseReport);

/// A derivation over a report was asked for values it is not defined on.
#[derive(Debug, Clone, Copy, PartialEq, Eq, Structural)]
pub enum CaseReportError {
    /// A source fraction lay outside the closed unit interval; the
    /// offending value is carried along.
    PercentageConversionError(Fraction),
}

impl CaseReport {
    /// The count recorded for a style.
    pub open spec fn spec_count(self, style: Case) -> u32 {
        match style {
            Case::PascalCase => self.pascal,
            Case::ShoutingSnakeCase => self.shouting,
            Case::CamelCase => self.camel,
            Case::SnakeCase => self.snake,
            Case::KebabCase => self.kebab,
        }
    }

    /// The total number of detected tokens.
    pub open spec fn spec_total(self) -> int {
        self.pascal + self.shouting + self.camel + self.snake + self.kebab
    }

    /// The count recorded for a style.
    pub fn count(&self, style: Case) -> (r: u32)
        ensures
            r == self.spec_count(style),
    {
        match style {
            Case::PascalCase => self.pascal,
            Case::ShoutingSnakeCase => self.shouting,
            Case::CamelCase => self.camel,
            Case::SnakeCase => self.snake,
            Case::KebabCase => self.kebab,
        }
    }

    /// The total number of detected tokens.
    pub fn total(&self) -> (r: u64)
        ensures
            r == self.spec_total(),
    {
        self.pascal as u64 + self.shouting as u64 + self.camel as u64 + self.snake as u64
            + self.kebab as u64
    }

}

impl FrequencyCaseReport {
    /// Builds the frequency report for a buffered input: every line is
    /// split at whitespace, every token is detected, and each token with
    /// a unique style raises that style's count by one.  Ambiguous and
    /// undetectable tokens are excluded, silently.
    pub fn from(lines: &Vec<String>) -> (r: FrequencyCaseReport)
        requires
            lines_tokens(lines.deep_view()).len() <= u32::MAX,
        ensures
            forall|style: Case| #[trigger]
                r.spec_count(style) == style_count(lines_tokens(lines.deep_view()), style),
    {
        let ghost dv = lines.deep_view();
        let ghost full = lines_tokens(dv);
        let mut rep = CaseReport { pascal: 0, shouting: 0, camel: 0, snake: 0, kebab: 0 };
        let ghost done: Seq<Seq<char>> = Seq::empty();
        let mut li: usize = 0;
        proof {
            assert(dv.take(0) =~= Seq::<Seq<char>>::empty());
            assert(dv.skip(0) =~= dv);
            assert(Seq::<Seq<char>>::empty() + lines_tokens(dv) =~= lines_tokens(dv));
            assert forall|style: Case| #[trigger] rep.spec_count(style) == style_count(
                lines_tokens(dv.take(0)),
                style,
            ) by {
                assert(lines_tokens(dv.take(0)) =~= Seq::<Seq<char>>::empty());
            }
        }
        while li < lines.len()
            invariant
                li <= lines.len(),
                dv == lines.deep_view(),
                dv.len() == lines.len(),
                full == lines_tokens(dv),
                full.len() <= u32::MAX,
                lines_tokens(dv.take(li as int)) + lines_tokens(dv.skip(li as int)) =~~= full,
                forall|style: Case| #[trigger]
                    rep.spec_count(style) == style_count(
                        lines_tokens(dv.take(li as int)),
                        style,
                    ),
            decreases lines.len() - li,
        {
            let ghost before = lines_tokens(dv.take(li as int));
            let tokens = split_tokens(lines[li].as_str());
            let ghost line_toks = tokens.deep_view();
            proof {
                assert(dv[li as int] == lines@[li as int]@);
                assert(dv.skip(li as int)[0] == dv[li as int]);
                assert(dv.skip(li as int).drop_first() =~= dv.skip(li as int + 1));
                assert(lines_tokens(dv.skip(li as int)) == tokens_of(dv[li as int])
                    + lines_tokens(dv.skip(li as int + 1)));
                lemma_lines_tokens_take_push(dv, li as int);
            }
            let mut ti: usize = 0;
            proof {
                assert(line_toks.take(0) =~= Seq::<Seq<char>>::empty());
                assert forall|style: Case| #[trigger] rep.spec_count(style) == style_count(
                    before + line_toks.take(0),
                    style,
                ) by {
                    assert(before + line_toks.take(0) =~= before);
                }
            }
            while ti < tokens.len()
                invariant
                    ti <= tokens.len(),
                    line_toks == tokens.deep_view(),
                    line_toks.len() == tokens.len(),
                    full.len() <= u32::MAX,
                    forall|m: int| 0 <= m < tokens@.len() ==> !has_space(
                        (#[trigger] tokens@[m])@,
                    ),
                    (before + line_toks) + lines_tokens(dv.skip(li as int + 1)) =~~= full,
                    forall|style: Case| #[trigger]
                        rep.spec_count(style) == style_count(
                            before + line_toks.take(ti as int),
                            style,
                        ),
                decreases tokens.len() - ti,
            {
                let ghost seen = before + line_toks.take(ti as int);
                let ghost pre_rep = rep;
                proof {
                    assert(line_toks[ti as int] == tokens@[ti as int]@);
                    lemma_style_count_bound_split(
                        seen,
                        line_toks[ti as int],
                        line_toks.skip(ti as int + 1) + lines_tokens(dv.skip(li as int + 1)),
                        full,
                    );
                }
                let detected = Case::detect(tokens[ti].as_str());
                if let Ok(Some(style)) = detected {
                    proof {
                        assert(pre_rep.spec_count(style) == style_count(seen, style));
                        lemma_style_count_le_len(seen, style);
                        assert(style_count(seen, style) + 1 <= u32::MAX);
                    }
                    match style {
                        Case::PascalCase => { rep.pascal = rep.pascal + 1 },
                        Case::ShoutingSnakeCase => { rep.shouting = rep.shouting + 1 },
                        Case::CamelCase => { rep.camel = rep.camel + 1 },
                        Case::SnakeCase => { rep.snake = rep.snake + 1 },
                        Case::KebabCase => { rep.kebab = rep.kebab + 1 },
                    }
                }
                proof {
                    assert(line_toks.take(ti as int).push(line_toks[ti as int]) =~= line_toks
                        .take(ti as int + 1));
                    assert forall|st: Case| #[trigger] rep.spec_count(st) == style_count(
                        before + line_toks.take(ti as int + 1),
                        st,
                    ) by {
                        assert(pre_rep.spec_count(st) == style_count(seen, st));
                        lemma_style_count_push(seen, line_toks[ti as int], st);
                        assert(seen.push(line_toks[ti as int]) =~= before + line_toks.take(
                            ti as int + 1,
                        ));
                        match detected {
                            Ok(d) => {
                                assert(d == spec_detect(line_toks[ti as int]));
                            },
                            Err(_) => {
                                assert(!has_space(line_toks[ti as int]));
                                assert(false);
                            },
                        }
                    }
                }
                ti += 1;
            }
            proof {
                assert(line_toks.take(line_toks.len() as int) =~= line_toks);
            }
            li += 1;
        }
        proof {
            assert(dv.take(dv.len() as int) =~= dv);
        }
        rep
    }

    /// The dominant style: the one with the highest count.  Ties go to
    /// the style earliest in the canonical order; an all-zero report has
    /// no dominant style.
    pub open spec fn spec_main(self) -> Option<Case> {
        if self.spec_total() == 0 {
            None
        } else if self.pascal == self.spec_max() {
            Some(Case::PascalCase)
        } else if self.shouting == self.spec_max() {
            Some(Case::ShoutingSnakeCase)
        } else if self.camel == self.spec_max() {
            Some(Case::CamelCase)
        } else if self.snake == self.spec_max() {
            Some(Case::SnakeCase)
        } else {
            Some(Case::KebabCase)
        }
    }

    /// The largest per-style count.
    pub open spec fn spec_max(self) -> int {
        let a = if self.pascal >= self.shouting {
            self.pascal as int
        } else {
            self.shouting as int
        };
        let b = if a >= self.camel {
            a
        } else {
            self.camel as int
        };
        let c = if b >= self.snake {
            b
        } else {
            self.snake as int
        };
        if c >= self.kebab {
            c
        } else {
            self.kebab as int
        }
    }

    /// The dominant style of the report, if any.
    pub fn main(&self) -> (r: Option<Case>)
        ensures
            r == self.spec_main(),
    {
        let a = if self.pascal >= self.shouting {
            self.pascal
        } else {
            self.shouting
        };
        let b = if a >= self.camel {
            a
        } else {
            self.camel
        };
        let c = if b >= self.snake {
            b
        } else {
            self.snake
        };
        let m = if c >= self.kebab {
            c
        } else {
            self.kebab
        };
        if m == 0 {
            None
        } else if self.pascal == m {
            Some(Case::PascalCase)
        } else if self.shouting == m {
            Some(Case::ShoutingSnakeCase)
        } else if self.camel == m {
            Some(Case::CamelCase)
        } else if self.snake == m {
            Some(Case::SnakeCase)
        } else {
            Some(Case::KebabCase)
        }
    }

    /// The proportion report this frequency report derives to: each
    /// present style's count over the total.  The source report is left
    /// as it is.
    pub open spec fn spec_proportions(self) -> ProportionCaseReport {
        ProportionCaseReport {
            pascal: Self::spec_frac_of(self.pascal, self.spec_total()),
            shouting: Self::spec_frac_of(self.shouting, self.spec_total()),
            camel: Self::spec_frac_of(self.camel, self.spec_total()),
            snake: Self::spec_frac_of(self.snake, self.spec_total()),
            kebab: Self::spec_frac_of(self.kebab, self.spec_total()),
        }
    }

    /// The entry a count contributes to the proportion report.
    pub open spec fn spec_frac_of(count: u32, total: int) -> Option<Fraction> {
        if count > 0 {
            Some((Fraction { num: count as u64, den: total as u64 }))
        } else {
            None
        }
    }

    /// Derives the proportion report: each present style's count divided
    /// by the total, as an exact fraction.  Undefined for an empty
    /// report, whose emptiness callers check beforehand.
    pub fn proportions(&self) -> (r: ProportionCaseReport)
        requires
            self.spec_total() > 0,
        ensures
            r == self.spec_proportions(),
            r.wf(),
    {
        let total = self.total();
        ProportionCaseReport {
            pascal: Self::frac_of(self.pascal, total),
            shouting: Self::frac_of(self.shouting, total),
            camel: Self::frac_of(self.camel, total),
            snake: Self::frac_of(self.snake, total),
            kebab: Self::frac_of(self.kebab, total),
        }
    }

    fn frac_of(count: u32, total: u64) -> (r: Option<Fraction>)
        ensures
            r == Self::spec_frac_of(count, total as int),
    {
        if count > 0 {
            Some(Fraction { num: count as u64, den: total })
        } else {
            None
        }
    }
}

impl ProportionCaseReport {
    /// The fraction recorded for a style, if the style occurred.
    pub open spec fn spec_value(self, style: Case) -> Option<Fraction> {
        match style {
            Case::PascalCase => self.pascal,
            Case::ShoutingSnakeCase => self.shouting,
            Case::CamelCase => self.camel,
            Case::SnakeCase => self.snake,
            Case::KebabCase => self.kebab,
        }
    }

    /// Every present fraction has a nonzero denominator.
    pub open spec fn wf(self) -> bool {
        forall|style: Case| (match #[trigger] self.spec_value(style) {
            Some(f) => f.wf(),
            None => true,
        })
    }

    /// The fraction recorded for a style, if the style occurred.
    pub fn value(&self, style: Case) -> (r: Option<Fraction>)
        ensures
            r == self.spec_value(style),
    {
        match style {
            Case::PascalCase => self.pascal,
            Case::ShoutingSnakeCase => self.shouting,
            Case::CamelCase => self.camel,
            Case::SnakeCase => self.snake,
            Case::KebabCase => self.kebab,
        }
    }

    /// The first style, in canonical order, whose fraction lies outside
    /// the closed unit interval.
    pub open spec fn spec_first_bad(self) -> Option<Fraction> {
        if Self::spec_bad(self.pascal) {
            self.pascal
        } else if Self::spec_bad(self.shouting) {
            self.shouting
        } else if Self::spec_bad(self.camel) {
            self.camel
        } else if Self::spec_bad(self.snake) {
            self.snake
        } else if Self::spec_bad(self.kebab) {
            self.kebab
        } else {
            None
        }
    }

    /// A present fraction lying outside the closed unit interval.
    pub open spec fn spec_bad(v: Option<Fraction>) -> bool {
        match v {
            Some(f) => !f.spec_in_unit(),
            None => false,
        }
    }

    /// The percentage report this proportion report derives to.
    pub open spec fn spec_percentages(self) -> PercentageCaseReport {
        PercentageCaseReport(
            ProportionCaseReport {
                pascal: Self::spec_scaled(self.pascal),
                shouting: Self::spec_scaled(self.shouting),
                camel: Self::spec_scaled(self.camel),
                snake: Self::spec_scaled(self.snake),
                kebab: Self::spec_scaled(self.kebab),
            },
        )
    }

    /// A fraction scaled by one hundred.
    pub open spec fn spec_scaled(v: Option<Fraction>) -> Option<Fraction> {
        match v {
            Some(f) => Some((Fraction { num: (f.num * 100) as u64, den: f.den })),
            None => None,
        }
    }

    /// Derives the percentage report: every fraction scaled by one
    /// hundred.  Fails, naming the offending value, when a fraction lies
    /// outside the closed unit interval; that cannot happen to a report
    /// that `proportions` built, and guards against direct misuse.  The
    /// source report is left as it is.
    pub fn as_percentages(&self) -> (r: Result<PercentageCaseReport, CaseReportError>)
        requires
            forall|style: Case| (match #[trigger] self.spec_value(style) {
                Some(f) => f.num <= u64::MAX / 100,
                None => true,
            }),
        ensures
            (match r {
                Ok(p) => self.spec_first_bad() is None && p == self.spec_percentages(),
                Err(e) => (match e {
                    CaseReportError::PercentageConversionError(f) => self.spec_first_bad()
                        == Some(f),
                }),
            }),
    {
        proof {
            assert(self.spec_value(Case::PascalCase) == self.pascal);
            assert(self.spec_value(Case::ShoutingSnakeCase) == self.shouting);
            assert(self.spec_value(Case::CamelCase) == self.camel);
            assert(self.spec_value(Case::SnakeCase) == self.snake);
            assert(self.spec_value(Case::KebabCase) == self.kebab);
        }
        if let Some(f) = Self::check_bad(&self.pascal) {
            return Err(CaseReportError::PercentageConversionError(f));
        }
        if let Some(f) = Self::check_bad(&self.shouting) {
            return Err(CaseReportError::PercentageConversionError(f));
        }
        if let Some(f) = Self::check_bad(&self.camel) {
            return Err(CaseReportError::PercentageConversionError(f));
        }
        if let Some(f) = Self::check_bad(&self.snake) {
            return Err(CaseReportError::PercentageConversionError(f));
        }
        if let Some(f) = Self::check_bad(&self.kebab) {
            return Err(CaseReportError::PercentageConversionError(f));
        }
        Ok(
            PercentageCaseReport(
                ProportionCaseReport {
                    pascal: Self::scaled(&self.pascal),
                    shouting: Self::scaled(&self.shouting),
                    camel: Self::scaled(&self.camel),
                    snake: Self::scaled(&self.snake),
                    kebab: Self::scaled(&self.kebab),
                },
            ),
        )
    }

    fn check_bad(v: &Option<Fraction>) -> (r: Option<Fraction>)
        ensures
            Self::spec_bad(*v) ==> r == *v,
            !Self::spec_bad(*v) ==> r is None,
    {
        match v {
            Some(f) => if f.num > f.den {
                Some(*f)
            } else {
                None
            },
            None => None,
        }
    }

    fn scaled(v: &Option<Fraction>) -> (r: Option<Fraction>)
        requires
            (match *v {
                Some(f) => f.num <= u64::MAX / 100,
                None => true,
            }),
        ensures
            r == Self::spec_scaled(*v),
    {
        match v {
            Some(f) => Some(Fraction { num: f.num * 100, den: f.den }),
            None => None,
        }
    }
}

impl PercentageCaseReport {
    /// The percentage recorded for a style, if the style occurred.
    pub fn value(&self, style: Case) -> (r: Option<Fraction>)
        ensures
            r == self.0.spec_value(style),
    {
        self.0.value(style)
    }
}

/// The sum of the numerators a proportion report holds.
pub open spec fn prop_num_sum(p: ProportionCaseReport) -> int {
    prop_num(p.pascal) + prop_num(p.shouting) + prop_num(p.camel) + prop_num(p.snake) + prop_num(
        p.kebab,
    )
}

/// The numerator an entry contributes: absent styles contribute zero.
pub open spec fn prop_num(v: Option<Fraction>) -> int {
    match v {
        Some(f) => f.num as int,
        None => 0,
    }
}

/// The proportions of a non-empty frequency report sum to exactly one:
/// every present fraction has the report's total as denominator, and the
/// numerators sum to that total.
pub proof fn lemma_proportions_sum_to_one(rep: CaseReport)
    requires
        rep.spec_total() > 0,
    ensures
        prop_num_sum(rep.spec_proportions()) == rep.spec_total(),
        forall|style: Case| (match #[trigger] rep.spec_proportions().spec_value(style) {
            Some(f) => f.den == rep.spec_total(),
            None => true,
        }),
{
    assert forall|style: Case| (match #[trigger] rep.spec_proportions().spec_value(style) {
        Some(f) => f.den == rep.spec_total(),
        None => true,
    }) by {
        if rep.spec_proportions().spec_value(style) is Some {
            assert(rep.spec_total() <= u64::MAX);
        }
    }
}

/// Splits a line into its whitespace-separated tokens.
fn split_tokens(line: &str) -> (r: Vec<String>)
    ensures
        r.deep_view() == tokens_of(line@),
        forall|m: int| 0 <= m < r@.len() ==> !has_space((#[trigger] r@[m])@),
{
    let len = line.unicode_len();
    let mut done: Vec<String> = Vec::new();
    let mut i: usize = 0;
    proof {
        assert(line@.skip(0) =~= line@);
        assert(done.deep_view() + tokens_of(line@) =~~= tokens_of(line@));
    }
    while i < len
        invariant
            i <= len,
            len == line@.len(),
            done.deep_view() + tokens_of(line@.skip(i as int)) =~~= tokens_of(line@),
            forall|m: int| 0 <= m < done@.len() ==> !has_space((#[trigger] done@[m])@),
        decreases len - i,
    {
        let ghost rest = line@.skip(i as int);
        let first_space = crate::chars::space_char(line.get_char(i));
        let mut j: usize = i + 1;
        while j < len && crate::chars::space_char(line.get_char(j)) == first_space
            invariant
                i < j <= len,
                len == line@.len(),
                first_space == is_space(line@[i as int]),
                forall|m: int| i <= m < j ==> is_space(#[trigger] line@[m]) == first_space,
            decreases len - j,
        {
            j += 1;
        }
        proof {
            assert forall|m: int| 0 <= m < j - i implies is_space(#[trigger] rest[m])
                == is_space(rest[0]) by {
                assert(rest[m] == line@[i + m]);
            }
            assert(j - i < rest.len() ==> is_space(rest[(j - i) as int]) != is_space(rest[0]));
            crate::stream::lemma_run_len_is(rest, j - i);
            lemma_run_len_props(rest);
            assert(rest.skip((j - i) as int) =~= line@.skip(j as int));
        }
        if !first_space {
            let token = line.substring_char(i, j);
            let ghost prev = done.deep_view();
            done.push(token.to_owned());
            proof {
                assert(done.deep_view() =~~= prev.push(token@));
                assert(token@ =~= rest.take((j - i) as int));
            }
        }
        proof {
            assert(done.deep_view() + tokens_of(line@.skip(j as int)) =~~= tokens_of(line@));
        }
        i = j;
    }
    proof {
        assert(line@.skip(len as int) =~= Seq::<char>::empty());
        assert(done.deep_view() =~~= tokens_of(line@));
    }
    done
}

/// One more line contributes its own tokens at the end.
proof fn lemma_lines_tokens_push(lines: Seq<Seq<char>>, l: Seq<char>)
    ensures
        lines_tokens(lines.push(l)) == lines_tokens(lines) + tokens_of(l),
    decreases lines.len(),
{
    if lines.len() == 0 {
        assert(lines.push(l)[0] == l);
        assert(lines.push(l).drop_first() =~= Seq::<Seq<char>>::empty());
        assert(lines_tokens(lines) + tokens_of(l) =~= tokens_of(l));
        assert(tokens_of(l) + lines_tokens(Seq::<Seq<char>>::empty()) =~= tokens_of(l));
    } else {
        lemma_lines_tokens_push(lines.drop_first(), l);
        assert(lines.push(l).drop_first() =~= lines.drop_first().push(l));
        assert(lines.push(l)[0] == lines[0]);
        assert(tokens_of(lines[0]) + (lines_tokens(lines.drop_first()) + tokens_of(l))
            =~= (tokens_of(lines[0]) + lines_tokens(lines.drop_first())) + tokens_of(l));
    }
}

proof fn lemma_lines_tokens_take_push(lines: Seq<Seq<char>>, i: int)
    requires
        0 <= i < lines.len(),
    ensures
        lines_tokens(lines.take(i + 1)) == lines_tokens(lines.take(i)) + tokens_of(lines[i]),
{
    assert(lines.take(i).push(lines[i]) =~= lines.take(i + 1));
    lemma_lines_tokens_push(lines.take(i), lines[i]);
}

/// Every count in a token list lies between zero and the list's length.
proof fn lemma_style_count_le_len(ts: Seq<Seq<char>>, style: Case)
    ensures
        0 <= style_count(ts, style) <= ts.len(),
    decreases ts.len(),
{
    if ts.len() > 0 {
        lemma_style_count_le_len(ts.drop_first(), style);
    }
}

/// Appending one token raises the count by its own contribution.
proof fn lemma_style_count_push(ts: Seq<Seq<char>>, t: Seq<char>, style: Case)
    ensures
        style_count(ts.push(t), style) == style_count(ts, style) + (if spec_detect(t) == Some(
            style,
        ) {
            1int
        } else {
            0int
        }),
    decreases ts.len(),
{
    if ts.len() == 0 {
        assert(ts.push(t)[0] == t);
        assert(ts.push(t).drop_first() =~= Seq::<Seq<char>>::empty());
        assert(style_count(ts.push(t).drop_first(), style) == 0);
        assert(style_count(ts, style) == 0);
    } else {
        lemma_style_count_push(ts.drop_first(), t, style);
        assert(ts.push(t).drop_first() =~= ts.drop_first().push(t));
        assert(ts.push(t)[0] == ts[0]);
        assert(style_count(ts.push(t), style) == (if spec_detect(ts[0]) == Some(style) {
            1int
        } else {
            0int
        }) + style_count(ts.drop_first().push(t), style));
    }
}

/// Counting splits over concatenation.
proof fn lemma_style_count_concat(a: Seq<Seq<char>>, b: Seq<Seq<char>>, style: Case)
    ensures
        style_count(a + b, style) == style_count(a, style) + style_count(b, style),
    decreases a.len(),
{
    if a.len() == 0 {
        assert(a + b =~= b);
    } else {
        lemma_style_count_concat(a.drop_first(), b, style);
        assert((a + b).drop_first() =~= a.drop_first() + b);
        assert((a + b)[0] == a[0]);
    }
}

/// With the token list split as seen tokens, the token at hand, and the
/// rest, every count over the seen part leaves room below the whole
/// list's length.
proof fn lemma_style_count_bound_split(
    seen: Seq<Seq<char>>,
    t: Seq<char>,
    rest: Seq<Seq<char>>,
    full: Seq<Seq<char>>,
)
    requires
        (seen + seq![t]) + rest =~~= full,
    ensures
        forall|style: Case| #[trigger] style_count(seen, style) + 1 <= full.len(),
{
    assert forall|style: Case| #[trigger] style_count(seen, style) + 1 <= full.len() by {
        lemma_style_count_le_len(seen, style);
        assert(full.len() == seen.len() + 1 + rest.len());
    }
}

} // verus!
