//! Textual rendering of reports: one line per present style, ranked by
//! value, highest first.

use vstd::prelude::*;
use vstd::string::StringExecFns;

use crate::case::Case;
use crate::chars::push_char;
use crate::fraction::{push_frac, spec_frac_str, Fraction};
use crate::report::{CaseReport, PercentageCaseReport, ProportionCaseReport};

verus! {

/// The entries of a frequency report, in canonical style order: each
/// style with a nonzero count, its count as an integral fraction.
pub open spec fn freq_entries(rep: CaseReport) -> Seq<(Case, Fraction)> {
    count_entry(Case::PascalCase, rep.pascal) + count_entry(Case::ShoutingSnakeCase, rep.shouting)
        + count_entry(Case::CamelCase, rep.camel) + count_entry(Case::SnakeCase, rep.snake)
        + count_entry(Case::KebabCase, rep.kebab)
}

/// The entry a nonzero count contributes.
pub open spec fn count_entry(style: Case, count: u32) -> Seq<(Case, Fraction)> {
    if count > 0 {
        seq![(style, (Fraction { num: count as u64, den: 1u64 }))]
    } else {
        Seq::empty()
    }
}

/// The entries of a proportion or percentage report, in canonical style
/// order: each present style with its fraction.
pub open spec fn prop_entries(rep: ProportionCaseReport) -> Seq<(Case, Fraction)> {
    value_entry(Case::PascalCase, rep.pascal) + value_entry(Case::ShoutingSnakeCase, rep.shouting)
        + value_entry(Case::CamelCase, rep.camel) + value_entry(Case::SnakeCase, rep.snake)
        + value_entry(Case::KebabCase, rep.kebab)
}

/// The entry a present value contributes.
pub open spec fn value_entry(style: Case, v: Option<Fraction>) -> Seq<(Case, Fraction)> {
    match v {
        Some(f) => seq![(style, f)],
        None => Seq::empty(),
    }
}

/// Insertion into a list sorted by descending value: the new entry goes
/// in front of the first entry it is not below, so entries of equal
/// value keep their earlier order.
pub open spec fn insert_desc(e: (Case, Fraction), s: Seq<(Case, Fraction)>) -> Seq<
    (Case, Fraction),
>
    decreases s.len(),
{
    if s.len() == 0 {
        seq![e]
    } else if s[0].1.spec_gt(e.1) {
        seq![s[0]] + insert_desc(e, s.drop_first())
    } else {
        seq![e] + s
    }
}

/// The entries sorted by descending value, stably.
pub open spec fn sort_desc(s: Seq<(Case, Fraction)>) -> Seq<(Case, Fraction)>
    decreases s.len(),
{
    if s.len() == 0 {
        s
    } else {
        insert_desc(s[0], sort_desc(s.drop_first()))
    }
}

/// One line of a report: the style's canonical name, a colon, the value,
/// and a percent sign for percentage reports.
pub open spec fn report_line(e: (Case, Fraction), percent: bool) -> Seq<char> {
    e.0.spec_display_name() + ": "@ + spec_frac_str(e.1) + (if percent {
        "%"@
    } else {
        Seq::empty()
    })
}

/// The lines of a report, joined by newlines.
pub open spec fn report_text(entries: Seq<(Case, Fraction)>, percent: bool) -> Seq<char>
    decreases entries.len(),
{
    if entries.len() == 0 {
        Seq::empty()
    } else if entries.len() == 1 {
        report_line(entries[0], percent)
    } else {
        report_line(entries[0], percent) + seq!['\n'] + report_text(
            entries.drop_first(),
            percent,
        )
    }
}

impl CaseReport {
    /// The report as text: every style that occurred, ranked by count,
    /// highest first, one `name: count` line each.
    pub fn render(&self) -> (r: String)
        ensures
            r@ == report_text(sort_desc(freq_entries(*self)), false),
    {
        let mut entries: Vec<(Case, Fraction)> = Vec::new();
        push_count_entry(&mut entries, Case::PascalCase, self.pascal);
        push_count_entry(&mut entries, Case::ShoutingSnakeCase, self.shouting);
        push_count_entry(&mut entries, Case::CamelCase, self.camel);
        push_count_entry(&mut entries, Case::SnakeCase, self.snake);
        push_count_entry(&mut entries, Case::KebabCase, self.kebab);
        proof {
            assert(entries@ =~= freq_entries(*self));
        }
        let sorted = sort_entries(&entries);
        proof {
            lemma_sorted_keeps_wf(entries@, sorted@);
        }
        render_entries(&sorted, false)
    }
}

impl ProportionCaseReport {
    /// The report as text: every present style, ranked by proportion,
    /// highest first, one `name: value` line each.
    pub fn render(&self) -> (r: String)
        requires
            self.wf(),
        ensures
            r@ == report_text(sort_desc(prop_entries(*self)), false),
    {
        let entries = prop_entries_vec(self);
        let sorted = sort_entries(&entries);
        proof {
            lemma_prop_entries_wf(*self);
            lemma_sorted_keeps_wf(entries@, sorted@);
        }
        render_entries(&sorted, false)
    }
}

impl PercentageCaseReport {
    /// The report as text: every present style, ranked by percentage,
    /// highest first, one `name: value%` line each.
    pub fn render(&self) -> (r: String)
        requires
            self.0.wf(),
        ensures
            r@ == report_text(sort_desc(prop_entries(self.0)), true),
    {
        let entries = prop_entries_vec(&self.0);
        let sorted = sort_entries(&entries);
        proof {
            lemma_prop_entries_wf(self.0);
            lemma_sorted_keeps_wf(entries@, sorted@);
        }
        render_entries(&sorted, true)
    }
}

/// Appends the entry of one nonzero count.
fn push_count_entry(entries: &mut Vec<(Case, Fraction)>, style: Case, count: u32)
    ensures
        final(entries)@ == old(entries)@ + count_entry(style, count),
{
    let ghost prev = entries@;
    if count > 0 {
        entries.push((style, Fraction { num: count as u64, den: 1 }));
        proof {
            assert(entries@ =~= prev + count_entry(style, count));
        }
    } else {
        proof {
            assert(entries@ =~= prev + count_entry(style, count));
        }
    }
}

/// The entry list of a proportion or percentage report.
fn prop_entries_vec(rep: &ProportionCaseReport) -> (r: Vec<(Case, Fraction)>)
    ensures
        r@ == prop_entries(*rep),
{
    let mut entries: Vec<(Case, Fraction)> = Vec::new();
    push_value_entry(&mut entries, Case::PascalCase, &rep.pascal);
    push_value_entry(&mut entries, Case::ShoutingSnakeCase, &rep.shouting);
    push_value_entry(&mut entries, Case::CamelCase, &rep.camel);
    push_value_entry(&mut entries, Case::SnakeCase, &rep.snake);
    push_value_entry(&mut entries, Case::KebabCase, &rep.kebab);
    proof {
        assert(entries@ =~= prop_entries(*rep));
    }
    entries
}

/// Appends the entry of one present value.
fn push_value_entry(entries: &mut Vec<(Case, Fraction)>, style: Case, v: &Option<Fraction>)
    ensures
        final(entries)@ == old(entries)@ + value_entry(style, *v),
{
    let ghost prev = entries@;
    match v {
        Some(f) => {
            entries.push((style, *f));
            proof {
                assert(entries@ =~= prev + value_entry(style, *v));
            }
        },
        None => {
            proof {
                assert(entries@ =~= prev + value_entry(style, *v));
            }
        },
    }
}

/// Sorts the entries by descending value, stably.
fn sort_entries(entries: &Vec<(Case, Fraction)>) -> (r: Vec<(Case, Fraction)>)
    ensures
        r@ == sort_desc(entries@),
{
    let mut out: Vec<(Case, Fraction)> = Vec::new();
    let mut idx = entries.len();
    proof {
        assert(entries@.skip(idx as int) =~= Seq::<(Case, Fraction)>::empty());
    }
    while idx > 0
        invariant
            idx <= entries.len(),
            out@ == sort_desc(entries@.skip(idx as int)),
        decreases idx,
    {
        idx = idx - 1;
        proof {
            assert(entries@.skip(idx as int)[0] == entries@[idx as int]);
            assert(entries@.skip(idx as int).drop_first() =~= entries@.skip(idx as int + 1));
        }
        insert_entry(&mut out, entries[idx]);
    }
    proof {
        assert(entries@.skip(0) =~= entries@);
    }
    out
}

/// Inserts one entry into a descending-sorted list, before the first
/// entry it is not below.
fn insert_entry(v: &mut Vec<(Case, Fraction)>, e: (Case, Fraction))
    ensures
        final(v)@ == insert_desc(e, old(v)@),
{
    let mut k: usize = 0;
    while k < v.len() && v[k].1.gt(&e.1)
        invariant
            k <= v@.len(),
            v@ == old(v)@,
            forall|j: int| 0 <= j < k ==> (#[trigger] v@[j]).1.spec_gt(e.1),
        decreases v@.len() - k,
    {
        k += 1;
    }
    proof {
        lemma_insert_desc_at(e, v@, k as int);
    }
    v.insert(k, e);
    proof {
        assert(v@ =~= old(v)@.take(k as int) + seq![e] + old(v)@.skip(k as int));
    }
}

/// Insertion lands exactly at the first position whose entry is not
/// above the new one.
proof fn lemma_insert_desc_at(e: (Case, Fraction), s: Seq<(Case, Fraction)>, k: int)
    requires
        0 <= k <= s.len(),
        forall|j: int| 0 <= j < k ==> (#[trigger] s[j]).1.spec_gt(e.1),
        k < s.len() ==> !s[k].1.spec_gt(e.1),
    ensures
        insert_desc(e, s) == s.take(k) + seq![e] + s.skip(k),
    decreases k,
{
    if k == 0 {
        if s.len() == 0 {
            assert(insert_desc(e, s) =~= s.take(0) + seq![e] + s.skip(0));
        } else {
            assert(!s[0].1.spec_gt(e.1));
            assert(seq![e] + s =~= s.take(0) + seq![e] + s.skip(0));
        }
    } else {
        assert(s[0].1.spec_gt(e.1));
        assert forall|j: int| 0 <= j < k - 1 implies (#[trigger] s.drop_first()[j]).1.spec_gt(
            e.1,
        ) by {
            assert(s.drop_first()[j] == s[j + 1]);
        }
        assert(k - 1 < s.drop_first().len() ==> !s.drop_first()[k - 1].1.spec_gt(e.1));
        lemma_insert_desc_at(e, s.drop_first(), k - 1);
        assert(seq![s[0]] + (s.drop_first().take(k - 1) + seq![e] + s.drop_first().skip(k - 1))
            =~= s.take(k) + seq![e] + s.skip(k));
    }
}

/// Inserting keeps exactly the old entries plus the new one.
proof fn lemma_insert_desc_elems(e: (Case, Fraction), s: Seq<(Case, Fraction)>, x: (Case, Fraction))
    requires
        insert_desc(e, s).contains(x),
    ensures
        x == e || s.contains(x),
    decreases s.len(),
{
    if s.len() == 0 {
        assert(insert_desc(e, s) =~= seq![e]);
    } else if s[0].1.spec_gt(e.1) {
        let t = seq![s[0]] + insert_desc(e, s.drop_first());
        let i = choose|i: int| 0 <= i < t.len() && t[i] == x;
        if i == 0 {
            assert(s.contains(x)) by {
                assert(s[0] == x);
            }
        } else {
            assert(insert_desc(e, s.drop_first()).contains(x)) by {
                assert(insert_desc(e, s.drop_first())[i - 1] == x);
            }
            lemma_insert_desc_elems(e, s.drop_first(), x);
            if s.drop_first().contains(x) {
                let j = choose|j: int| 0 <= j < s.drop_first().len() && s.drop_first()[j] == x;
                assert(s[j + 1] == x);
            }
        }
    } else {
        let t = seq![e] + s;
        let i = choose|i: int| 0 <= i < t.len() && t[i] == x;
        if i > 0 {
            assert(s[i - 1] == x);
        }
    }
}

/// Sorting keeps only the old entries.
proof fn lemma_sort_desc_elems(s: Seq<(Case, Fraction)>, x: (Case, Fraction))
    requires
        sort_desc(s).contains(x),
    ensures
        s.contains(x),
    decreases s.len(),
{
    if s.len() > 0 {
        lemma_insert_desc_elems(s[0], sort_desc(s.drop_first()), x);
        if x == s[0] {
            assert(s.contains(x)) by {
                assert(s[0] == x);
            }
        } else {
            lemma_sort_desc_elems(s.drop_first(), x);
            let j = choose|j: int| 0 <= j < s.drop_first().len() && s.drop_first()[j] == x;
            assert(s[j + 1] == x);
        }
    }
}

/// Well-formed values stay well formed across sorting.
proof fn lemma_sorted_keeps_wf(s: Seq<(Case, Fraction)>, t: Seq<(Case, Fraction)>)
    requires
        t == sort_desc(s),
        forall|i: int| 0 <= i < s.len() ==> (#[trigger] s[i]).1.wf(),
    ensures
        forall|i: int| 0 <= i < t.len() ==> (#[trigger] t[i]).1.wf(),
{
    assert forall|i: int| 0 <= i < t.len() implies (#[trigger] t[i]).1.wf() by {
        assert(t.contains(t[i]));
        lemma_sort_desc_elems(s, t[i]);
        let j = choose|j: int| 0 <= j < s.len() && s[j] == t[i];
        assert(s[j].1.wf());
    }
}

/// A well-formed report has only well-formed fractions in its entries.
proof fn lemma_prop_entries_wf(rep: ProportionCaseReport)
    requires
        rep.wf(),
    ensures
        forall|i: int| 0 <= i < prop_entries(rep).len() ==> (#[trigger] prop_entries(
            rep,
        )[i]).1.wf(),
{
    assert(rep.spec_value(Case::PascalCase) == rep.pascal);
    assert(rep.spec_value(Case::ShoutingSnakeCase) == rep.shouting);
    assert(rep.spec_value(Case::CamelCase) == rep.camel);
    assert(rep.spec_value(Case::SnakeCase) == rep.snake);
    assert(rep.spec_value(Case::KebabCase) == rep.kebab);
}

/// Renders a sorted entry list, one line per entry.
fn render_entries(entries: &Vec<(Case, Fraction)>, percent: bool) -> (r: String)
    requires
        forall|i: int| 0 <= i < entries@.len() ==> (#[trigger] entries@[i]).1.wf(),
    ensures
        r@ == report_text(entries@, percent),
{
    let mut out = String::new();
    let mut i: usize = 0;
    while i < entries.len()
        invariant
            i <= entries.len(),
            forall|m: int| 0 <= m < entries@.len() ==> (#[trigger] entries@[m]).1.wf(),
            i == 0 ==> out@ =~= Seq::<char>::empty(),
            i > 0 ==> out@ == report_text(entries@.take(i as int), percent),
        decreases entries.len() - i,
    {
        if i > 0 {
            push_char(&mut out, '\n');
        }
        let ghost with_sep = out@;
        let (style, value) = entries[i];
        out.append(style.display_name());
        out.append(": ");
        push_frac(&mut out, &value);
        if percent {
            out.append("%");
        }
        proof {
            assert(out@ =~= with_sep + report_line(entries@[i as int], percent));
            lemma_report_text_push(entries@.take(i as int), entries@[i as int], percent);
            assert(entries@.take(i as int).push(entries@[i as int]) =~= entries@.take(
                i as int + 1,
            ));
            if i == 0 {
                assert(out@ =~= report_text(entries@.take(1), percent));
            }
        }
        i += 1;
    }
    proof {
        assert(entries@.take(entries@.len() as int) =~= entries@);
        if entries@.len() == 0 {
            assert(out@ =~= Seq::<char>::empty());
        }
    }
    out
}

/// One more entry appends a newline and its own line.
proof fn lemma_report_text_push(s: Seq<(Case, Fraction)>, e: (Case, Fraction), percent: bool)
    ensures
        s.len() == 0 ==> report_text(s.push(e), percent) == report_line(e, percent),
        s.len() > 0 ==> report_text(s.push(e), percent) == report_text(s, percent) + seq!['\n']
            + report_line(e, percent),
    decreases s.len(),
{
    if s.len() == 0 {
        assert(s.push(e)[0] == e);
    } else if s.len() == 1 {
        assert(s.push(e).drop_first() =~= seq![e]);
        assert(s.push(e)[0] == s[0]);
        assert(report_text(seq![e], percent) == report_line(e, percent));
    } else {
        lemma_report_text_push(s.drop_first(), e, percent);
        assert(s.push(e).drop_first() =~= s.drop_first().push(e));
        assert(s.push(e)[0] == s[0]);
        assert(report_line(s[0], percent) + seq!['\n'] + (report_text(s.drop_first(), percent)
            + seq!['\n'] + report_line(e, percent)) =~= (report_line(s[0], percent)
            + seq!['\n'] + report_text(s.drop_first(), percent)) + seq!['\n'] + report_line(
            e,
            percent,
        ));
    }
}

} // verus!
