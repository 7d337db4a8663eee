//! Line-by-line conversion: each line splits into alternating whitespace
//! and token runs, every token run is rewritten under the first matching
//! conversion rule, and the line is reassembled with its whitespace
//! intact.

use vstd::prelude::*;
use vstd::string::{StrSliceExecFns, StringExecFns};

use crate::case::Case;
use crate::chars::{has_space, is_space, space_char};
use crate::convert::{convert_case_to, spec_convert};
use crate::detect::spec_detect;

verus! {

/// Length of the leading run of characters that agree with the first
/// character on being whitespace or not.
pub open spec fn run_len(s: Seq<char>) -> int
    decreases s.len(),
{
    if s.len() == 0 {
        0
    } else if s.len() == 1 {
        1
    } else if is_space(s[1]) == is_space(s[0]) {
        1 + run_len(s.drop_first())
    } else {
        1
    }
}

/// What a detected token becomes under an ordered rule list: the first
/// rule whose source style is the detected style applies; with no such
/// rule the token passes through unchanged.
pub open spec fn apply_rules(t: Seq<char>, c: Case, rules: Seq<(Case, Case)>) -> Seq<char>
    decreases rules.len(),
{
    if rules.len() == 0 {
        t
    } else if rules[0].0 == c {
        spec_convert(t, rules[0].1)
    } else {
        apply_rules(t, c, rules.drop_first())
    }
}

/// What a token run becomes: a token with a unique detected style is
/// rewritten under the rule list; an ambiguous or undetectable token
/// passes through unchanged.
pub open spec fn transform_token(t: Seq<char>, rules: Seq<(Case, Case)>) -> Seq<char> {
    match spec_detect(t) {
        Some(c) => apply_rules(t, c, rules),
        None => t,
    }
}

/// One line after conversion: whitespace runs are kept verbatim and
/// token runs are rewritten, in their original order.
pub open spec fn convert_line_spec(s: Seq<char>, rules: Seq<(Case, Case)>) -> Seq<char>
    decreases s.len(),
{
    if s.len() == 0 {
        s
    } else {
        let k = run_len_pos(s);
        if is_space(s[0]) {
            s.take(k) + convert_line_spec(s.skip(k), rules)
        } else {
            transform_token(s.take(k), rules) + convert_line_spec(s.skip(k), rules)
        }
    }
}

/// `run_len`, bounded away from zero so that recursion over runs is seen
/// to terminate.
pub open spec fn run_len_pos(s: Seq<char>) -> int {
    if run_len(s) < 1 {
        1
    } else if run_len(s) > s.len() {
        s.len() as int
    } else {
        run_len(s)
    }
}

/// The leading run is nonempty, uniform, and maximal.
pub proof fn lemma_run_len_props(s: Seq<char>)
    requires
        s.len() > 0,
    ensures
        1 <= run_len(s) <= s.len(),
        forall|i: int| 0 <= i < run_len(s) ==> is_space(#[trigger] s[i]) == is_space(s[0]),
        run_len(s) < s.len() ==> is_space(s[run_len(s)]) != is_space(s[0]),
        run_len_pos(s) == run_len(s),
    decreases s.len(),
{
    if s.len() > 1 && is_space(s[1]) == is_space(s[0]) {
        lemma_run_len_props(s.drop_first());
        assert forall|i: int| 0 <= i < run_len(s) implies is_space(#[trigger] s[i]) == is_space(
            s[0],
        ) by {
            if i > 0 {
                assert(is_space(s.drop_first()[i - 1]) == is_space(s.drop_first()[0]));
            }
        }
        if run_len(s) < s.len() {
            assert(is_space(s.drop_first()[run_len(s) - 1]) != is_space(s.drop_first()[0]));
        }
    }
}

/// The run length is pinned by any index with the run's properties.
pub(crate) proof fn lemma_run_len_is(s: Seq<char>, k: int)
    requires
        1 <= k <= s.len(),
        forall|i: int| 0 <= i < k ==> is_space(#[trigger] s[i]) == is_space(s[0]),
        k < s.len() ==> is_space(s[k]) != is_space(s[0]),
    ensures
        run_len(s) == k,
    decreases s.len(),
{
    if k == 1 {
        if s.len() > 1 {
            assert(is_space(s[1]) != is_space(s[0]));
        }
    } else {
        assert(is_space(s[1]) == is_space(s[0]));
        assert forall|i: int| 0 <= i < k - 1 implies is_space(#[trigger] s.drop_first()[i])
            == is_space(s.drop_first()[0]) by {
            assert(s.drop_first()[i] == s[i + 1]);
            assert(s.drop_first()[0] == s[1]);
        }
        assert(k - 1 < s.drop_first().len() ==> is_space(s.drop_first()[k - 1]) != is_space(
            s.drop_first()[0],
        ));
        lemma_run_len_is(s.drop_first(), k - 1);
    }
}

/// Rewrites one line under the rule list, keeping every whitespace run
/// exactly as it was.
pub fn convert_line(line: &str, rules: &Vec<(Case, Case)>) -> (r: String)
    ensures
        r@ == convert_line_spec(line@, rules@),
{
    let len = line.unicode_len();
    let mut out = String::new();
    let mut i: usize = 0;
    proof {
        assert(line@.skip(0) =~= line@);
        assert(out@ + convert_line_spec(line@, rules@) =~= convert_line_spec(line@, rules@));
    }
    while i < len
        invariant
            i <= len,
            len == line@.len(),
            out@ + convert_line_spec(line@.skip(i as int), rules@) == convert_line_spec(
                line@,
                rules@,
            ),
        decreases len - i,
    {
        let ghost rest = line@.skip(i as int);
        let first_space = space_char(line.get_char(i));
        let mut j: usize = i + 1;
        while j < len && space_char(line.get_char(j)) == first_space
            invariant
                i < j <= len,
                len == line@.len(),
                first_space == is_space(line@[i as int]),
                forall|m: int| i <= m < j ==> is_space(#[trigger] line@[m]) == first_space,
            decreases len - j,
        {
            j += 1;
        }
        proof {
            assert forall|m: int| 0 <= m < j - i implies is_space(#[trigger] rest[m])
                == is_space(rest[0]) by {
                assert(rest[m] == line@[i + m]);
            }
            assert(j - i < rest.len() ==> is_space(rest[(j - i) as int]) != is_space(rest[0]));
            lemma_run_len_is(rest, j - i);
            lemma_run_len_props(rest);
            assert(rest.take((j - i) as int) =~= line@.subrange(i as int, j as int));
            assert(rest.skip((j - i) as int) =~= line@.skip(j as int));
        }
        let piece = line.substring_char(i, j);
        if first_space {
            out.append(piece);
        } else {
            proof {
                assert(!has_space(piece@));
            }
            let replaced = transform_token_exec(piece, rules);
            out.append(replaced.as_str());
        }
        proof {
            assert(out@ + convert_line_spec(line@.skip(j as int), rules@) == convert_line_spec(
                line@,
                rules@,
            ));
        }
        i = j;
    }
    proof {
        assert(line@.skip(len as int) =~= Seq::<char>::empty());
        assert(out@ + Seq::<char>::empty() =~= out@);
    }
    out
}

/// Rewrites one whitespace-free token run under the rule list.
fn transform_token_exec(token: &str, rules: &Vec<(Case, Case)>) -> (r: String)
    requires
        !has_space(token@),
    ensures
        r@ == transform_token(token@, rules@),
{
    let detected = Case::detect(token);
    proof {
        assert(detected is Ok);
        assert(detected->Ok_0 == spec_detect(token@));
    }
    match detected {
        Ok(Some(c)) => {
            let mut k: usize = 0;
            proof {
                assert(rules@.skip(0) =~= rules@);
            }
            while k < rules.len()
                invariant
                    k <= rules.len(),
                    spec_detect(token@) == Some(c),
                    apply_rules(token@, c, rules@) == apply_rules(
                        token@,
                        c,
                        rules@.skip(k as int),
                    ),
                decreases rules.len() - k,
            {
                proof {
                    assert(rules@.skip(k as int)[0] == rules@[k as int]);
                    assert(rules@.skip(k as int).drop_first() =~= rules@.skip(k as int + 1));
                }
                let (source, target) = rules[k];
                if source == c {
                    proof {
                        assert(rules@.skip(k as int).len() > 0);
                        assert(rules@.skip(k as int)[0] == (source, target));
                        assert(apply_rules(token@, c, rules@.skip(k as int)) == spec_convert(
                            token@,
                            target,
                        ));
                        assert(spec_detect(token@) == Some(c));
                        assert(transform_token(token@, rules@) == apply_rules(
                            token@,
                            c,
                            rules@,
                        ));
                    }
                    return convert_case_to(token, target);
                }
                k += 1;
            }
            token.to_owned()
        },
        Ok(None) => token.to_owned(),
        Err(_) => {
            proof {
                assert(false);
            }
            token.to_owned()
        },
    }
}

/// Rewrites every line of a buffered input under the rule list.  Exactly
/// one output line is produced for each input line, with no state shared
/// across lines; blank lines come through verbatim.
pub fn convert_lines(lines: &Vec<String>, rules: &Vec<(Case, Case)>) -> (r: Vec<String>)
    ensures
        r@.len() == lines@.len(),
        forall|i: int| 0 <= i < lines@.len() ==> (#[trigger] r@[i])@ == convert_line_spec(
            lines@[i]@,
            rules@,
        ),
{
    let mut out: Vec<String> = Vec::new();
    let mut i: usize = 0;
    while i < lines.len()
        invariant
            i <= lines.len(),
            out@.len() == i,
            forall|m: int| 0 <= m < i ==> (#[trigger] out@[m])@ == convert_line_spec(
                lines@[m]@,
                rules@,
            ),
        decreases lines.len() - i,
    {
        let converted = convert_line(lines[i].as_str(), rules);
        out.push(converted);
        i += 1;
    }
    out
}

/// A line consisting of whitespace alone (a blank line in particular) is
/// preserved verbatim by conversion.
pub proof fn lemma_blank_line_preserved(s: Seq<char>, rules: Seq<(Case, Case)>)
    requires
        forall|i: int| 0 <= i < s.len() ==> is_space(#[trigger] s[i]),
    ensures
        convert_line_spec(s, rules) == s,
    decreases s.len(),
{
    if s.len() > 0 {
        lemma_run_len_props(s);
        let k = run_len_pos(s);
        assert forall|i: int| 0 <= i < s.skip(k).len() implies is_space(
            #[trigger] s.skip(k)[i],
        ) by {
            assert(s.skip(k)[i] == s[k + i]);
        }
        lemma_blank_line_preserved(s.skip(k), rules);
        assert(s.take(k) + s.skip(k) =~= s);
    }
}

/// A token that detects as no single style, or whose detected style no
/// rule converts from, passes through conversion unchanged.
pub proof fn lemma_unmatched_token_unchanged(t: Seq<char>, rules: Seq<(Case, Case)>)
    requires
        (match spec_detect(t) {
            Some(c) => forall|k: int| 0 <= k < rules.len() ==> (#[trigger] rules[k]).0 != c,
            None => true,
        }),
    ensures
        transform_token(t, rules) == t,
{
    if let Some(c) = spec_detect(t) {
        lemma_apply_rules_no_match(t, c, rules);
    }
}

/// A token with a detected style is rewritten under the first rule
/// whose source style is that style.
pub proof fn lemma_matched_token_converted(
    t: Seq<char>,
    c: Case,
    rules: Seq<(Case, Case)>,
    k: int,
)
    requires
        spec_detect(t) == Some(c),
        0 <= k < rules.len(),
        rules[k].0 == c,
        forall|j: int| 0 <= j < k ==> (#[trigger] rules[j]).0 != c,
    ensures
        transform_token(t, rules) == spec_convert(t, rules[k].1),
{
    lemma_apply_rules_first_match(t, c, rules, k);
}

proof fn lemma_apply_rules_first_match(t: Seq<char>, c: Case, rules: Seq<(Case, Case)>, k: int)
    requires
        0 <= k < rules.len(),
        rules[k].0 == c,
        forall|j: int| 0 <= j < k ==> (#[trigger] rules[j]).0 != c,
    ensures
        apply_rules(t, c, rules) == spec_convert(t, rules[k].1),
    decreases k,
{
    if k == 0 {
    } else {
        assert(rules[0].0 != c);
        assert(rules.drop_first()[k - 1] == rules[k]);
        assert forall|j: int| 0 <= j < k - 1 implies (#[trigger] rules.drop_first()[j]).0
            != c by {
            assert(rules.drop_first()[j] == rules[j + 1]);
        }
        lemma_apply_rules_first_match(t, c, rules.drop_first(), k - 1);
    }
}

proof fn lemma_apply_rules_no_match(t: Seq<char>, c: Case, rules: Seq<(Case, Case)>)
    requires
        forall|k: int| 0 <= k < rules.len() ==> (#[trigger] rules[k]).0 != c,
    ensures
        apply_rules(t, c, rules) == t,
    decreases rules.len(),
{
    if rules.len() > 0 {
        assert(rules[0].0 != c);
        lemma_apply_rules_no_match(t, c, rules.drop_first());
    }
}

} // verus!
