//! Word segmentation of a token and its re-rendering in a target style.

use vstd::prelude::*;

use crate::case::Case;
use crate::chars::{
    is_lower, is_separator, is_upper, lower_char, push_char, to_lower, to_upper, upper_char,
};

verus! {

/// The word with every letter mapped to lowercase.
pub open spec fn lower_word(w: Seq<char>) -> Seq<char> {
    w.map_values(|c: char| to_lower(c))
}

/// The word with every letter mapped to uppercase.
pub open spec fn upper_word(w: Seq<char>) -> Seq<char> {
    w.map_values(|c: char| to_upper(c))
}

/// The word with its first character uppercased and the rest lowercased.
pub open spec fn capitalized(w: Seq<char>) -> Seq<char> {
    if w.len() == 0 {
        w
    } else {
        seq![to_upper(w[0])] + lower_word(w.drop_first())
    }
}

/// Word decomposition, carried out left to right with `cur` the word
/// being accumulated: a separator (`_` or `-`) ends the current word and
/// is dropped, a lowercase-to-uppercase transition ends the current word
/// and starts the next one, and every other character extends the current
/// word.  Empty words are never produced.
pub open spec fn split_words_rec(s: Seq<char>, cur: Seq<char>) -> Seq<Seq<char>>
    decreases s.len(),
{
    if s.len() == 0 {
        if cur.len() == 0 {
            Seq::empty()
        } else {
            seq![cur]
        }
    } else {
        let c = s[0];
        if is_separator(c) {
            if cur.len() == 0 {
                split_words_rec(s.drop_first(), Seq::empty())
            } else {
                seq![cur] + split_words_rec(s.drop_first(), Seq::empty())
            }
        } else if cur.len() > 0 && is_lower(cur.last()) && is_upper(c) {
            seq![cur] + split_words_rec(s.drop_first(), seq![c])
        } else {
            split_words_rec(s.drop_first(), cur.push(c))
        }
    }
}

/// The words a token decomposes into.  The decomposition is generic: it
/// does not depend on which style the token was detected as.
pub open spec fn spec_words(s: Seq<char>) -> Seq<Seq<char>> {
    split_words_rec(s, Seq::empty())
}

/// The words rendered in PascalCase: each word capitalized, concatenated.
pub open spec fn render_capitalized(ws: Seq<Seq<char>>) -> Seq<char>
    decreases ws.len(),
{
    if ws.len() == 0 {
        Seq::empty()
    } else {
        capitalized(ws[0]) + render_capitalized(ws.drop_first())
    }
}

/// The words lowercased and joined by the separator.
pub open spec fn render_joined_lower(ws: Seq<Seq<char>>, sep: char) -> Seq<char>
    decreases ws.len(),
{
    if ws.len() == 0 {
        Seq::empty()
    } else if ws.len() == 1 {
        lower_word(ws[0])
    } else {
        lower_word(ws[0]) + seq![sep] + render_joined_lower(ws.drop_first(), sep)
    }
}

/// The words uppercased and joined by the separator.
pub open spec fn render_joined_upper(ws: Seq<Seq<char>>, sep: char) -> Seq<char>
    decreases ws.len(),
{
    if ws.len() == 0 {
        Seq::empty()
    } else if ws.len() == 1 {
        upper_word(ws[0])
    } else {
        upper_word(ws[0]) + seq![sep] + render_joined_upper(ws.drop_first(), sep)
    }
}

/// The words rendered in the target style.
pub open spec fn spec_render(ws: Seq<Seq<char>>, target: Case) -> Seq<char> {
    match target {
        Case::PascalCase => render_capitalized(ws),
        Case::ShoutingSnakeCase => render_joined_upper(ws, '_'),
        Case::CamelCase => if ws.len() == 0 {
            Seq::empty()
        } else {
            lower_word(ws[0]) + render_capitalized(ws.drop_first())
        },
        Case::SnakeCase => render_joined_lower(ws, '_'),
        Case::KebabCase => render_joined_lower(ws, '-'),
    }
}

/// The token re-rendered in the target style: its word decomposition,
/// rendered.
pub open spec fn spec_convert(s: Seq<char>, target: Case) -> Seq<char> {
    spec_render(spec_words(s), target)
}

/// Re-renders a token in the target style.
pub fn convert_case_to(token: &str, target_case: Case) -> (r: String)
    ensures
        r@ == spec_convert(token@, target_case),
{
    let words = split_words(token);
    render_words(&words, target_case)
}

/// Decomposes a token into its words.
fn split_words(token: &str) -> (ws: Vec<Vec<char>>)
    ensures
        ws.deep_view() == spec_words(token@),
{
    let len = token.unicode_len();
    let mut done: Vec<Vec<char>> = Vec::new();
    let mut cur: Vec<char> = Vec::new();
    let mut i: usize = 0;
    proof {
        assert(token@.skip(0) =~= token@);
        assert(done.deep_view() + split_words_rec(token@, cur@) =~~= spec_words(token@));
    }
    while i < len
        invariant
            i <= len,
            len == token@.len(),
            done.deep_view() + split_words_rec(token@.skip(i as int), cur@) =~~= spec_words(
                token@,
            ),
        decreases len - i,
    {
        let ghost prev_done = done.deep_view();
        let ghost prev_cur = cur@;
        proof {
            assert(token@.skip(i as int).drop_first() =~= token@.skip(i as int + 1));
            assert(token@.skip(i as int)[0] == token@[i as int]);
        }
        let c = token.get_char(i);
        if c == '_' || c == '-' {
            if cur.len() > 0 {
                done.push(cur);
                cur = Vec::new();
                proof {
                    assert(done.deep_view() =~~= prev_done.push(prev_cur));
                    assert(split_words_rec(token@.skip(i as int), prev_cur)
                        == seq![prev_cur] + split_words_rec(
                        token@.skip(i as int + 1),
                        Seq::empty(),
                    ));
                }
            } else {
                proof {
                    assert(split_words_rec(token@.skip(i as int), prev_cur)
                        == split_words_rec(token@.skip(i as int + 1), Seq::empty()));
                    assert(prev_cur =~= Seq::<char>::empty());
                }
            }
        } else {
            let push_current = cur.len() > 0 && {
                let last = cur[cur.len() - 1];
                ('a' <= last && last <= 'z') && ('A' <= c && c <= 'Z')
            };
            if push_current {
                done.push(cur);
                cur = Vec::new();
                cur.push(c);
                proof {
                    assert(done.deep_view() =~~= prev_done.push(prev_cur));
                    assert(cur@ =~= seq![c]);
                }
            } else {
                cur.push(c);
            }
        }
        proof {
            assert(done.deep_view() + split_words_rec(token@.skip(i as int + 1), cur@)
                =~~= spec_words(token@));
        }
        i += 1;
    }
    proof {
        assert(token@.skip(len as int) =~= Seq::<char>::empty());
    }
    if cur.len() > 0 {
        let ghost prev_done = done.deep_view();
        done.push(cur);
        proof {
            assert(done.deep_view() =~~= prev_done.push(cur@));
        }
    }
    proof {
        assert(done.deep_view() =~~= spec_words(token@));
    }
    done
}

/// Renders a word list in the target style.
fn render_words(ws: &Vec<Vec<char>>, target: Case) -> (r: String)
    ensures
        r@ == spec_render(ws.deep_view(), target),
{
    let ghost dv = ws.deep_view();
    let mut out = String::new();
    match target {
        Case::PascalCase => {
            let mut i: usize = 0;
            while i < ws.len()
                invariant
                    i <= ws.len(),
                    dv == ws.deep_view(),
                    dv.len() == ws.len(),
                    out@ == render_capitalized(dv.take(i as int)),
                decreases ws.len() - i,
            {
                push_capitalized(&mut out, &ws[i]);
                proof {
                    lemma_render_capitalized_push(dv.take(i as int), dv[i as int]);
                    assert(dv.take(i as int).push(dv[i as int]) =~= dv.take(i as int + 1));
                }
                i += 1;
            }
            proof {
                assert(dv.take(dv.len() as int) =~= dv);
            }
        },
        Case::CamelCase => {
            let mut i: usize = 0;
            while i < ws.len()
                invariant
                    i <= ws.len(),
                    dv == ws.deep_view(),
                    dv.len() == ws.len(),
                    out@ == spec_render(dv.take(i as int), Case::CamelCase),
                decreases ws.len() - i,
            {
                if i == 0 {
                    push_lower(&mut out, &ws[0]);
                    proof {
                        assert(dv.take(1).drop_first() =~= Seq::<Seq<char>>::empty());
                        assert(dv.take(1)[0] == dv[0]);
                    }
                } else {
                    push_capitalized(&mut out, &ws[i]);
                    proof {
                        lemma_render_capitalized_push(
                            dv.take(i as int).drop_first(),
                            dv[i as int],
                        );
                        assert(dv.take(i as int).drop_first().push(dv[i as int]) =~= dv.take(
                            i as int + 1,
                        ).drop_first());
                        assert(dv.take(i as int + 1)[0] == dv[0]);
                    }
                }
                i += 1;
            }
            proof {
                assert(dv.take(dv.len() as int) =~= dv);
            }
        },
        Case::ShoutingSnakeCase => {
            render_joined(ws, '_', true, &mut out);
        },
        Case::SnakeCase => {
            render_joined(ws, '_', false, &mut out);
        },
        Case::KebabCase => {
            render_joined(ws, '-', false, &mut out);
        },
    }
    out
}

/// Appends the words joined by `sep`, uppercased when `upper` is set and
/// lowercased otherwise, to `out` (which starts empty).
fn render_joined(ws: &Vec<Vec<char>>, sep: char, upper: bool, out: &mut String)
    requires
        old(out)@.len() == 0,
    ensures
        upper ==> final(out)@ == render_joined_upper(ws.deep_view(), sep),
        !upper ==> final(out)@ == render_joined_lower(ws.deep_view(), sep),
{
    let ghost dv = ws.deep_view();
    let mut i: usize = 0;
    while i < ws.len()
        invariant
            i <= ws.len(),
            dv == ws.deep_view(),
            dv.len() == ws.len(),
            i == 0 ==> out@.len() == 0,
            i > 0 && upper ==> out@ == render_joined_upper(dv.take(i as int), sep),
            i > 0 && !upper ==> out@ == render_joined_lower(dv.take(i as int), sep),
        decreases ws.len() - i,
    {
        if i > 0 {
            push_char(out, sep);
        }
        if upper {
            push_upper(out, &ws[i]);
        } else {
            push_lower(out, &ws[i]);
        }
        proof {
            if upper {
                lemma_render_joined_upper_push(dv.take(i as int), dv[i as int], sep);
            } else {
                lemma_render_joined_lower_push(dv.take(i as int), dv[i as int], sep);
            }
            assert(dv.take(i as int).push(dv[i as int]) =~= dv.take(i as int + 1));
        }
        i += 1;
    }
    proof {
        assert(dv.take(dv.len() as int) =~= dv);
        if dv.len() == 0 {
            assert(out@ =~= Seq::<char>::empty());
        }
    }
}

/// Appends the lowercased word to `out`.
fn push_lower(out: &mut String, w: &Vec<char>)
    ensures
        final(out)@ == old(out)@ + lower_word(w@),
{
    let mut j: usize = 0;
    while j < w.len()
        invariant
            j <= w.len(),
            out@ == old(out)@ + lower_word(w@).take(j as int),
        decreases w.len() - j,
    {
        push_char(out, lower_char(w[j]));
        proof {
            assert(lower_word(w@).take(j as int).push(to_lower(w@[j as int])) =~= lower_word(
                w@,
            ).take(j as int + 1));
        }
        j += 1;
    }
    proof {
        assert(lower_word(w@).take(w@.len() as int) =~= lower_word(w@));
    }
}

/// Appends the uppercased word to `out`.
fn push_upper(out: &mut String, w: &Vec<char>)
    ensures
        final(out)@ == old(out)@ + upper_word(w@),
{
    let mut j: usize = 0;
    while j < w.len()
        invariant
            j <= w.len(),
            out@ == old(out)@ + upper_word(w@).take(j as int),
        decreases w.len() - j,
    {
        push_char(out, upper_char(w[j]));
        proof {
            assert(upper_word(w@).take(j as int).push(to_upper(w@[j as int])) =~= upper_word(
                w@,
            ).take(j as int + 1));
        }
        j += 1;
    }
    proof {
        assert(upper_word(w@).take(w@.len() as int) =~= upper_word(w@));
    }
}

/// Appends the capitalized word to `out`.
fn push_capitalized(out: &mut String, w: &Vec<char>)
    ensures
        final(out)@ == old(out)@ + capitalized(w@),
{
    if w.len() == 0 {
        proof {
            assert(old(out)@ + capitalized(w@) =~= old(out)@);
        }
        return ;
    }
    push_char(out, upper_char(w[0]));
    let ghost after_first = out@;
    let mut j: usize = 1;
    while j < w.len()
        invariant
            1 <= j <= w.len(),
            after_first == old(out)@.push(to_upper(w@[0])),
            out@ == after_first + lower_word(w@.drop_first()).take(j as int - 1),
        decreases w.len() - j,
    {
        push_char(out, lower_char(w[j]));
        proof {
            assert(lower_word(w@.drop_first())[j as int - 1] == to_lower(w@[j as int]));
            assert(lower_word(w@.drop_first()).take(j as int - 1).push(
                to_lower(w@[j as int]),
            ) =~= lower_word(w@.drop_first()).take(j as int));
        }
        j += 1;
    }
    proof {
        assert(lower_word(w@.drop_first()).take(w@.len() - 1) =~= lower_word(w@.drop_first()));
        assert(after_first + lower_word(w@.drop_first()) =~= old(out)@ + capitalized(w@));
    }
}

proof fn lemma_render_capitalized_push(ws: Seq<Seq<char>>, w: Seq<char>)
    ensures
        render_capitalized(ws.push(w)) == render_capitalized(ws) + capitalized(w),
    decreases ws.len(),
{
    if ws.len() == 0 {
        assert(ws.push(w).drop_first() =~= Seq::<Seq<char>>::empty());
        assert(ws.push(w)[0] == w);
        assert(render_capitalized(Seq::<Seq<char>>::empty()) == Seq::<char>::empty());
        assert(render_capitalized(ws.push(w)) =~= capitalized(w));
        assert(render_capitalized(ws) + capitalized(w) =~= capitalized(w));
    } else {
        lemma_render_capitalized_push(ws.drop_first(), w);
        assert(ws.push(w).drop_first() =~= ws.drop_first().push(w));
        assert(ws.push(w)[0] == ws[0]);
        assert(capitalized(ws[0]) + (render_capitalized(ws.drop_first()) + capitalized(w))
            =~= (capitalized(ws[0]) + render_capitalized(ws.drop_first())) + capitalized(w));
    }
}

proof fn lemma_render_joined_lower_push(ws: Seq<Seq<char>>, w: Seq<char>, sep: char)
    ensures
        ws.len() == 0 ==> render_joined_lower(ws.push(w), sep) == lower_word(w),
        ws.len() > 0 ==> render_joined_lower(ws.push(w), sep) == render_joined_lower(ws, sep)
            + seq![sep] + lower_word(w),
    decreases ws.len(),
{
    if ws.len() == 0 {
        assert(ws.push(w)[0] == w);
    } else if ws.len() == 1 {
        assert(ws.push(w).drop_first() =~= seq![w]);
        assert(ws.push(w)[0] == ws[0]);
        assert(render_joined_lower(seq![w], sep) == lower_word(w));
    } else {
        lemma_render_joined_lower_push(ws.drop_first(), w, sep);
        assert(ws.push(w).drop_first() =~= ws.drop_first().push(w));
        assert(ws.push(w)[0] == ws[0]);
        assert(lower_word(ws[0]) + seq![sep] + (render_joined_lower(ws.drop_first(), sep)
            + seq![sep] + lower_word(w)) =~= (lower_word(ws[0]) + seq![sep]
            + render_joined_lower(ws.drop_first(), sep)) + seq![sep] + lower_word(w));
    }
}

proof fn lemma_render_joined_upper_push(ws: Seq<Seq<char>>, w: Seq<char>, sep: char)
    ensures
        ws.len() == 0 ==> render_joined_upper(ws.push(w), sep) == upper_word(w),
        ws.len() > 0 ==> render_joined_upper(ws.push(w), sep) == render_joined_upper(ws, sep)
            + seq![sep] + upper_word(w),
    decreases ws.len(),
{
    if ws.len() == 0 {
        assert(ws.push(w)[0] == w);
    } else if ws.len() == 1 {
        assert(ws.push(w).drop_first() =~= seq![w]);
        assert(ws.push(w)[0] == ws[0]);
        assert(render_joined_upper(seq![w], sep) == upper_word(w));
    } else {
        lemma_render_joined_upper_push(ws.drop_first(), w, sep);
        assert(ws.push(w).drop_first() =~= ws.drop_first().push(w));
        assert(ws.push(w)[0] == ws[0]);
        assert(upper_word(ws[0]) + seq![sep] + (render_joined_upper(ws.drop_first(), sep)
            + seq![sep] + upper_word(w)) =~= (upper_word(ws[0]) + seq![sep]
            + render_joined_upper(ws.drop_first(), sep)) + seq![sep] + upper_word(w));
    }
}

} // verus!
