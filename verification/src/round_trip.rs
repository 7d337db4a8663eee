//! The conversion round trip: a token in a definite style, converted to
//! any style and back, is restored.

use vstd::prelude::*;

use crate::case::Case;
use crate::chars::{is_letter, is_lower, is_separator, is_upper, to_lower, to_upper};
use crate::convert::{
    capitalized, lower_word, render_capitalized, render_joined_lower, render_joined_upper,
    spec_convert, spec_render, spec_words, split_words_rec, upper_word,
};
use crate::detect::spec_detect;
use crate::matchers::spec_matches;

verus! {

/// A nonempty word of ASCII letters.
pub open spec fn letters_word(w: Seq<char>) -> bool {
    w.len() > 0 && (forall|i: int| 0 <= i < w.len() ==> is_letter(#[trigger] w[i]))
}

/// Every word of the list is a nonempty word of letters.
pub open spec fn wf_words(ws: Seq<Seq<char>>) -> bool {
    forall|i: int| 0 <= i < ws.len() ==> letters_word(#[trigger] ws[i])
}

/// The rendering in the target style keeps every word boundary
/// recoverable.  Only camelCase and PascalCase can lose a boundary: a
/// single-letter word that is not the last leaves no lowercase character
/// for the following word's capital to contrast with.
pub open spec fn round_trip_safe(ws: Seq<Seq<char>>, target: Case) -> bool {
    match target {
        Case::PascalCase => forall|i: int| 0 <= i < ws.len() - 1 ==> (#[trigger] ws[i]).len() >= 2,
        Case::CamelCase => forall|i: int| 1 <= i < ws.len() - 1 ==> (#[trigger] ws[i]).len() >= 2,
        _ => true,
    }
}

/// A token in a definite style, re-rendered in any boundary-safe target
/// style and then re-rendered in its original style, is restored
/// exactly.
///
/// The token must be in canonical form for its own style (its own
/// re-rendering), which every output of the converter is; a token such
/// as one with doubled separators is not, and is not restored.
pub proof fn lemma_convert_round_trip(t: Seq<char>, original: Case, target: Case)
    requires
        spec_detect(t) == Some(original),
        t == spec_render(spec_words(t), original),
        round_trip_safe(spec_words(t), target),
    ensures
        spec_convert(spec_convert(t, target), original) == t,
{
    let ws = spec_words(t);
    lemma_detect_matches(t, original);
    lemma_matched_chars(t, original);
    lemma_swr_wf(t, Seq::empty());
    assert(wf_words(ws));
    if ws.len() == 0 {
        lemma_render_empty(original);
        assert(t.len() == 0);
        assert(!spec_matches(original, t));
        assert(false);
    }
    let rendered = spec_render(ws, target);
    let ws2 = spec_words(rendered);
    match target {
        Case::PascalCase => {
            lemma_words_of_render_pascal(ws);
            assert(ws2 == ws.map_values(|w: Seq<char>| capitalized(w)));
        },
        Case::CamelCase => {
            lemma_words_of_render_camel(ws);
        },
        Case::ShoutingSnakeCase => {
            lemma_words_of_render_upper(ws, '_');
        },
        Case::SnakeCase => {
            lemma_words_of_render_lower(ws, '_');
        },
        Case::KebabCase => {
            lemma_words_of_render_lower(ws, '-');
        },
    }
    assert(ws2.len() == ws.len());
    assert forall|i: int| 0 <= i < ws.len() implies lower_word(#[trigger] ws2[i]) == lower_word(
        ws[i],
    ) && upper_word(ws2[i]) == upper_word(ws[i]) && capitalized(ws2[i]) == capitalized(
        ws[i],
    ) by {
        lemma_word_maps(ws[i]);
        match target {
            Case::PascalCase => {},
            Case::CamelCase => {
                if i == 0 {
                } else {
                    assert(ws2[i] == ws.drop_first().map_values(|w: Seq<char>| capitalized(w))[i
                        - 1]);
                    assert(ws.drop_first()[i - 1] == ws[i]);
                }
            },
            _ => {},
        }
    }
    lemma_render_same(ws, ws2, original);
    assert(spec_convert(spec_convert(t, target), original) == spec_render(ws2, original));
}

/// Conversion is idempotent: what the converter renders in a
/// boundary-safe style is already in that style's canonical form, so
/// converting it to the same style again changes nothing.
pub proof fn lemma_convert_stable(t: Seq<char>, original: Case, target: Case)
    requires
        spec_detect(t) == Some(original),
        round_trip_safe(spec_words(t), target),
    ensures
        spec_convert(spec_convert(t, target), target) == spec_convert(t, target),
{
    let ws = spec_words(t);
    lemma_detect_matches(t, original);
    lemma_matched_chars(t, original);
    lemma_swr_wf(t, Seq::empty());
    assert(wf_words(ws));
    if ws.len() == 0 {
        lemma_render_empty(target);
        assert(spec_render(ws, target) =~= Seq::<char>::empty());
        assert(split_words_rec(Seq::<char>::empty(), Seq::empty())
            =~= Seq::<Seq<char>>::empty());
        assert(spec_words(spec_convert(t, target)) =~= Seq::<Seq<char>>::empty());
        assert(spec_render(spec_words(spec_convert(t, target)), target) =~= Seq::<
            char,
        >::empty());
    } else {
        let ws2 = spec_words(spec_render(ws, target));
        match target {
            Case::PascalCase => {
                lemma_words_of_render_pascal(ws);
            },
            Case::CamelCase => {
                lemma_words_of_render_camel(ws);
            },
            Case::ShoutingSnakeCase => {
                lemma_words_of_render_upper(ws, '_');
            },
            Case::SnakeCase => {
                lemma_words_of_render_lower(ws, '_');
            },
            Case::KebabCase => {
                lemma_words_of_render_lower(ws, '-');
            },
        }
        assert(ws2.len() == ws.len());
        assert forall|i: int| 0 <= i < ws.len() implies lower_word(#[trigger] ws2[i])
            == lower_word(ws[i]) && upper_word(ws2[i]) == upper_word(ws[i]) && capitalized(
            ws2[i],
        ) == capitalized(ws[i]) by {
            lemma_word_maps(ws[i]);
            match target {
                Case::CamelCase => {
                    if i > 0 {
                        assert(ws2[i] == ws.drop_first().map_values(
                            |w: Seq<char>| capitalized(w),
                        )[i - 1]);
                        assert(ws.drop_first()[i - 1] == ws[i]);
                    }
                },
                _ => {},
            }
        }
        lemma_render_same(ws, ws2, target);
    }
}

/// A detected style is a matching style.
proof fn lemma_detect_matches(s: Seq<char>, style: Case)
    requires
        spec_detect(s) == Some(style),
    ensures
        spec_matches(style, s),
{
}

/// A token matching a style consists of letters and separators alone.
proof fn lemma_matched_chars(t: Seq<char>, style: Case)
    requires
        spec_matches(style, t),
    ensures
        forall|i: int| 0 <= i < t.len() ==> is_letter(#[trigger] t[i]) || is_separator(t[i]),
{
}

/// The rendering of an empty word list is empty, in every style.
proof fn lemma_render_empty(style: Case)
    ensures
        spec_render(Seq::empty(), style).len() == 0,
{
}

/// Decomposition only produces nonempty words of letters, when the
/// input holds letters and separators alone.
proof fn lemma_swr_wf(s: Seq<char>, cur: Seq<char>)
    requires
        forall|i: int| 0 <= i < s.len() ==> is_letter(#[trigger] s[i]) || is_separator(s[i]),
        forall|i: int| 0 <= i < cur.len() ==> is_letter(#[trigger] cur[i]),
    ensures
        wf_words(split_words_rec(s, cur)),
    decreases s.len(),
{
    let r = split_words_rec(s, cur);
    if s.len() == 0 {
        if cur.len() > 0 {
            assert forall|i: int| 0 <= i < r.len() implies letters_word(#[trigger] r[i]) by {
                assert(r[i] == cur);
            }
        }
    } else {
        let c = s[0];
        assert(s.drop_first().len() == s.len() - 1);
        assert forall|i: int| 0 <= i < s.drop_first().len() implies is_letter(
            #[trigger] s.drop_first()[i],
        ) || is_separator(s.drop_first()[i]) by {
            assert(s.drop_first()[i] == s[i + 1]);
        }
        if is_separator(c) {
            lemma_swr_wf(s.drop_first(), Seq::empty());
            if cur.len() == 0 {
            } else {
                let rest = split_words_rec(s.drop_first(), Seq::empty());
                assert forall|i: int| 0 <= i < r.len() implies letters_word(
                    #[trigger] r[i],
                ) by {
                    if i == 0 {
                        assert(r[i] == cur);
                    } else {
                        assert(r[i] == rest[i - 1]);
                    }
                }
            }
        } else if cur.len() > 0 && is_lower(cur.last()) && is_upper(c) {
            lemma_swr_wf(s.drop_first(), seq![c]);
            let rest = split_words_rec(s.drop_first(), seq![c]);
            assert forall|i: int| 0 <= i < r.len() implies letters_word(#[trigger] r[i]) by {
                if i == 0 {
                    assert(r[i] == cur);
                } else {
                    assert(r[i] == rest[i - 1]);
                }
            }
        } else {
            assert(is_letter(c));
            assert forall|i: int| 0 <= i < cur.push(c).len() implies is_letter(
                #[trigger] cur.push(c)[i],
            ) by {
                if i < cur.len() {
                    assert(cur.push(c)[i] == cur[i]);
                }
            }
            lemma_swr_wf(s.drop_first(), cur.push(c));
        }
    }
}

/// Characters that form no separator and open no word boundary are
/// absorbed into the current word one by one.
proof fn lemma_swr_inert(w: Seq<char>, rest: Seq<char>, cur: Seq<char>)
    requires
        forall|i: int| 0 <= i < w.len() ==> !is_separator(#[trigger] w[i]),
        forall|i: int| 1 <= i < w.len() ==> !(is_lower(w[i - 1]) && is_upper(#[trigger] w[i])),
        w.len() > 0 ==> !(cur.len() > 0 && is_lower(cur.last()) && is_upper(w[0])),
    ensures
        split_words_rec(w + rest, cur) == split_words_rec(rest, cur + w),
    decreases w.len(),
{
    if w.len() == 0 {
        assert(w + rest =~= rest);
        assert(cur + w =~= cur);
    } else {
        let c = w[0];
        assert((w + rest)[0] == c);
        assert((w + rest).drop_first() =~= w.drop_first() + rest);
        assert forall|i: int| 1 <= i < w.drop_first().len() implies !(is_lower(
            w.drop_first()[i - 1],
        ) && is_upper(#[trigger] w.drop_first()[i])) by {
            assert(w.drop_first()[i] == w[i + 1]);
            assert(w.drop_first()[i - 1] == w[i]);
        }
        if w.drop_first().len() > 0 {
            assert(cur.push(c).last() == c);
            assert(w.drop_first()[0] == w[1]);
            assert(!(is_lower(w[0]) && is_upper(w[1])));
        }
        lemma_swr_inert(w.drop_first(), rest, cur.push(c));
        assert(cur.push(c) + w.drop_first() =~= cur + w);
    }
}

/// Capitalized blocks after a word ending in a lowercase letter each
/// open a fresh word.
proof fn lemma_swr_cap_blocks(ws: Seq<Seq<char>>, cw: Seq<char>)
    requires
        wf_words(ws),
        forall|i: int| 0 <= i < ws.len() - 1 ==> (#[trigger] ws[i]).len() >= 2,
        cw.len() > 0,
        ws.len() > 0 ==> is_lower(cw.last()),
    ensures
        split_words_rec(render_capitalized(ws), cw) == seq![cw] + ws.map_values(
            |w: Seq<char>| capitalized(w),
        ),
    decreases ws.len(),
{
    if ws.len() == 0 {
        assert(render_capitalized(ws) == Seq::<char>::empty());
        assert(split_words_rec(Seq::empty(), cw) =~= seq![cw]);
        assert(seq![cw] + ws.map_values(|w: Seq<char>| capitalized(w)) =~= seq![cw]);
    } else {
        let w0 = ws[0];
        let rest = ws.drop_first();
        assert(letters_word(w0));
        let c0 = to_upper(w0[0]);
        assert(is_upper(c0)) by {
            lemma_char_maps(w0[0]);
        }
        let body = render_capitalized(ws);
        assert(body == capitalized(w0) + render_capitalized(rest));
        assert(capitalized(w0) == seq![c0] + lower_word(w0.drop_first()));
        assert(body[0] == c0) by {
            assert((seq![c0] + lower_word(w0.drop_first()) + render_capitalized(rest))[0]
                == c0);
            assert(body =~= seq![c0] + lower_word(w0.drop_first()) + render_capitalized(rest));
        }
        assert(!is_separator(c0)) by {
            lemma_char_maps(w0[0]);
        }
        // the first character of the block splits off the current word
        assert(split_words_rec(body, cw) == seq![cw] + split_words_rec(
            body.drop_first(),
            seq![c0],
        ));
        assert(body.drop_first() =~= lower_word(w0.drop_first()) + render_capitalized(rest));
        assert forall|i: int| 0 <= i < w0.drop_first().len() implies is_letter(
            #[trigger] w0.drop_first()[i],
        ) by {
            assert(w0.drop_first()[i] == w0[i + 1]);
        }
        lemma_lower_word_inert(w0.drop_first());
        lemma_swr_inert(lower_word(w0.drop_first()), render_capitalized(rest), seq![c0]);
        assert(seq![c0] + lower_word(w0.drop_first()) =~= capitalized(w0));
        if rest.len() == 0 {
            assert(render_capitalized(rest) == Seq::<char>::empty());
            assert(split_words_rec(Seq::empty(), capitalized(w0)) =~= seq![capitalized(w0)]);
            assert(seq![cw] + ws.map_values(|w: Seq<char>| capitalized(w)) =~= seq![
                cw,
                capitalized(w0),
            ]);
        } else {
            assert(w0.len() >= 2);
            assert(capitalized(w0).len() >= 2);
            assert(capitalized(w0).last() == to_lower(w0.last())) by {
                assert(lower_word(w0.drop_first()).len() == w0.len() - 1);
                assert(capitalized(w0).last() == lower_word(w0.drop_first()).last());
                assert(lower_word(w0.drop_first())[w0.len() - 2] == to_lower(
                    w0.drop_first()[w0.len() - 2],
                ));
                assert(w0.drop_first()[w0.len() - 2] == w0[w0.len() - 1]);
            }
            assert(is_lower(capitalized(w0).last())) by {
                lemma_char_maps(w0.last());
            }
            assert(wf_words(rest)) by {
                assert forall|i: int| 0 <= i < rest.len() implies letters_word(
                    #[trigger] rest[i],
                ) by {
                    assert(rest[i] == ws[i + 1]);
                }
            }
            assert forall|i: int| 0 <= i < rest.len() - 1 implies (#[trigger] rest[i]).len()
                >= 2 by {
                assert(rest[i] == ws[i + 1]);
            }
            lemma_swr_cap_blocks(rest, capitalized(w0));
            assert(seq![cw] + (seq![capitalized(w0)] + rest.map_values(
                |w: Seq<char>| capitalized(w),
            )) =~= seq![cw] + ws.map_values(|w: Seq<char>| capitalized(w)));
        }
    }
}

/// A lowercased word of letters neither separates nor opens a boundary.
proof fn lemma_lower_word_inert(w: Seq<char>)
    requires
        forall|i: int| 0 <= i < w.len() ==> is_letter(#[trigger] w[i]),
    ensures
        forall|i: int| 0 <= i < lower_word(w).len() ==> !is_separator(
            #[trigger] lower_word(w)[i],
        ) && !is_upper(lower_word(w)[i]),
{
    assert forall|i: int| 0 <= i < lower_word(w).len() implies !is_separator(
        #[trigger] lower_word(w)[i],
    ) && !is_upper(lower_word(w)[i]) by {
        assert(lower_word(w)[i] == to_lower(w[i]));
        lemma_char_maps(w[i]);
    }
}

/// An uppercased word of letters neither separates nor opens a boundary.
proof fn lemma_upper_word_inert(w: Seq<char>)
    requires
        letters_word(w),
    ensures
        forall|i: int| 0 <= i < upper_word(w).len() ==> is_upper(#[trigger] upper_word(w)[i]),
        forall|i: int| 0 <= i < upper_word(w).len() ==> !is_separator(
            #[trigger] upper_word(w)[i],
        ) && !is_lower(upper_word(w)[i]),
{
    assert forall|i: int| 0 <= i < upper_word(w).len() implies is_upper(
        #[trigger] upper_word(w)[i],
    ) && !is_separator(upper_word(w)[i]) && !is_lower(upper_word(w)[i]) by {
        assert(upper_word(w)[i] == to_upper(w[i]));
        lemma_char_maps(w[i]);
    }
}

/// Decomposing a PascalCase rendering recovers the capitalized words.
proof fn lemma_words_of_render_pascal(ws: Seq<Seq<char>>)
    requires
        wf_words(ws),
        ws.len() > 0,
        forall|i: int| 0 <= i < ws.len() - 1 ==> (#[trigger] ws[i]).len() >= 2,
    ensures
        spec_words(render_capitalized(ws)) == ws.map_values(|w: Seq<char>| capitalized(w)),
{
    let w0 = ws[0];
    let rest = ws.drop_first();
    let c0 = to_upper(w0[0]);
    let body = render_capitalized(ws);
    assert(body == capitalized(w0) + render_capitalized(rest));
    assert(capitalized(w0) == seq![c0] + lower_word(w0.drop_first()));
    assert(body =~= seq![c0] + lower_word(w0.drop_first()) + render_capitalized(rest));
    assert(body[0] == c0);
    assert(is_upper(c0) && !is_separator(c0)) by {
        lemma_char_maps(w0[0]);
    }
    // from an empty current word the capital is simply absorbed
    assert(split_words_rec(body, Seq::empty()) == split_words_rec(
        body.drop_first(),
        seq![c0],
    ));
    assert(body.drop_first() =~= lower_word(w0.drop_first()) + render_capitalized(rest));
    assert forall|i: int| 0 <= i < w0.drop_first().len() implies is_letter(
        #[trigger] w0.drop_first()[i],
    ) by {
        assert(w0.drop_first()[i] == w0[i + 1]);
    }
    lemma_lower_word_inert(w0.drop_first());
    lemma_swr_inert(lower_word(w0.drop_first()), render_capitalized(rest), seq![c0]);
    assert(seq![c0] + lower_word(w0.drop_first()) =~= capitalized(w0));
    if rest.len() == 0 {
        assert(render_capitalized(rest) == Seq::<char>::empty());
        assert(split_words_rec(Seq::empty(), capitalized(w0)) =~= seq![capitalized(w0)]);
        assert(ws.map_values(|w: Seq<char>| capitalized(w)) =~= seq![capitalized(w0)]);
    } else {
        assert(w0.len() >= 2);
        assert(capitalized(w0).last() == to_lower(w0.last())) by {
            assert(lower_word(w0.drop_first()).len() == w0.len() - 1);
            assert(capitalized(w0).last() == lower_word(w0.drop_first()).last());
            assert(lower_word(w0.drop_first())[w0.len() - 2] == to_lower(
                w0.drop_first()[w0.len() - 2],
            ));
            assert(w0.drop_first()[w0.len() - 2] == w0[w0.len() - 1]);
        }
        assert(is_lower(capitalized(w0).last())) by {
            lemma_char_maps(w0.last());
        }
        assert(wf_words(rest)) by {
            assert forall|i: int| 0 <= i < rest.len() implies letters_word(
                #[trigger] rest[i],
            ) by {
                assert(rest[i] == ws[i + 1]);
            }
        }
        assert forall|i: int| 0 <= i < rest.len() - 1 implies (#[trigger] rest[i]).len()
            >= 2 by {
            assert(rest[i] == ws[i + 1]);
        }
        lemma_swr_cap_blocks(rest, capitalized(w0));
        assert(seq![capitalized(w0)] + rest.map_values(|w: Seq<char>| capitalized(w))
            =~= ws.map_values(|w: Seq<char>| capitalized(w)));
    }
}

/// Decomposing a camelCase rendering recovers the lowercased first word
/// and the capitalized rest.
proof fn lemma_words_of_render_camel(ws: Seq<Seq<char>>)
    requires
        wf_words(ws),
        ws.len() > 0,
        forall|i: int| 1 <= i < ws.len() - 1 ==> (#[trigger] ws[i]).len() >= 2,
    ensures
        spec_words(spec_render(ws, Case::CamelCase)) == seq![lower_word(ws[0])]
            + ws.drop_first().map_values(|w: Seq<char>| capitalized(w)),
{
    let w0 = ws[0];
    let rest = ws.drop_first();
    let body = spec_render(ws, Case::CamelCase);
    assert(body == lower_word(w0) + render_capitalized(rest));
    lemma_lower_word_inert(w0);
    lemma_swr_inert(lower_word(w0), render_capitalized(rest), Seq::empty());
    assert(Seq::<char>::empty() + lower_word(w0) =~= lower_word(w0));
    assert(lower_word(w0).len() == w0.len() > 0);
    if rest.len() == 0 {
        assert(render_capitalized(rest) == Seq::<char>::empty());
        assert(split_words_rec(Seq::<char>::empty(), lower_word(w0)) =~= seq![lower_word(w0)]);
        assert(seq![lower_word(ws[0])] + rest.map_values(|w: Seq<char>| capitalized(w))
            =~= seq![lower_word(w0)]);
    } else {
        assert(lower_word(w0).last() == to_lower(w0.last()));
        assert(is_lower(lower_word(w0).last())) by {
            lemma_char_maps(w0.last());
        }
        assert(wf_words(rest)) by {
            assert forall|i: int| 0 <= i < rest.len() implies letters_word(
                #[trigger] rest[i],
            ) by {
                assert(rest[i] == ws[i + 1]);
            }
        }
        assert forall|i: int| 0 <= i < rest.len() - 1 implies (#[trigger] rest[i]).len()
            >= 2 by {
            assert(rest[i] == ws[i + 1]);
        }
        lemma_swr_cap_blocks(rest, lower_word(w0));
    }
}

/// Decomposing a snake_case or kebab-case rendering recovers the
/// lowercased words.
proof fn lemma_words_of_render_lower(ws: Seq<Seq<char>>, sep: char)
    requires
        wf_words(ws),
        ws.len() > 0,
        is_separator(sep),
    ensures
        spec_words(render_joined_lower(ws, sep)) == ws.map_values(|w: Seq<char>| lower_word(w)),
    decreases ws.len(),
{
    let w0 = ws[0];
    let rest = ws.drop_first();
    lemma_lower_word_inert(w0);
    if ws.len() == 1 {
        let body = render_joined_lower(ws, sep);
        assert(body == lower_word(w0));
        lemma_swr_inert(lower_word(w0), Seq::empty(), Seq::empty());
        assert(lower_word(w0) + Seq::<char>::empty() =~= lower_word(w0));
        assert(Seq::<char>::empty() + lower_word(w0) =~= lower_word(w0));
        assert(lower_word(w0).len() == w0.len() > 0);
        assert(split_words_rec(Seq::<char>::empty(), lower_word(w0)) =~= seq![lower_word(w0)]);
        assert(ws.map_values(|w: Seq<char>| lower_word(w)) =~= seq![lower_word(w0)]);
    } else {
        let body = render_joined_lower(ws, sep);
        assert(body == lower_word(w0) + seq![sep] + render_joined_lower(rest, sep));
        assert(body =~= lower_word(w0) + (seq![sep] + render_joined_lower(rest, sep)));
        lemma_swr_inert(lower_word(w0), seq![sep] + render_joined_lower(rest, sep), Seq::empty());
        assert(Seq::<char>::empty() + lower_word(w0) =~= lower_word(w0));
        let after = seq![sep] + render_joined_lower(rest, sep);
        assert(after[0] == sep);
        assert(lower_word(w0).len() == w0.len() > 0);
        assert(split_words_rec(after, lower_word(w0)) == seq![lower_word(w0)]
            + split_words_rec(after.drop_first(), Seq::empty()));
        assert(after.drop_first() =~= render_joined_lower(rest, sep));
        assert(wf_words(rest)) by {
            assert forall|i: int| 0 <= i < rest.len() implies letters_word(
                #[trigger] rest[i],
            ) by {
                assert(rest[i] == ws[i + 1]);
            }
        }
        lemma_words_of_render_lower(rest, sep);
        assert(seq![lower_word(w0)] + rest.map_values(|w: Seq<char>| lower_word(w))
            =~= ws.map_values(|w: Seq<char>| lower_word(w)));
    }
}

/// Decomposing a SHOUTING_SNAKE_CASE rendering recovers the uppercased
/// words.
proof fn lemma_words_of_render_upper(ws: Seq<Seq<char>>, sep: char)
    requires
        wf_words(ws),
        ws.len() > 0,
        is_separator(sep),
    ensures
        spec_words(render_joined_upper(ws, sep)) == ws.map_values(|w: Seq<char>| upper_word(w)),
    decreases ws.len(),
{
    let w0 = ws[0];
    let rest = ws.drop_first();
    lemma_upper_word_inert(w0);
    assert forall|i: int| 1 <= i < upper_word(w0).len() implies !(is_lower(
        upper_word(w0)[i - 1],
    ) && is_upper(#[trigger] upper_word(w0)[i])) by {
        assert(!is_lower(upper_word(w0)[i - 1]));
    }
    if ws.len() == 1 {
        let body = render_joined_upper(ws, sep);
        assert(body == upper_word(w0));
        lemma_swr_inert(upper_word(w0), Seq::empty(), Seq::empty());
        assert(upper_word(w0) + Seq::<char>::empty() =~= upper_word(w0));
        assert(Seq::<char>::empty() + upper_word(w0) =~= upper_word(w0));
        assert(upper_word(w0).len() == w0.len() > 0);
        assert(split_words_rec(Seq::<char>::empty(), upper_word(w0)) =~= seq![upper_word(w0)]);
        assert(ws.map_values(|w: Seq<char>| upper_word(w)) =~= seq![upper_word(w0)]);
    } else {
        let body = render_joined_upper(ws, sep);
        assert(body == upper_word(w0) + seq![sep] + render_joined_upper(rest, sep));
        assert(body =~= upper_word(w0) + (seq![sep] + render_joined_upper(rest, sep)));
        lemma_swr_inert(upper_word(w0), seq![sep] + render_joined_upper(rest, sep), Seq::empty());
        assert(Seq::<char>::empty() + upper_word(w0) =~= upper_word(w0));
        let after = seq![sep] + render_joined_upper(rest, sep);
        assert(after[0] == sep);
        assert(upper_word(w0).len() == w0.len() > 0);
        assert(split_words_rec(after, upper_word(w0)) == seq![upper_word(w0)]
            + split_words_rec(after.drop_first(), Seq::empty()));
        assert(after.drop_first() =~= render_joined_upper(rest, sep));
        assert(wf_words(rest)) by {
            assert forall|i: int| 0 <= i < rest.len() implies letters_word(
                #[trigger] rest[i],
            ) by {
                assert(rest[i] == ws[i + 1]);
            }
        }
        lemma_words_of_render_upper(rest, sep);
        assert(seq![upper_word(w0)] + rest.map_values(|w: Seq<char>| upper_word(w))
            =~= ws.map_values(|w: Seq<char>| upper_word(w)));
    }
}

/// The case maps absorb one another: mapping a word that was already
/// case-mapped is the same as mapping the original word.
proof fn lemma_word_maps(w: Seq<char>)
    ensures
        lower_word(lower_word(w)) == lower_word(w),
        lower_word(upper_word(w)) == lower_word(w),
        lower_word(capitalized(w)) == lower_word(w),
        upper_word(lower_word(w)) == upper_word(w),
        upper_word(upper_word(w)) == upper_word(w),
        upper_word(capitalized(w)) == upper_word(w),
        capitalized(lower_word(w)) == capitalized(w),
        capitalized(upper_word(w)) == capitalized(w),
        capitalized(capitalized(w)) == capitalized(w),
{
    assert forall|i: int| 0 <= i < w.len() implies to_lower(to_lower(#[trigger] w[i]))
        == to_lower(w[i]) && to_lower(to_upper(w[i])) == to_lower(w[i]) && to_upper(
        to_lower(w[i]),
    ) == to_upper(w[i]) && to_upper(to_upper(w[i])) == to_upper(w[i]) by {
        lemma_char_maps(w[i]);
    }
    assert(lower_word(lower_word(w)) =~= lower_word(w));
    assert(lower_word(upper_word(w)) =~= lower_word(w));
    assert(upper_word(lower_word(w)) =~= upper_word(w));
    assert(upper_word(upper_word(w)) =~= upper_word(w));
    if w.len() == 0 {
        assert(lower_word(capitalized(w)) =~= lower_word(w));
        assert(upper_word(capitalized(w)) =~= upper_word(w));
        assert(capitalized(lower_word(w)) =~= capitalized(w));
        assert(capitalized(upper_word(w)) =~= capitalized(w));
        assert(capitalized(capitalized(w)) =~= capitalized(w));
    } else {
        lemma_char_maps(w[0]);
        assert(capitalized(w)[0] == to_upper(w[0]));
        assert forall|i: int| 1 <= i < w.len() implies #[trigger] capitalized(w)[i] == to_lower(
            w[i],
        ) by {
            assert(capitalized(w)[i] == lower_word(w.drop_first())[i - 1]);
            assert(w.drop_first()[i - 1] == w[i]);
        }
        assert forall|i: int| 0 <= i < w.len() implies to_lower(
            #[trigger] capitalized(w)[i],
        ) == to_lower(w[i]) && to_upper(capitalized(w)[i]) == to_upper(w[i]) by {
            lemma_char_maps(w[i]);
        }
        assert(lower_word(capitalized(w)) =~= lower_word(w));
        assert(upper_word(capitalized(w)) =~= upper_word(w));
        lemma_cap_of_mapped(w, lower_word(w));
        lemma_cap_of_mapped(w, upper_word(w));
        lemma_cap_of_mapped(w, capitalized(w));
    }
}

/// Capitalizing any per-character case-mapping of a word capitalizes
/// the word.
proof fn lemma_cap_of_mapped(w: Seq<char>, m: Seq<char>)
    requires
        w.len() > 0,
        m.len() == w.len(),
        forall|i: int| 0 <= i < w.len() ==> to_lower(#[trigger] m[i]) == to_lower(w[i])
            && to_upper(m[i]) == to_upper(w[i]),
    ensures
        capitalized(m) == capitalized(w),
{
    assert(capitalized(m)[0] == to_upper(m[0]));
    assert(capitalized(m) =~= capitalized(w)) by {
        assert(capitalized(m).len() == capitalized(w).len());
        assert forall|i: int| 0 <= i < capitalized(w).len() implies #[trigger] capitalized(
            m,
        )[i] == capitalized(w)[i] by {
            if i == 0 {
            } else {
                assert(capitalized(m)[i] == lower_word(m.drop_first())[i - 1]);
                assert(m.drop_first()[i - 1] == m[i]);
                assert(capitalized(w)[i] == lower_word(w.drop_first())[i - 1]);
                assert(w.drop_first()[i - 1] == w[i]);
            }
        }
    }
}

/// The four case maps on one character absorb one another.
proof fn lemma_char_maps(c: char)
    ensures
        to_lower(to_lower(c)) == to_lower(c),
        to_lower(to_upper(c)) == to_lower(c),
        to_upper(to_lower(c)) == to_upper(c),
        to_upper(to_upper(c)) == to_upper(c),
        is_letter(c) ==> is_lower(to_lower(c)) && is_upper(to_upper(c)),
        !is_separator(to_lower(c)) || is_separator(c),
        !is_separator(to_upper(c)) || is_separator(c),
        is_lower(c) ==> !is_separator(c) && !is_upper(c),
        is_upper(c) ==> !is_separator(c) && !is_lower(c),
{
    if is_upper(c) {
        assert(to_lower(c) == ((c as int + 32) as char));
        assert('a' <= to_lower(c) && to_lower(c) <= 'z');
    }
    if is_lower(c) {
        assert(to_upper(c) == ((c as int - 32) as char));
        assert('A' <= to_upper(c) && to_upper(c) <= 'Z');
    }
}

/// Two word lists whose words agree under every case map render alike
/// in every style.
proof fn lemma_render_same(ws1: Seq<Seq<char>>, ws2: Seq<Seq<char>>, style: Case)
    requires
        ws1.len() == ws2.len(),
        forall|i: int| 0 <= i < ws1.len() ==> lower_word(#[trigger] ws2[i]) == lower_word(
            ws1[i],
        ) && upper_word(ws2[i]) == upper_word(ws1[i]) && capitalized(ws2[i]) == capitalized(
            ws1[i],
        ),
    ensures
        spec_render(ws2, style) == spec_render(ws1, style),
    decreases ws1.len(),
{
    match style {
        Case::PascalCase => {
            lemma_render_cap_same(ws1, ws2);
        },
        Case::CamelCase => {
            if ws1.len() > 0 {
                lemma_drop_first_agrees(ws1, ws2);
                lemma_render_cap_same(ws1.drop_first(), ws2.drop_first());
            }
        },
        Case::ShoutingSnakeCase => {
            lemma_render_upper_same(ws1, ws2, '_');
        },
        Case::SnakeCase => {
            lemma_render_lower_same(ws1, ws2, '_');
        },
        Case::KebabCase => {
            lemma_render_lower_same(ws1, ws2, '-');
        },
    }
}

proof fn lemma_drop_first_agrees(ws1: Seq<Seq<char>>, ws2: Seq<Seq<char>>)
    requires
        ws1.len() == ws2.len(),
        ws1.len() > 0,
        forall|i: int| 0 <= i < ws1.len() ==> lower_word(#[trigger] ws2[i]) == lower_word(
            ws1[i],
        ) && upper_word(ws2[i]) == upper_word(ws1[i]) && capitalized(ws2[i]) == capitalized(
            ws1[i],
        ),
    ensures
        forall|i: int| 0 <= i < ws1.drop_first().len() ==> lower_word(
            #[trigger] ws2.drop_first()[i],
        ) == lower_word(ws1.drop_first()[i]) && upper_word(ws2.drop_first()[i]) == upper_word(
            ws1.drop_first()[i],
        ) && capitalized(ws2.drop_first()[i]) == capitalized(ws1.drop_first()[i]),
{
    assert forall|i: int| 0 <= i < ws1.drop_first().len() implies lower_word(
        #[trigger] ws2.drop_first()[i],
    ) == lower_word(ws1.drop_first()[i]) && upper_word(ws2.drop_first()[i]) == upper_word(
        ws1.drop_first()[i],
    ) && capitalized(ws2.drop_first()[i]) == capitalized(ws1.drop_first()[i]) by {
        assert(ws1.drop_first()[i] == ws1[i + 1]);
        assert(ws2.drop_first()[i] == ws2[i + 1]);
    }
}

proof fn lemma_render_cap_same(ws1: Seq<Seq<char>>, ws2: Seq<Seq<char>>)
    requires
        ws1.len() == ws2.len(),
        forall|i: int| 0 <= i < ws1.len() ==> lower_word(#[trigger] ws2[i]) == lower_word(
            ws1[i],
        ) && upper_word(ws2[i]) == upper_word(ws1[i]) && capitalized(ws2[i]) == capitalized(
            ws1[i],
        ),
    ensures
        render_capitalized(ws2) == render_capitalized(ws1),
    decreases ws1.len(),
{
    if ws1.len() > 0 {
        lemma_drop_first_agrees(ws1, ws2);
        lemma_render_cap_same(ws1.drop_first(), ws2.drop_first());
    }
}

proof fn lemma_render_lower_same(ws1: Seq<Seq<char>>, ws2: Seq<Seq<char>>, sep: char)
    requires
        ws1.len() == ws2.len(),
        forall|i: int| 0 <= i < ws1.len() ==> lower_word(#[trigger] ws2[i]) == lower_word(
            ws1[i],
        ) && upper_word(ws2[i]) == upper_word(ws1[i]) && capitalized(ws2[i]) == capitalized(
            ws1[i],
        ),
    ensures
        render_joined_lower(ws2, sep) == render_joined_lower(ws1, sep),
    decreases ws1.len(),
{
    if ws1.len() > 1 {
        lemma_drop_first_agrees(ws1, ws2);
        lemma_render_lower_same(ws1.drop_first(), ws2.drop_first(), sep);
    }
}

proof fn lemma_render_upper_same(ws1: Seq<Seq<char>>, ws2: Seq<Seq<char>>, sep: char)
    requires
        ws1.len() == ws2.len(),
        forall|i: int| 0 <= i < ws1.len() ==> lower_word(#[trigger] ws2[i]) == lower_word(
            ws1[i],
        ) && upper_word(ws2[i]) == upper_word(ws1[i]) && capitalized(ws2[i]) == capitalized(
            ws1[i],
        ),
    ensures
        render_joined_upper(ws2, sep) == render_joined_upper(ws1, sep),
    decreases ws1.len(),
{
    if ws1.len() > 1 {
        lemma_drop_first_agrees(ws1, ws2);
        lemma_render_upper_same(ws1.drop_first(), ws2.drop_first(), sep);
    }
}

} // verus!
