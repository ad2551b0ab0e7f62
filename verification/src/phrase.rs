//! The front of the pipeline: input transformation, phrase segmentation,
//! word splitting, and the keystack of ranked keywords found in the first
//! phrase that mentions any.

use crate::script::{Keyword, KeywordV, Transform, TransformV};
use crate::text::{
    contains_sub, replace_all, split_clauses, split_sub, trimmed, words_of, is_space_char,
    replace_chars, split_clause_chars, split_on, to_chars, to_text, trim_chars, words_chars,
};
use vstd::prelude::*;

verus! {

/// `s` after replacing every occurrence of each equivalent, in order, by the
/// canonical `word`.
pub open spec fn apply_equivalents(s: Seq<char>, word: Seq<char>, eqs: Seq<Seq<char>>) -> Seq<char>
    decreases eqs.len(),
{
    if eqs.len() == 0 {
        s
    } else {
        apply_equivalents(replace_all(s, eqs[0], word), word, eqs.skip(1))
    }
}

/// `s` after applying every transform in script order; later transforms see
/// the text as modified by earlier ones.
pub open spec fn transformed_from(s: Seq<char>, ts: Seq<TransformV>) -> Seq<char>
    decreases ts.len(),
{
    if ts.len() == 0 {
        s
    } else {
        transformed_from(apply_equivalents(s, ts[0].word, ts[0].equivalents), ts.skip(1))
    }
}

/// Applies every transform of the script to `input`, in order, replacing each
/// equivalent with its canonical word as a literal substring.
pub fn transform(input: &str, transforms: &Vec<Transform>) -> (r: String)
    ensures
        r@ == transformed_from(input@, transforms.deep_view()),
{
    let mut cur = to_chars(input);
    let ghost tv = transforms.deep_view();
    let mut i: usize = 0;
    proof {
        assert(tv.skip(0) =~= tv);
    }
    while i < transforms.len()
        invariant
            i <= transforms.len(),
            tv == transforms.deep_view(),
            transformed_from(input@, tv) == transformed_from(cur@, tv.skip(i as int)),
        decreases transforms@.len() - i,
    {
        let ghost pre = cur@;
        let word = to_chars(transforms[i].word.as_str());
        let ghost eqs = tv[i as int].equivalents;
        let mut j: usize = 0;
        proof {
            assert(eqs.skip(0) =~= eqs);
            assert(tv[i as int] == transforms@[i as int]@);
        }
        while j < transforms[i].equivalents.len()
            invariant
                j <= transforms[i as int].equivalents.len(),
                i < transforms.len(),
                tv == transforms.deep_view(),
                word@ == tv[i as int].word,
                eqs == tv[i as int].equivalents,
                apply_equivalents(pre, word@, eqs) == apply_equivalents(
                    cur@,
                    word@,
                    eqs.skip(j as int),
                ),
            decreases transforms@[i as int].equivalents@.len() - j,
        {
            let eq = to_chars(transforms[i].equivalents[j].as_str());
            proof {
                assert(tv[i as int] == transforms@[i as int]@);
                assert(eq@ == eqs[j as int]);
                assert(eqs.skip(j as int)[0] == eqs[j as int]);
                assert(eqs.skip(j as int).skip(1) =~= eqs.skip(j + 1));
            }
            cur = replace_chars(&cur, &eq, &word);
            j = j + 1;
        }
        proof {
            assert(eqs.skip(eqs.len() as int) =~= Seq::<Seq<char>>::empty());
            assert(apply_equivalents(cur@, word@, eqs.skip(eqs.len() as int)) == cur@);
            assert(tv.skip(i as int)[0] == tv[i as int]);
            assert(tv.skip(i as int).skip(1) =~= tv.skip(i + 1));
        }
        i = i + 1;
    }
    proof {
        assert(tv.skip(tv.len() as int) =~= Seq::<TransformV>::empty());
    }
    to_text(&cur)
}

/// The five-character clause connector on which the input is cut first.
pub open spec fn but_sep() -> Seq<char> {
    seq![' ', 'b', 'u', 't', ' ']
}

/// The clause lists of each part, concatenated.
pub open spec fn clause_lists(parts: Seq<Seq<char>>) -> Seq<Seq<char>>
    decreases parts.len(),
{
    if parts.len() == 0 {
        Seq::empty()
    } else {
        split_clauses(parts[0]) + clause_lists(parts.skip(1))
    }
}

/// The phrases of a normalized input: the text is cut on the literal
/// connector `" but "`, each part is cut again on `.`, `,` and `?`, and every
/// piece is trimmed of surrounding whitespace. Empty pieces are kept.
pub open spec fn phrases_of(s: Seq<char>) -> Seq<Seq<char>> {
    clause_lists(split_sub(s, but_sep())).map_values(|p: Seq<char>| trimmed(p))
}

proof fn lemma_clause_lists_snoc(parts: Seq<Seq<char>>, x: Seq<char>)
    ensures
        clause_lists(parts.push(x)) == clause_lists(parts) + split_clauses(x),
    decreases parts.len(),
{
    if parts.len() == 0 {
        assert(parts.push(x)[0] == x);
        assert(parts.push(x).skip(1) =~= Seq::<Seq<char>>::empty());
        assert(clause_lists(Seq::<Seq<char>>::empty()) == Seq::<Seq<char>>::empty());
        assert(clause_lists(parts.push(x)) == split_clauses(x) + Seq::<Seq<char>>::empty());
        assert(clause_lists(parts.push(x)) =~~= clause_lists(parts) + split_clauses(x));
    } else {
        assert(parts.push(x)[0] == parts[0]);
        assert(parts.push(x).skip(1) =~~= parts.skip(1).push(x));
        lemma_clause_lists_snoc(parts.skip(1), x);
        assert(clause_lists(parts.push(x)) =~~= clause_lists(parts) + split_clauses(x));
    }
}

/// Splits a normalized input into its phrases.
pub fn get_phrases(input: &str) -> (r: Vec<String>)
    ensures
        r.deep_view() == phrases_of(input@),
{
    let chars = to_chars(input);
    let mut sep: Vec<char> = Vec::new();
    sep.push(' ');
    sep.push('b');
    sep.push('u');
    sep.push('t');
    sep.push(' ');
    proof {
        assert(sep@ =~= but_sep());
    }
    let parts = split_on(&chars, &sep);
    let ghost pv = parts.deep_view();
    let mut out: Vec<String> = Vec::new();
    let mut i: usize = 0;
    proof {
        assert(pv.take(0) =~~= Seq::<Seq<char>>::empty());
        assert(out.deep_view() =~~= clause_lists(pv.take(0)).map_values(
            |p: Seq<char>| trimmed(p),
        ));
    }
    while i < parts.len()
        invariant
            i <= parts.len(),
            pv == parts.deep_view(),
            pv.len() == parts@.len(),
            out.deep_view() == clause_lists(pv.take(i as int)).map_values(
                |p: Seq<char>| trimmed(p),
            ),
        decreases parts@.len() - i,
    {
        let clauses = split_clause_chars(&parts[i]);
        let ghost cv = clauses.deep_view();
        proof {
            assert(pv[i as int] == parts@[i as int].deep_view());
            assert(parts@[i as int].deep_view() =~= parts@[i as int]@);
            assert(cv == split_clauses(pv[i as int]));
        }
        let mut j: usize = 0;
        while j < clauses.len()
            invariant
                j <= clauses.len(),
                i < parts.len(),
                pv == parts.deep_view(),
                cv == clauses.deep_view(),
                cv == split_clauses(pv[i as int]),
                out.deep_view() == (clause_lists(pv.take(i as int)) + cv.take(
                    j as int,
                )).map_values(|p: Seq<char>| trimmed(p)),
            decreases clauses@.len() - j,
        {
            let ghost pre = out.deep_view();
            let piece = trim_chars(&clauses[j]);
            out.push(to_text(&piece));
            j = j + 1;
            proof {
                assert(cv[j - 1] == clauses@[j - 1]@);
                assert(piece@ == trimmed(cv[j - 1]));
                assert(out.deep_view() =~~= pre.push(trimmed(cv[j - 1])));
                assert(cv.take(j as int) =~~= cv.take(j - 1).push(cv[j - 1]));
                assert((clause_lists(pv.take(i as int)) + cv.take(j as int)) =~~= (clause_lists(
                    pv.take(i as int),
                ) + cv.take(j - 1)).push(cv[j - 1]));
                assert(out.deep_view() =~~= (clause_lists(pv.take(i as int)) + cv.take(
                    j as int,
                )).map_values(|p: Seq<char>| trimmed(p)));
            }
        }
        i = i + 1;
        proof {
            assert(cv.take(cv.len() as int) =~~= cv);
            assert(pv.take(i as int) =~~= pv.take(i - 1).push(pv[i - 1]));
            lemma_clause_lists_snoc(pv.take(i - 1), pv[i - 1]);
            assert(clause_lists(pv.take(i as int)) =~~= clause_lists(pv.take(i - 1)) + cv);
        }
    }
    proof {
        assert(pv.take(pv.len() as int) =~~= pv);
        assert(chars@ == input@);
    }
    out
}

/// Splits a phrase into its whitespace-delimited words.
pub fn get_words(phrase: &str) -> (r: Vec<String>)
    ensures
        r.deep_view() == words_of(phrase@),
{
    let chars = to_chars(phrase);
    let ws = words_chars(&chars);
    let ghost wv = ws.deep_view();
    let mut out: Vec<String> = Vec::new();
    let mut i: usize = 0;
    proof {
        assert(out.deep_view() =~~= wv.take(0));
    }
    while i < ws.len()
        invariant
            i <= ws.len(),
            wv == ws.deep_view(),
            wv.len() == ws@.len(),
            out.deep_view() == wv.take(i as int),
        decreases ws@.len() - i,
    {
        let ghost pre = out.deep_view();
        out.push(to_text(&ws[i]));
        i = i + 1;
        proof {
            assert(out.deep_view() =~~= pre.push(wv[i - 1]));
            assert(out.deep_view() =~~= wv.take(i as int));
        }
    }
    proof {
        assert(wv.take(wv.len() as int) =~~= wv);
    }
    out
}

/// The position of the first keyword whose key equals `w`, if any.
pub open spec fn keyword_index(kws: Seq<KeywordV>, w: Seq<char>) -> Option<int>
    decreases kws.len(),
{
    if kws.len() == 0 {
        None
    } else if kws[0].key == w {
        Some(0)
    } else {
        match keyword_index(kws.skip(1), w) {
            Some(j) => Some(j + 1),
            None => None,
        }
    }
}

pub proof fn lemma_keyword_index_in_range(kws: Seq<KeywordV>, w: Seq<char>)
    ensures
        keyword_index(kws, w) matches Some(j) ==> 0 <= j < kws.len() && kws[j].key == w,
        keyword_index(kws, w) is None ==> forall|j: int| 0 <= j < kws.len() ==> kws[j].key != w,
    decreases kws.len(),
{
    if kws.len() > 0 {
        assert(forall|k: int| 0 <= k < kws.skip(1).len() ==> kws.skip(1)[k] == kws[k + 1]);
        lemma_keyword_index_in_range(kws.skip(1), w);
        if kws[0].key != w && keyword_index(kws.skip(1), w) is None {
            assert forall|j: int| 0 <= j < kws.len() implies kws[j].key != w by {
                if j > 0 {
                    assert(kws.skip(1)[j - 1] == kws[j]);
                }
            }
        }
    }
}

/// The first keyword whose key is `w`, found by scanning positions upward.
pub proof fn lemma_keyword_index_first(kws: Seq<KeywordV>, w: Seq<char>, j: int)
    requires
        0 <= j < kws.len(),
        kws[j].key == w,
        forall|k: int| 0 <= k < j ==> kws[k].key != w,
    ensures
        keyword_index(kws, w) == Some(j),
    decreases kws.len(),
{
    if j > 0 {
        assert(kws.skip(1)[j - 1] == kws[j]);
        assert(forall|k: int| 0 <= k < j - 1 ==> kws.skip(1)[k] == kws[k + 1]);
        lemma_keyword_index_first(kws.skip(1), w, j - 1);
    }
}

pub proof fn lemma_keyword_index_none(kws: Seq<KeywordV>, w: Seq<char>)
    requires
        forall|k: int| 0 <= k < kws.len() ==> kws[k].key != w,
    ensures
        keyword_index(kws, w) is None,
    decreases kws.len(),
{
    if kws.len() > 0 {
        assert(forall|k: int| 0 <= k < kws.skip(1).len() ==> kws.skip(1)[k] == kws[k + 1]);
        lemma_keyword_index_none(kws.skip(1), w);
    }
}

/// Every keyword hit in a list of words, in word order: for each word, the
/// first keyword whose key equals it, if any. Duplicate hits are kept.
pub open spec fn phrase_hits(kws: Seq<KeywordV>, ws: Seq<Seq<char>>) -> Seq<KeywordV>
    decreases ws.len(),
{
    if ws.len() == 0 {
        Seq::empty()
    } else {
        (match keyword_index(kws, ws[0]) {
            Some(j) => seq![kws[j]],
            None => Seq::<KeywordV>::empty(),
        }) + phrase_hits(kws, ws.skip(1))
    }
}

proof fn lemma_phrase_hits_snoc(kws: Seq<KeywordV>, ws: Seq<Seq<char>>, w: Seq<char>)
    ensures
        phrase_hits(kws, ws.push(w)) == phrase_hits(kws, ws) + (match keyword_index(kws, w) {
            Some(j) => seq![kws[j]],
            None => Seq::<KeywordV>::empty(),
        }),
    decreases ws.len(),
{
    if ws.len() == 0 {
        assert(ws.push(w)[0] == w);
        assert(ws.push(w).skip(1) =~~= Seq::<Seq<char>>::empty());
        assert(phrase_hits(kws, Seq::<Seq<char>>::empty()) == Seq::<KeywordV>::empty());
        assert(phrase_hits(kws, ws.push(w)) =~~= phrase_hits(kws, ws) + (match keyword_index(
            kws,
            w,
        ) {
            Some(j) => seq![kws[j]],
            None => Seq::<KeywordV>::empty(),
        }));
    } else {
        assert(ws.push(w)[0] == ws[0]);
        assert(ws.push(w).skip(1) =~~= ws.skip(1).push(w));
        lemma_phrase_hits_snoc(kws, ws.skip(1), w);
        assert(phrase_hits(kws, ws.push(w)) =~~= phrase_hits(kws, ws) + (match keyword_index(
            kws,
            w,
        ) {
            Some(j) => seq![kws[j]],
            None => Seq::<KeywordV>::empty(),
        }));
    }
}

/// The first phrase that mentions any keyword, with its hits: phrases are
/// scanned in order and the scan stops at the first phrase whose words hit at
/// least one keyword.
pub open spec fn active_selection(kws: Seq<KeywordV>, phrases: Seq<Seq<char>>) -> Option<
    (Seq<char>, Seq<KeywordV>),
>
    decreases phrases.len(),
{
    if phrases.len() == 0 {
        None
    } else {
        let h = phrase_hits(kws, words_of(phrases[0]));
        if h.len() > 0 {
            Some((phrases[0], h))
        } else {
            active_selection(kws, phrases.skip(1))
        }
    }
}

/// Inserts `x` after every already-placed keyword of equal or higher rank.
pub open spec fn insert_by_rank(sorted: Seq<KeywordV>, x: KeywordV) -> Seq<KeywordV>
    decreases sorted.len(),
{
    if sorted.len() == 0 {
        seq![x]
    } else if sorted[0].rank >= x.rank {
        seq![sorted[0]] + insert_by_rank(sorted.skip(1), x)
    } else {
        seq![x] + sorted
    }
}

/// The stable sort of `s` by rank, highest first: keywords of equal rank keep
/// their original order.
pub open spec fn sort_by_rank(s: Seq<KeywordV>) -> Seq<KeywordV>
    decreases s.len(),
{
    if s.len() == 0 {
        Seq::empty()
    } else {
        insert_by_rank(sort_by_rank(s.drop_last()), s.last())
    }
}

/// Inserting at the first position whose rank is lower realizes
/// `insert_by_rank`.
proof fn lemma_insert_at(sorted: Seq<KeywordV>, x: KeywordV, p: int)
    requires
        0 <= p <= sorted.len(),
        forall|k: int| 0 <= k < p ==> sorted[k].rank >= x.rank,
        p == sorted.len() || sorted[p].rank < x.rank,
    ensures
        insert_by_rank(sorted, x) == sorted.take(p) + seq![x] + sorted.skip(p),
    decreases sorted.len(),
{
    if sorted.len() == 0 {
        assert(insert_by_rank(sorted, x) =~~= sorted.take(p) + seq![x] + sorted.skip(p));
    } else if p == 0 {
        assert(sorted[0].rank < x.rank);
        assert(insert_by_rank(sorted, x) =~~= sorted.take(0) + seq![x] + sorted.skip(0));
    } else {
        assert(sorted[0].rank >= x.rank);
        assert(forall|k: int| 0 <= k < p - 1 ==> sorted.skip(1)[k] == sorted[k + 1]);
        if p < sorted.len() {
            assert(sorted.skip(1)[p - 1] == sorted[p]);
        }
        lemma_insert_at(sorted.skip(1), x, p - 1);
        assert(sorted.skip(1).take(p - 1) =~~= sorted.subrange(1, p));
        assert(sorted.skip(1).skip(p - 1) =~~= sorted.skip(p));
        assert(insert_by_rank(sorted, x) =~~= sorted.take(p) + seq![x] + sorted.skip(p));
    }
}

/// Builds the keystack: scans `phrases` in order, stops at the first phrase in
/// which some word equals some keyword's key, collects every hit of that
/// phrase (first matching keyword per word, duplicates kept), and sorts the
/// hits by rank, highest first, stably. Returns that phrase and the stack, or
/// nothing when no phrase mentions any keyword.
pub fn populate_keystack(phrases: Vec<String>, keywords: &Vec<Keyword>) -> (r: (
    Option<String>,
    Vec<Keyword>,
))
    ensures
        ({
            let sel = active_selection(keywords.deep_view(), phrases.deep_view());
            &&& (r.0 is Some) == (sel is Some)
            &&& (match sel {
                Some(pair) => r.0 matches Some(p) && p@ == pair.0 && r.1.deep_view()
                    == sort_by_rank(pair.1),
                None => r.1@.len() == 0,
            })
        }),
{
    let ghost kv = keywords.deep_view();
    let ghost phv = phrases.deep_view();
    let mut hits: Vec<Keyword> = Vec::new();
    let mut active: Option<String> = None;
    let mut pi: usize = 0;
    proof {
        assert(phv.skip(0) =~~= phv);
    }
    while pi < phrases.len() && active.is_none()
        invariant
            pi <= phrases.len(),
            kv == keywords.deep_view(),
            phv == phrases.deep_view(),
            phv.len() == phrases@.len(),
            active is None ==> hits@.len() == 0 && active_selection(kv, phv) == active_selection(
                kv,
                phv.skip(pi as int),
            ),
            active matches Some(p) ==> 0 < pi <= phrases@.len() && p@ == phv[pi - 1]
                && hits.deep_view() == phrase_hits(kv, words_of(phv[pi - 1])) && hits@.len() > 0
                && active_selection(kv, phv) == Some((phv[pi - 1], hits.deep_view())),
        decreases phrases@.len() - pi,
    {
        let ws = get_words(phrases[pi].as_str());
        let ghost wv = ws.deep_view();
        proof {
            assert(phv[pi as int] == phrases@[pi as int]@);
            assert(wv == words_of(phv[pi as int]));
            assert(wv.take(0) =~~= Seq::<Seq<char>>::empty());
            assert(phrase_hits(kv, wv.take(0)) == Seq::<KeywordV>::empty());
            assert(hits.deep_view() =~~= Seq::<KeywordV>::empty());
        }
        let mut wi: usize = 0;
        while wi < ws.len()
            invariant
                wi <= ws.len(),
                pi < phrases.len(),
                kv == keywords.deep_view(),
                phv == phrases.deep_view(),
                phv.len() == phrases@.len(),
                wv == ws.deep_view(),
                wv.len() == ws@.len(),
                wv == words_of(phv[pi as int]),
                hits.deep_view() == phrase_hits(kv, wv.take(wi as int)),
                (active is Some) == (hits@.len() > 0),
                active matches Some(p) ==> p@ == phv[pi as int],
            decreases ws@.len() - wi,
        {
            let w = &ws[wi];
            proof {
                assert(wv[wi as int] == ws@[wi as int]@);
            }
            let mut ki: usize = 0;
            let mut found = false;
            while ki < keywords.len() && !found
                invariant
                    ki <= keywords.len(),
                    kv == keywords.deep_view(),
                    kv.len() == keywords@.len(),
                    wv[wi as int] == ws@[wi as int]@,
                    w@ == wv[wi as int],
                    wi < ws@.len(),
                    !found ==> forall|k: int| 0 <= k < ki ==> kv[k].key != wv[wi as int],
                    found ==> 0 < ki <= keywords@.len() && kv[ki - 1].key == wv[wi as int] && (
                    forall|k: int| 0 <= k < ki - 1 ==> kv[k].key != wv[wi as int]),
                decreases keywords@.len() - ki,
            {
                if keywords[ki].key.eq(w) {
                    found = true;
                    proof {
                        assert((*w)@ == ws@[wi as int]@);
                        assert(keywords@[ki as int].key@ == (*w)@);
                        assert(keywords@[ki as int].key@ == ws@[wi as int]@);
                        assert(kv[ki as int] == keywords@[ki as int].deep_view());
                        assert(kv[ki as int].key == ws@[wi as int]@);
                    }
                } else {
                    proof {
                        assert(keywords@[ki as int].key@ != ws@[wi as int]@);
                        assert(kv[ki as int] == keywords@[ki as int].deep_view());
                        assert(kv[ki as int].key != wv[wi as int]);
                    }
                }
                ki = ki + 1;
            }
            let ghost pre_hits = hits.deep_view();
            if found {
                proof {
                    lemma_keyword_index_first(kv, wv[wi as int], ki - 1);
                }
                hits.push(keywords[ki - 1].clone());
                active = Some(phrases[pi].clone());
                proof {
                    assert(hits.deep_view() =~~= pre_hits.push(kv[ki - 1]));
                }
            } else {
                proof {
                    lemma_keyword_index_none(kv, wv[wi as int]);
                }
            }
            wi = wi + 1;
            proof {
                assert(wv.take(wi as int) =~~= wv.take(wi - 1).push(wv[wi - 1]));
                lemma_phrase_hits_snoc(kv, wv.take(wi - 1), wv[wi - 1]);
                assert(hits.deep_view() =~~= phrase_hits(kv, wv.take(wi as int)));
            }
        }
        pi = pi + 1;
        proof {
            assert(wv.take(wv.len() as int) =~~= wv);
            let tail = phv.skip(pi - 1);
            assert(tail[0] == phv[pi - 1]);
            assert(tail.skip(1) =~~= phv.skip(pi as int));
            if active is None {
                assert(phrase_hits(kv, words_of(phv[pi - 1])).len() == 0);
                assert(active_selection(kv, tail) == active_selection(kv, phv.skip(pi as int)));
            } else {
                assert(hits.deep_view() == phrase_hits(kv, words_of(phv[pi - 1])));
                assert(active_selection(kv, tail) == Some((phv[pi - 1], hits.deep_view())));
            }
        }
    }
    proof {
        if active is None {
            assert(pi == phrases@.len());
            assert(phv.skip(pi as int) =~~= Seq::<Seq<char>>::empty());
            assert(active_selection(kv, phv) is None);
        }
    }
    // stable insertion sort by rank, highest first
    let ghost hv = hits.deep_view();
    let mut sorted: Vec<Keyword> = Vec::new();
    let mut i: usize = 0;
    proof {
        assert(hv.take(0) =~~= Seq::<KeywordV>::empty());
        assert(sorted.deep_view() =~~= sort_by_rank(hv.take(0)));
    }
    while i < hits.len()
        invariant
            i <= hits.len(),
            hv == hits.deep_view(),
            hv.len() == hits@.len(),
            sorted.deep_view() == sort_by_rank(hv.take(i as int)),
            sorted@.len() == i,
            forall|k: int| 0 <= k < sorted@.len() ==> sorted.deep_view()[k].rank
                == #[trigger] sorted@[k].rank,
        decreases hits@.len() - i,
    {
        let x = hits[i].clone();
        proof {
            assert(x@ == hv[i as int]);
        }
        let mut p: usize = 0;
        while p < sorted.len() && sorted[p].rank >= x.rank
            invariant
                p <= sorted.len(),
                x@ == hv[i as int],
                i < hits@.len(),
                hv == hits.deep_view(),
                forall|k: int| 0 <= k < sorted@.len() ==> sorted.deep_view()[k].rank
                    == #[trigger] sorted@[k].rank,
                forall|k: int| 0 <= k < p ==> sorted.deep_view()[k].rank >= x@.rank,
            decreases sorted@.len() - p,
        {
            proof {
                assert(sorted.deep_view()[p as int].rank == sorted@[p as int].rank);
            }
            p = p + 1;
        }
        let ghost pre_sorted = sorted.deep_view();
        proof {
            if p < sorted@.len() {
                assert(sorted.deep_view()[p as int].rank == sorted@[p as int].rank);
                assert(pre_sorted[p as int].rank < x@.rank);
            }
            lemma_insert_at(pre_sorted, x@, p as int);
        }
        sorted.insert(p, x);
        i = i + 1;
        proof {
            assert(sorted.deep_view() =~~= pre_sorted.take(p as int) + seq![x@]
                + pre_sorted.skip(p as int));
            assert(hv.take(i as int).drop_last() =~~= hv.take(i - 1));
            assert(hv.take(i as int).last() == hv[i - 1]);
            assert(sorted.deep_view() =~~= sort_by_rank(hv.take(i as int)));
        }
    }
    proof {
        assert(hv.take(hv.len() as int) =~~= hv);
    }
    (active, sorted)
}

} // verus!
