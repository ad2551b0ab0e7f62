//! Laws of the engine: properties that hold of every script and state, each
//! proved against the same model that the engine's contracts use.

use crate::assembly::{goto_target, reflect_word, reflection_index};
use crate::phrase::{
    active_selection, apply_equivalents, but_sep, clause_lists, phrase_hits, phrases_of,
    transformed_from,
};
use crate::text::words_of;
use crate::script::{ReflectionV, ScriptV};
use crate::text::{
    lower_of, replace_all, split_clauses, split_sub, trim_end_spec, trim_start_spec, trimmed,
};
use crate::usage::{
    bump_val, lemma_first_unused_none, min_used_index, sel_key, select_outcome, usage_bump,
    usage_lookup,
};
use crate::{respond_model, search, KeyOutcome, RespondModel};
use vstd::prelude::*;

verus! {

proof fn lemma_transformed_empty(ts: Seq<crate::script::TransformV>)
    requires
        forall|i: int, j: int|
            0 <= i < ts.len() && 0 <= j < (#[trigger] ts[i]).equivalents.len() ==> (#[trigger] ts[i].equivalents[j]).len() > 0,
    ensures
        transformed_from(Seq::<char>::empty(), ts) == Seq::<char>::empty(),
    decreases ts.len(),
{
    if ts.len() > 0 {
        lemma_apply_equivalents_empty(ts[0].word, ts[0].equivalents);
        assert(forall|i: int, j: int|
            0 <= i < ts.skip(1).len() && 0 <= j < (#[trigger] ts.skip(1)[i]).equivalents.len()
                ==> ts.skip(1)[i] == ts[i + 1] && (#[trigger] ts.skip(1)[i].equivalents[j]).len()
                > 0);
        lemma_transformed_empty(ts.skip(1));
    }
}

proof fn lemma_apply_equivalents_empty(word: Seq<char>, eqs: Seq<Seq<char>>)
    requires
        forall|j: int| 0 <= j < eqs.len() ==> (#[trigger] eqs[j]).len() > 0,
    ensures
        apply_equivalents(Seq::<char>::empty(), word, eqs) == Seq::<char>::empty(),
    decreases eqs.len(),
{
    if eqs.len() > 0 {
        assert(replace_all(Seq::<char>::empty(), eqs[0], word) == Seq::<char>::empty());
        assert(forall|j: int| 0 <= j < eqs.skip(1).len() ==> eqs.skip(1)[j] == eqs[j + 1]);
        lemma_apply_equivalents_empty(word, eqs.skip(1));
    }
}

/// An empty input mentions no keyword: provided every transform equivalent
/// is non-empty (an empty equivalent would let a transform write text into
/// the empty input), a turn on the empty input with an empty memory queue
/// reaches the fallback branch and changes nothing.
pub proof fn lemma_empty_input_falls_back(script: ScriptV, u: Seq<(Seq<char>, int)>)
    requires
        forall|i: int, j: int|
            0 <= i < script.transforms.len() && 0 <= j < (#[trigger] script.transforms[i]).equivalents.len()
                ==> (#[trigger] script.transforms[i].equivalents[j]).len() > 0,
    ensures
        respond_model(script, Seq::empty(), u, Seq::empty()) == (RespondModel::Fallback {
            memory: Seq::<Seq<char>>::empty(),
            usage: u,
        }),
{
    let empty = Seq::<char>::empty();
    assert(lower_of(empty) == empty);
    lemma_transformed_empty(script.transforms);
    let normalized = transformed_from(lower_of(empty), script.transforms);
    assert(normalized == empty);
    assert(split_sub(empty, but_sep()) == seq![empty]);
    assert(seq![empty].skip(1) =~~= Seq::<Seq<char>>::empty());
    assert(split_clauses(empty) == seq![empty]);
    assert(clause_lists(Seq::<Seq<char>>::empty()) == Seq::<Seq<char>>::empty());
    assert(clause_lists(seq![empty]) == split_clauses(empty) + clause_lists(
        Seq::<Seq<char>>::empty(),
    ));
    assert(clause_lists(seq![empty]) =~~= seq![empty]);
    assert(trim_start_spec(empty) == empty);
    assert(trimmed(empty) == empty);
    assert(phrases_of(empty) =~~= seq![empty]);
    assert(words_of(empty) == Seq::<Seq<char>>::empty());
    assert(phrase_hits(script.keywords, words_of(empty)).len() == 0);
    let ph = phrases_of(empty);
    assert(ph[0] == empty);
    assert(ph.skip(1) =~~= Seq::<Seq<char>>::empty());
    assert(active_selection(script.keywords, Seq::<Seq<char>>::empty()) is None);
    assert(active_selection(script.keywords, ph) is None);
}

/// A turn that reaches the fallback branch leaves the memory queue empty, so
/// with an empty fallback list such turns repeat identically: `respond`'s
/// contract pins each of their answers to the same fixed line.
pub proof fn lemma_fallback_turn_leaves_no_memory(
    script: ScriptV,
    mem: Seq<Seq<char>>,
    u: Seq<(Seq<char>, int)>,
    input: Seq<char>,
)
    ensures
        respond_model(script, mem, u, input) matches RespondModel::Fallback { memory, usage }
            ==> memory.len() == 0,
{
}

/// Raising the count under one key moves no other key's count.
proof fn lemma_usage_bump_lookup(u: Seq<(Seq<char>, int)>, k: Seq<char>, k2: Seq<char>)
    ensures
        usage_lookup(usage_bump(u, k), k2) == (if k2 == k {
            match usage_lookup(u, k) {
                Some(v) => Some(bump_val(v)),
                None => None,
            }
        } else {
            usage_lookup(u, k2)
        }),
    decreases u.len(),
{
    if u.len() > 0 {
        lemma_usage_bump_lookup(u.skip(1), k, k2);
        if u[0].0 == k {
            let b = seq![(k, bump_val(u[0].1))] + u.skip(1);
            assert(b[0] == (k, bump_val(u[0].1)));
            assert(b.skip(1) =~~= u.skip(1));
        } else {
            let b = seq![u[0]] + usage_bump(u.skip(1), k);
            assert(b[0] == u[0]);
            assert(b.skip(1) =~~= usage_bump(u.skip(1), k));
        }
    }
}

/// One selection among templates of equal recorded counts, all under the
/// machine's limit: the first template wins and only its count grows.
proof fn lemma_select_equal_counts(
    u: Seq<(Seq<char>, int)>,
    id: Seq<char>,
    ts: Seq<Seq<char>>,
    c: int,
    low: int,
)
    requires
        ts.len() == 4,
        0 <= low < ts.len(),
        forall|i: int| 0 <= i < low ==> usage_lookup(u, sel_key(id, #[trigger] ts[i])) == Some(
            c + 1,
        ),
        forall|i: int| low <= i < ts.len() ==> usage_lookup(u, sel_key(id, #[trigger] ts[i]))
            == Some(c),
        0 <= c < usize::MAX,
    ensures
        select_outcome(u, id, ts) matches Some(pair) && pair.0 == low && (forall|k2: Seq<char>|
            usage_lookup(#[trigger] (select_outcome(u, id, ts) ->Some_0).1, k2) == (if k2
                == sel_key(id, ts[low]) {
                Some(c + 1)
            } else {
                usage_lookup(u, k2)
            })),
{
    assert(forall|j: int| 0 <= j < ts.len() ==> usage_lookup(u, sel_key(id, #[trigger] ts[j])) is Some);
    lemma_first_unused_none(u, id, ts);
    let t1 = ts.drop_last();
    let t2 = t1.drop_last();
    let t3 = t2.drop_last();
    assert(t3.len() == 1 && t2.len() == 2 && t1.len() == 3);
    assert(t3[0] == ts[0] && t2[0] == ts[0] && t1[0] == ts[0]);
    assert(t2[1] == ts[1] && t1[1] == ts[1] && t1[2] == ts[2]);
    assert(min_used_index(u, id, t3) == 0);
    assert(min_used_index(u, id, t2) == (if low == 1 { 1int } else { 0int }));
    assert(min_used_index(u, id, t1) == (if 1 <= low <= 2 { low } else { 0int }));
    assert(min_used_index(u, id, ts) == low);
    assert(select_outcome(u, id, ts) matches Some(pair) && pair.0 == low);
    let k = sel_key(id, ts[low]);
    assert forall|k2: Seq<char>|
        usage_lookup(#[trigger] (select_outcome(u, id, ts) ->Some_0).1, k2) == (if k2 == k {
            Some(c + 1)
        } else {
            usage_lookup(u, k2)
        }) by {
        lemma_usage_bump_lookup(u, k, k2);
    }
}

/// Least-used fairness: four templates under one decomposition rule, with
/// distinct selection keys and equal recorded counts, are selected once each
/// by four consecutive selections, in declaration order.
pub proof fn lemma_lru_round_robin(
    u: Seq<(Seq<char>, int)>,
    id: Seq<char>,
    ts: Seq<Seq<char>>,
    c: int,
)
    requires
        ts.len() == 4,
        forall|i: int, j: int|
            0 <= i < j < ts.len() ==> sel_key(id, #[trigger] ts[i]) != sel_key(
                id,
                #[trigger] ts[j],
            ),
        forall|i: int| 0 <= i < ts.len() ==> usage_lookup(u, sel_key(id, #[trigger] ts[i]))
            == Some(c),
        0 <= c < usize::MAX,
    ensures
        ({
            let s0 = select_outcome(u, id, ts);
            &&& s0 matches Some(p0) && p0.0 == 0
            &&& {
                let s1 = select_outcome((s0 ->Some_0).1, id, ts);
                &&& s1 matches Some(p1) && p1.0 == 1
                &&& {
                    let s2 = select_outcome((s1 ->Some_0).1, id, ts);
                    &&& s2 matches Some(p2) && p2.0 == 2
                    &&& {
                        let s3 = select_outcome((s2 ->Some_0).1, id, ts);
                        s3 matches Some(p3) && p3.0 == 3
                    }
                }
            }
        }),
{
    lemma_select_equal_counts(u, id, ts, c, 0);
    let u1 = (select_outcome(u, id, ts) ->Some_0).1;
    assert(forall|i: int| 0 <= i < 1 ==> usage_lookup(u1, sel_key(id, #[trigger] ts[i])) == Some(
        c + 1,
    ));
    assert(forall|i: int| 1 <= i < ts.len() ==> usage_lookup(u1, sel_key(id, #[trigger] ts[i]))
        == Some(c));
    lemma_select_equal_counts(u1, id, ts, c, 1);
    let u2 = (select_outcome(u1, id, ts) ->Some_0).1;
    assert(forall|i: int| 0 <= i < 2 ==> usage_lookup(u2, sel_key(id, #[trigger] ts[i])) == Some(
        c + 1,
    ));
    assert(forall|i: int| 2 <= i < ts.len() ==> usage_lookup(u2, sel_key(id, #[trigger] ts[i]))
        == Some(c));
    lemma_select_equal_counts(u2, id, ts, c, 2);
    let u3 = (select_outcome(u2, id, ts) ->Some_0).1;
    assert(forall|i: int| 0 <= i < 3 ==> usage_lookup(u3, sel_key(id, #[trigger] ts[i])) == Some(
        c + 1,
    ));
    assert(forall|i: int| 3 <= i < ts.len() ==> usage_lookup(u3, sel_key(id, #[trigger] ts[i]))
        == Some(c));
    lemma_select_equal_counts(u3, id, ts, c, 3);
}

/// `GOTO` correctness, known target: when the keyword at the front of the
/// stack produces a redirect to position `target` of the script's keywords,
/// the search continues exactly as if that keyword stood at the front of the
/// stack in its place, with the redirect's memory and usage carried over.
pub proof fn lemma_goto_redirects_search(
    script: ScriptV,
    phrase: Seq<char>,
    stack: Seq<crate::script::KeywordV>,
    mem: Seq<Seq<char>>,
    u: Seq<(Seq<char>, int)>,
    fuel: nat,
)
    requires
        stack.len() > 0,
        fuel > 0,
    ensures
        ({
            match crate::run_rules(script, phrase, stack[0].rules, mem, u) {
                KeyOutcome::Goto { target, memory, usage } => (0 <= target
                    < script.keywords.len()) ==> search(script, phrase, stack, mem, u, fuel)
                    == search(
                    script,
                    phrase,
                    seq![script.keywords[target]] + stack.skip(1),
                    memory,
                    usage,
                    (fuel - 1) as nat,
                ),
                _ => true,
            }
        }),
{
}

/// `GOTO` correctness, unknown target: when the selected template redirects
/// to a name that no keyword of the script bears, that template is skipped
/// and selection runs again on the remaining retry budget, with only the
/// skipped template's count grown.
pub proof fn lemma_unknown_goto_skipped(
    script: ScriptV,
    dec: Seq<char>,
    ts: Seq<Seq<char>>,
    caps: Seq<Seq<char>>,
    u: Seq<(Seq<char>, int)>,
    fuel: nat,
    memorise: bool,
)
    requires
        fuel > 0,
        select_outcome(u, dec, ts) matches Some(pair) && goto_target(
            ts[pair.0],
        ) matches Some(g) && crate::phrase::keyword_index(script.keywords, g) is None,
    ensures
        crate::goto_select(script, dec, ts, caps, u, fuel, memorise) == crate::goto_select(
            script,
            dec,
            ts,
            caps,
            (select_outcome(u, dec, ts) ->Some_0).1,
            (fuel - 1) as nat,
            memorise,
        ),
{
}

/// Reflection involution on a two-way pair: with a single two-way reflection
/// entry, reflecting any word twice gives the word back.
pub proof fn lemma_reflect_word_twoway_involution(rs: Seq<ReflectionV>, w: Seq<char>)
    requires
        rs.len() == 1,
        rs[0].twoway,
    ensures
        reflect_word(reflect_word(w, rs), rs) == w,
{
    assert(rs.skip(1) =~~= Seq::<ReflectionV>::empty());
    if rs[0].word == w || (rs[0].twoway && rs[0].inverse == w) {
        assert(reflection_index(rs, w) == Some(0int));
        if rs[0].word == w {
            let r = rs[0].inverse;
            assert(reflect_word(w, rs) == r);
            assert(reflection_index(rs, r) == Some(0int));
        } else {
            let r = rs[0].word;
            assert(reflect_word(w, rs) == r);
            assert(reflection_index(rs, r) == Some(0int));
        }
    } else {
        assert(reflection_index(Seq::<ReflectionV>::empty(), w) is None);
        assert(reflection_index(rs, w) is None);
        assert(reflect_word(w, rs) == w);
    }
}

} // verus!
