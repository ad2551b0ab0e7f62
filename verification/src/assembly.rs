//! The back of the pipeline: synonym permutations of a decomposition rule,
//! regex matching (behind a trusted wrapper), reflection of captured text,
//! template assembly, and `GOTO` redirection.

use crate::alphabet::{alphanumerics_of, letters_of, scrub_alphanumerics, scrub_letters};
use crate::script::{Reflection, ReflectionV, Synonym, SynonymV};
use crate::text::{
    contains_sub, count_char, is_space_char, parse_index_spec, replace_all, trimmed, words_of,
    count_occurrences, find_sub, parse_capture_index, push_all, replace_chars, to_chars, to_text,
    trim_chars, words_chars,
};
use vstd::prelude::*;

verus! {

/// What `regex::Regex::new` followed by `Regex::captures` yields for a
/// pattern and a text: nothing when the pattern is invalid or does not match
/// the text, and otherwise the capture groups (group 0 first, a
/// non-participating group as the empty string). It depends on the two
/// strings alone.
pub uninterp spec fn regex_match(pattern: Seq<char>, text: Seq<char>) -> Option<Seq<Seq<char>>>;

/// Relies on `regex::Regex::new` and `regex::Regex::captures`: compiling a
/// pattern and matching it against a text is a function of the two strings
/// alone, named `regex_match`; an invalid pattern is treated as matching
/// nothing.
#[verifier::external_body]
pub fn match_phrase(pattern: &String, text: &String) -> (r: Option<Vec<String>>)
    ensures
        r.deep_view() == regex_match(pattern@, text@),
{
    let re = match regex::Regex::new(pattern.as_str()) {
        Ok(re) => re,
        Err(_) => return None,
    };
    let caps = re.captures(text.as_str())?;
    Some(
        caps.iter().map(
            |m| match m {
                Some(mm) => mm.as_str().to_string(),
                None => String::new(),
            },
        ).collect(),
    )
}

/// The synonym marker that flags a word of a decomposition rule for
/// expansion.
pub open spec fn marker() -> char {
    '@'
}

/// Whether `c` occurs in `v`.
pub fn contains_char(v: &Vec<char>, c: char) -> (r: bool)
    ensures
        r == v@.contains(c),
{
    let mut i: usize = 0;
    while i < v.len()
        invariant
            i <= v.len(),
            forall|j: int| 0 <= j < i ==> v@[j] != c,
        decreases v@.len() - i,
    {
        if v[i] == c {
            return true;
        }
        i = i + 1;
    }
    proof {
        assert(forall|j: int| 0 <= j < v@.len() ==> v@[j] != c);
    }
    false
}

/// The position of the first word bearing the synonym marker, if any.
pub open spec fn marker_word_index(ws: Seq<Seq<char>>) -> Option<int>
    decreases ws.len(),
{
    if ws.len() == 0 {
        None
    } else if ws[0].contains(marker()) {
        Some(0)
    } else {
        match marker_word_index(ws.skip(1)) {
            Some(j) => Some(j + 1),
            None => None,
        }
    }
}

proof fn lemma_marker_word_index_first(ws: Seq<Seq<char>>, j: int)
    requires
        0 <= j < ws.len(),
        ws[j].contains(marker()),
        forall|k: int| 0 <= k < j ==> !(#[trigger] ws[k]).contains(marker()),
    ensures
        marker_word_index(ws) == Some(j),
    decreases ws.len(),
{
    if j > 0 {
        assert(ws.skip(1)[j - 1] == ws[j]);
        assert(forall|k: int| 0 <= k < j - 1 ==> ws.skip(1)[k] == ws[k + 1]);
        lemma_marker_word_index_first(ws.skip(1), j - 1);
    }
}

proof fn lemma_marker_word_index_none(ws: Seq<Seq<char>>)
    requires
        forall|k: int| 0 <= k < ws.len() ==> !(#[trigger] ws[k]).contains(marker()),
    ensures
        marker_word_index(ws) is None,
    decreases ws.len(),
{
    if ws.len() > 0 {
        assert(forall|k: int| 0 <= k < ws.skip(1).len() ==> ws.skip(1)[k] == ws[k + 1]);
        lemma_marker_word_index_none(ws.skip(1));
    }
}

/// The position of the first synonym class whose head word is `w`, if any.
pub open spec fn synonym_index(syns: Seq<SynonymV>, w: Seq<char>) -> Option<int>
    decreases syns.len(),
{
    if syns.len() == 0 {
        None
    } else if syns[0].word == w {
        Some(0)
    } else {
        match synonym_index(syns.skip(1), w) {
            Some(j) => Some(j + 1),
            None => None,
        }
    }
}

proof fn lemma_synonym_index_first(syns: Seq<SynonymV>, w: Seq<char>, j: int)
    requires
        0 <= j < syns.len(),
        syns[j].word == w,
        forall|k: int| 0 <= k < j ==> syns[k].word != w,
    ensures
        synonym_index(syns, w) == Some(j),
    decreases syns.len(),
{
    if j > 0 {
        assert(syns.skip(1)[j - 1] == syns[j]);
        assert(forall|k: int| 0 <= k < j - 1 ==> syns.skip(1)[k] == syns[k + 1]);
        lemma_synonym_index_first(syns.skip(1), w, j - 1);
    }
}

proof fn lemma_synonym_index_none(syns: Seq<SynonymV>, w: Seq<char>)
    requires
        forall|k: int| 0 <= k < syns.len() ==> syns[k].word != w,
    ensures
        synonym_index(syns, w) is None,
    decreases syns.len(),
{
    if syns.len() > 0 {
        assert(forall|k: int| 0 <= k < syns.skip(1).len() ==> syns.skip(1)[k] == syns[k + 1]);
        lemma_synonym_index_none(syns.skip(1), w);
    }
}

/// The regex permutations of a decomposition rule: a rule with more than one
/// marker is malformed and yields none; otherwise the rule with markers
/// stripped comes first, and if the marked word's letters name a synonym
/// class, one further pattern per equivalent follows, each with the letters
/// replaced by that equivalent.
pub open spec fn perms_spec(dec: Seq<char>, syns: Seq<SynonymV>) -> Seq<Seq<char>> {
    if count_char(dec, marker()) > 1 {
        Seq::empty()
    } else {
        let base = if count_char(dec, marker()) == 0 {
            dec
        } else {
            replace_all(dec, seq![marker()], Seq::empty())
        };
        seq![base] + (match marker_word_index(words_of(dec)) {
            None => Seq::<Seq<char>>::empty(),
            Some(wi) => {
                let scrubbed = letters_of(words_of(dec)[wi]);
                match synonym_index(syns, scrubbed) {
                    None => Seq::<Seq<char>>::empty(),
                    Some(si) => syns[si].equivalents.map_values(
                        |e: Seq<char>|
                            replace_all(
                                replace_all(dec, scrubbed, e),
                                seq![marker()],
                                Seq::<char>::empty(),
                            ),
                    ),
                }
            },
        })
    }
}

/// Expands a decomposition rule into its regex pattern sources.
pub fn permutations(decomposition: &str, synonyms: &Vec<Synonym>) -> (r: Vec<String>)
    ensures
        r.deep_view() == perms_spec(decomposition@, synonyms.deep_view()),
{
    let dec = to_chars(decomposition);
    let ghost sv = synonyms.deep_view();
    let mut out: Vec<String> = Vec::new();
    let mut at: Vec<char> = Vec::new();
    at.push('@');
    proof {
        assert(at@ =~= seq![marker()]);
    }
    if count_occurrences(&dec, '@') > 1 {
        proof {
            assert(out.deep_view() =~~= perms_spec(decomposition@, sv));
        }
        return out;
    }
    if count_occurrences(&dec, '@') == 0 {
        out.push(to_text(&dec));
    } else {
        let empty: Vec<char> = Vec::new();
        let stripped = replace_chars(&dec, &at, &empty);
        out.push(to_text(&stripped));
    }
    let ws = words_chars(&dec);
    let ghost wv = ws.deep_view();
    let mut mi: usize = 0;
    let mut has_marker = false;
    while mi < ws.len() && !has_marker
        invariant
            mi <= ws.len(),
            wv == ws.deep_view(),
            wv.len() == ws@.len(),
            !has_marker ==> forall|k: int| 0 <= k < mi ==> !(#[trigger] wv[k]).contains(marker()),
            has_marker ==> 0 < mi <= ws@.len() && wv[mi - 1].contains(marker()) && (forall|k: int|
                0 <= k < mi - 1 ==> !(#[trigger] wv[k]).contains(marker())),
        decreases ws@.len() - mi,
    {
        proof {
            assert(wv[mi as int] == ws@[mi as int]@);
        }
        if contains_char(&ws[mi], '@') {
            has_marker = true;
        }
        mi = mi + 1;
    }
    if !has_marker {
        proof {
            lemma_marker_word_index_none(wv);
            assert(wv == words_of(dec@));
            assert(out.deep_view() =~~= perms_spec(decomposition@, sv));
        }
        return out;
    }
    let ghost wi = mi - 1;
    proof {
        lemma_marker_word_index_first(wv, wi as int);
    }
    let scrubbed = scrub_letters(&ws[mi - 1]);
    proof {
        assert(wv[wi as int] == ws@[wi as int]@);
        assert(scrubbed@ == letters_of(wv[wi as int]));
    }
    let mut si: usize = 0;
    let mut has_syn = false;
    while si < synonyms.len() && !has_syn
        invariant
            si <= synonyms.len(),
            sv == synonyms.deep_view(),
            sv.len() == synonyms@.len(),
            !has_syn ==> forall|k: int| 0 <= k < si ==> sv[k].word != scrubbed@,
            has_syn ==> 0 < si <= synonyms@.len() && sv[si - 1].word == scrubbed@ && (forall|
                k: int,
            |
                0 <= k < si - 1 ==> sv[k].word != scrubbed@),
        decreases synonyms@.len() - si,
    {
        let head = to_chars(synonyms[si].word.as_str());
        proof {
            assert(sv[si as int] == synonyms@[si as int]@);
            assert(head@ == sv[si as int].word);
        }
        if crate::text::chars_eq(&head, &scrubbed) {
            has_syn = true;
        }
        si = si + 1;
    }
    if !has_syn {
        proof {
            lemma_synonym_index_none(sv, scrubbed@);
            assert(out.deep_view() =~~= perms_spec(decomposition@, sv));
        }
        return out;
    }
    proof {
        lemma_synonym_index_first(sv, scrubbed@, si - 1);
    }
    let ghost eqs = sv[si - 1].equivalents;
    let ghost base_out = out.deep_view();
    let mut j: usize = 0;
    proof {
        assert(eqs.take(0) =~~= Seq::<Seq<char>>::empty());
        assert(out.deep_view() =~~= base_out + eqs.take(0).map_values(
            |e: Seq<char>|
                replace_all(replace_all(dec@, scrubbed@, e), seq![marker()], Seq::<char>::empty()),
        ));
    }
    while j < synonyms[si - 1].equivalents.len()
        invariant
            j <= synonyms@[si - 1].equivalents@.len(),
            0 < si <= synonyms@.len(),
            sv == synonyms.deep_view(),
            sv.len() == synonyms@.len(),
            eqs == sv[si - 1].equivalents,
            eqs.len() == synonyms@[si - 1].equivalents@.len(),
            at@ == seq![marker()],
            dec@ == decomposition@,
            scrubbed@ == scrubbed@,
            out.deep_view() == base_out + eqs.take(j as int).map_values(
                |e: Seq<char>|
                    replace_all(
                        replace_all(dec@, scrubbed@, e),
                        seq![marker()],
                        Seq::<char>::empty(),
                    ),
            ),
        decreases synonyms@[si - 1].equivalents@.len() - j,
    {
        let eq = to_chars(synonyms[si - 1].equivalents[j].as_str());
        proof {
            assert(sv[si - 1] == synonyms@[si - 1]@);
            assert(eq@ == eqs[j as int]);
        }
        let replaced = replace_chars(&dec, &scrubbed, &eq);
        let empty: Vec<char> = Vec::new();
        let cleaned = replace_chars(&replaced, &at, &empty);
        let ghost pre = out.deep_view();
        out.push(to_text(&cleaned));
        j = j + 1;
        proof {
            assert(cleaned@ == replace_all(
                replace_all(dec@, scrubbed@, eqs[j - 1]),
                seq![marker()],
                Seq::<char>::empty(),
            ));
            assert(out.deep_view() =~~= pre.push(cleaned@));
            assert(eqs.take(j as int) =~~= eqs.take(j - 1).push(eqs[j - 1]));
            assert(out.deep_view() =~~= base_out + eqs.take(j as int).map_values(
                |e: Seq<char>|
                    replace_all(
                        replace_all(dec@, scrubbed@, e),
                        seq![marker()],
                        Seq::<char>::empty(),
                    ),
            ));
        }
    }
    proof {
        assert(eqs.take(eqs.len() as int) =~~= eqs);
        assert(out.deep_view() =~~= perms_spec(decomposition@, sv));
    }
    out
}

/// The position of the first reflection entry that applies to `w`: one whose
/// word is `w`, or a two-way one whose inverse is `w`.
pub open spec fn reflection_index(rs: Seq<ReflectionV>, w: Seq<char>) -> Option<int>
    decreases rs.len(),
{
    if rs.len() == 0 {
        None
    } else if rs[0].word == w || (rs[0].twoway && rs[0].inverse == w) {
        Some(0)
    } else {
        match reflection_index(rs.skip(1), w) {
            Some(j) => Some(j + 1),
            None => None,
        }
    }
}

proof fn lemma_reflection_index_first(rs: Seq<ReflectionV>, w: Seq<char>, j: int)
    requires
        0 <= j < rs.len(),
        rs[j].word == w || (rs[j].twoway && rs[j].inverse == w),
        forall|k: int| 0 <= k < j ==> !(rs[k].word == w || (rs[k].twoway && rs[k].inverse == w)),
    ensures
        reflection_index(rs, w) == Some(j),
    decreases rs.len(),
{
    if j > 0 {
        assert(rs.skip(1)[j - 1] == rs[j]);
        assert(forall|k: int| 0 <= k < j - 1 ==> rs.skip(1)[k] == rs[k + 1]);
        lemma_reflection_index_first(rs.skip(1), w, j - 1);
    }
}

proof fn lemma_reflection_index_none(rs: Seq<ReflectionV>, w: Seq<char>)
    requires
        forall|k: int| 0 <= k < rs.len() ==> !(rs[k].word == w || (rs[k].twoway && rs[k].inverse
            == w)),
    ensures
        reflection_index(rs, w) is None,
    decreases rs.len(),
{
    if rs.len() > 0 {
        assert(forall|k: int| 0 <= k < rs.skip(1).len() ==> rs.skip(1)[k] == rs[k + 1]);
        lemma_reflection_index_none(rs.skip(1), w);
    }
}

/// One word after reflection: the first applicable entry decides; a direct
/// hit yields the inverse, a two-way inverse hit yields the word, and a word
/// with no applicable entry stands unchanged.
pub open spec fn reflect_word(w: Seq<char>, rs: Seq<ReflectionV>) -> Seq<char> {
    match reflection_index(rs, w) {
        None => w,
        Some(i) => if rs[i].word == w {
            rs[i].inverse
        } else {
            rs[i].word
        },
    }
}

/// The reflected words, each followed by one space.
pub open spec fn reflect_cat(ws: Seq<Seq<char>>, rs: Seq<ReflectionV>) -> Seq<char>
    decreases ws.len(),
{
    if ws.len() == 0 {
        Seq::empty()
    } else {
        reflect_word(ws[0], rs) + seq![' '] + reflect_cat(ws.skip(1), rs)
    }
}

/// A text after reflection: each whitespace-delimited word is reflected, the
/// words are joined by single spaces, and the result is trimmed.
pub open spec fn reflected(s: Seq<char>, rs: Seq<ReflectionV>) -> Seq<char> {
    trimmed(reflect_cat(words_of(s), rs))
}

/// Reflects each word of `input` and joins the results with single spaces.
pub fn reflect(input: &str, reflections: &Vec<Reflection>) -> (r: String)
    ensures
        r@ == reflected(input@, reflections.deep_view()),
{
    let chars = to_chars(input);
    let ws = words_chars(&chars);
    let ghost wv = ws.deep_view();
    let ghost rv = reflections.deep_view();
    let mut buf: Vec<char> = Vec::new();
    let mut i: usize = 0;
    proof {
        assert(wv.skip(0) =~~= wv);
        assert(buf@ + reflect_cat(wv.skip(0), rv) =~= reflect_cat(wv, rv));
    }
    while i < ws.len()
        invariant
            i <= ws.len(),
            wv == ws.deep_view(),
            wv.len() == ws@.len(),
            rv == reflections.deep_view(),
            reflect_cat(wv, rv) == buf@ + reflect_cat(wv.skip(i as int), rv),
        decreases ws@.len() - i,
    {
        let w = &ws[i];
        proof {
            assert(wv[i as int] == ws@[i as int]@);
        }
        let mut ri: usize = 0;
        let mut hit = false;
        while ri < reflections.len() && !hit
            invariant
                ri <= reflections.len(),
                rv == reflections.deep_view(),
                rv.len() == reflections@.len(),
                w@ == wv[i as int],
                i < ws@.len(),
                wv == ws.deep_view(),
                !hit ==> forall|k: int|
                    0 <= k < ri ==> !(rv[k].word == wv[i as int] || (rv[k].twoway && rv[k].inverse
                        == wv[i as int])),
                hit ==> 0 < ri <= reflections@.len() && (rv[ri - 1].word == wv[i as int] || (rv[ri
                    - 1].twoway && rv[ri - 1].inverse == wv[i as int])) && (forall|k: int|
                    0 <= k < ri - 1 ==> !(rv[k].word == wv[i as int] || (rv[k].twoway
                        && rv[k].inverse == wv[i as int]))),
            decreases reflections@.len() - ri,
        {
            let word = to_chars(reflections[ri].word.as_str());
            let inverse = to_chars(reflections[ri].inverse.as_str());
            proof {
                assert(rv[ri as int] == reflections@[ri as int]@);
                assert(word@ == rv[ri as int].word);
                assert(inverse@ == rv[ri as int].inverse);
            }
            if crate::text::chars_eq(&word, w) || (reflections[ri].twoway && crate::text::chars_eq(
                &inverse,
                w,
            )) {
                hit = true;
            }
            ri = ri + 1;
        }
        let ghost pre = buf@;
        if hit {
            proof {
                lemma_reflection_index_first(rv, wv[i as int], ri - 1);
            }
            let word = to_chars(reflections[ri - 1].word.as_str());
            proof {
                assert(rv[ri - 1] == reflections@[ri - 1]@);
                assert(word@ == rv[ri - 1].word);
            }
            if crate::text::chars_eq(&word, w) {
                let inverse = to_chars(reflections[ri - 1].inverse.as_str());
                proof {
                    assert(inverse@ == rv[ri - 1].inverse);
                }
                push_all(&mut buf, &inverse);
            } else {
                push_all(&mut buf, &word);
            }
        } else {
            proof {
                lemma_reflection_index_none(rv, wv[i as int]);
            }
            push_all(&mut buf, &ws[i]);
        }
        buf.push(' ');
        i = i + 1;
        proof {
            let tail = wv.skip(i - 1);
            assert(tail[0] == wv[i - 1]);
            assert(tail.skip(1) =~~= wv.skip(i as int));
            assert(reflect_cat(tail, rv) == reflect_word(wv[i - 1], rv) + seq![' ']
                + reflect_cat(wv.skip(i as int), rv));
            assert(buf@ =~= pre + reflect_word(wv[i - 1], rv) + seq![' ']);
            assert(buf@ + reflect_cat(wv.skip(i as int), rv) =~= reflect_cat(wv, rv));
        }
    }
    proof {
        assert(wv.skip(wv.len() as int) =~~= Seq::<Seq<char>>::empty());
        assert(reflect_cat(Seq::<Seq<char>>::empty(), rv) == Seq::<char>::empty());
        assert(buf@ =~= reflect_cat(wv, rv));
        assert(chars@ == input@);
    }
    let trimmed_buf = trim_chars(&buf);
    to_text(&trimmed_buf)
}

/// One assembly step: a word bearing `$` names a capture group; its
/// alphanumeric characters must read as an index within the captures, the
/// group is reflected and substituted for those characters everywhere in the
/// text so far, and every `$` is then removed. A word without `$` changes
/// nothing.
pub open spec fn assemble_step(
    temp: Seq<char>,
    w: Seq<char>,
    caps: Seq<Seq<char>>,
    rs: Seq<ReflectionV>,
) -> Option<Seq<char>> {
    if !w.contains('$') {
        Some(temp)
    } else {
        let scrubbed = alphanumerics_of(w);
        match parse_index_spec(scrubbed) {
            None => None,
            Some(n) => if n < caps.len() {
                Some(
                    replace_all(
                        replace_all(temp, scrubbed, reflected(caps[n], rs)),
                        seq!['$'],
                        Seq::<char>::empty(),
                    ),
                )
            } else {
                None
            },
        }
    }
}

/// The assembly of a template over its own words: each word is processed in
/// order and a failing step fails the whole assembly.
pub open spec fn assemble_rec(
    temp: Seq<char>,
    ws: Seq<Seq<char>>,
    caps: Seq<Seq<char>>,
    rs: Seq<ReflectionV>,
) -> Option<Seq<char>>
    decreases ws.len(),
{
    if ws.len() == 0 {
        Some(temp)
    } else {
        match assemble_step(temp, ws[0], caps, rs) {
            None => None,
            Some(t2) => assemble_rec(t2, ws.skip(1), caps, rs),
        }
    }
}

/// The assembled response for a template and the capture groups of a match:
/// every back-reference of the template substituted by its reflected capture,
/// or nothing when a back-reference is not a number or lies outside the
/// captures.
pub open spec fn assembled(
    rule: Seq<char>,
    caps: Seq<Seq<char>>,
    rs: Seq<ReflectionV>,
) -> Option<Seq<char>> {
    assemble_rec(rule, words_of(rule), caps, rs)
}

/// Assembles a reassembly template with the capture groups of a match
/// (group 0 first), reflecting each substituted capture.
pub fn assemble(rule: &str, captures: &Vec<String>, reflections: &Vec<Reflection>) -> (r: Option<
    String,
>)
    ensures
        ({
            let spec_r = assembled(rule@, captures.deep_view(), reflections.deep_view());
            &&& (r is Some) == (spec_r is Some)
            &&& (r matches Some(s) ==> spec_r == Some(s@))
        }),
{
    let chars = to_chars(rule);
    let ws = words_chars(&chars);
    let ghost wv = ws.deep_view();
    let ghost cv = captures.deep_view();
    let ghost rv = reflections.deep_view();
    let mut temp = to_chars(rule);
    let mut dollar: Vec<char> = Vec::new();
    dollar.push('$');
    proof {
        assert(dollar@ =~= seq!['$']);
        assert(wv.skip(0) =~~= wv);
    }
    let mut i: usize = 0;
    while i < ws.len()
        invariant
            i <= ws.len(),
            wv == ws.deep_view(),
            wv.len() == ws@.len(),
            cv == captures.deep_view(),
            cv.len() == captures@.len(),
            rv == reflections.deep_view(),
            dollar@ == seq!['$'],
            assembled(rule@, cv, rv) == assemble_rec(temp@, wv.skip(i as int), cv, rv),
        decreases ws@.len() - i,
    {
        let ghost tail = wv.skip(i as int);
        proof {
            assert(tail[0] == wv[i as int]);
            assert(tail.skip(1) =~~= wv.skip(i + 1));
            assert(wv[i as int] == ws@[i as int]@);
        }
        if contains_char(&ws[i], '$') {
            let scrubbed = scrub_alphanumerics(&ws[i]);
            proof {
                assert(scrubbed@ == alphanumerics_of(wv[i as int]));
            }
            match parse_capture_index(&scrubbed) {
                None => {
                    proof {
                        assert(assemble_step(temp@, wv[i as int], cv, rv) is None);
                        assert(assembled(rule@, cv, rv) is None);
                    }
                    return None;
                },
                Some(n) => {
                    if n >= captures.len() {
                        proof {
                            assert(assemble_step(temp@, wv[i as int], cv, rv) is None);
                            assert(assembled(rule@, cv, rv) is None);
                        }
                        return None;
                    }
                    let refl = reflect(captures[n].as_str(), reflections);
                    let refl_chars = to_chars(refl.as_str());
                    proof {
                        assert(captures@[n as int]@ == cv[n as int]);
                        assert(refl_chars@ == reflected(cv[n as int], rv));
                    }
                    let substituted = replace_chars(&temp, &scrubbed, &refl_chars);
                    let empty: Vec<char> = Vec::new();
                    temp = replace_chars(&substituted, &dollar, &empty);
                },
            }
        }
        i = i + 1;
        proof {
            assert(assembled(rule@, cv, rv) == assemble_rec(temp@, wv.skip(i as int), cv, rv));
        }
    }
    proof {
        assert(wv.skip(wv.len() as int) =~~= Seq::<Seq<char>>::empty());
        assert(assembled(rule@, cv, rv) == Some(temp@));
    }
    Some(to_text(&temp))
}

/// The redirection marker inside a reassembly template.
pub open spec fn goto_marker() -> Seq<char> {
    seq!['G', 'O', 'T', 'O']
}

/// `s` with every whitespace character removed.
pub open spec fn sans_space(s: Seq<char>) -> Seq<char>
    decreases s.len(),
{
    if s.len() == 0 {
        Seq::empty()
    } else {
        sans_space(s.drop_last()) + if is_space_char(s.last()) {
            Seq::<char>::empty()
        } else {
            seq![s.last()]
        }
    }
}

/// The redirection target of a template: when the template holds the marker
/// `GOTO` anywhere, the target is the template with every marker occurrence
/// and every whitespace character removed.
pub open spec fn goto_target(s: Seq<char>) -> Option<Seq<char>> {
    if contains_sub(s, goto_marker()) {
        Some(sans_space(replace_all(s, goto_marker(), Seq::<char>::empty())))
    } else {
        None
    }
}

/// The redirection target of a template, if it is a redirection.
pub fn is_goto(statement: &str) -> (r: Option<String>)
    ensures
        (r is Some) == (goto_target(statement@) is Some),
        r matches Some(g) ==> goto_target(statement@) == Some(g@),
{
    let chars = to_chars(statement);
    let mut pat: Vec<char> = Vec::new();
    pat.push('G');
    pat.push('O');
    pat.push('T');
    pat.push('O');
    proof {
        assert(pat@ =~= goto_marker());
    }
    if !find_sub(&chars, &pat) {
        return None;
    }
    let empty: Vec<char> = Vec::new();
    let stripped = replace_chars(&chars, &pat, &empty);
    let mut out: Vec<char> = Vec::new();
    let mut i: usize = 0;
    while i < stripped.len()
        invariant
            i <= stripped.len(),
            out@ == sans_space(stripped@.take(i as int)),
        decreases stripped@.len() - i,
    {
        let c = stripped[i];
        proof {
            let t = stripped@.take(i + 1);
            assert(t.drop_last() =~= stripped@.take(i as int));
            assert(t.last() == stripped@[i as int]);
        }
        if !crate::text::is_space(c) {
            out.push(c);
        }
        i = i + 1;
    }
    proof {
        assert(stripped@.take(stripped@.len() as int) =~= stripped@);
    }
    Some(to_text(&out))
}

} // verus!
