//! A verified core of an ELIZA-style conversation engine. A data-driven
//! script of keywords, decomposition patterns and reassembly templates turns
//! one line of user input into one line of response; the engine keeps a
//! deferred-memory queue and a least-used record of chosen templates across
//! the turns of a session.
//!
//! One turn runs as follows: the input is lowercased and transformed, cut
//! into phrases, and the first phrase that mentions a keyword is searched,
//! keywords in rank order. A matching decomposition rule selects a reassembly
//! template, whose back-references quote reflected fragments of the phrase
//! back at the speaker; a `GOTO` template redirects the search to another
//! keyword. A rule marked `memorise` queues its response for a later turn
//! instead of answering at once. When the search yields nothing, a memorized
//! response or a fallback line answers.

pub mod alphabet;
pub mod assembly;
pub mod laws;
pub mod phrase;
pub mod script;
pub mod text;
pub mod usage;

use crate::assembly::{assembled, goto_target, perms_spec, regex_match};
use crate::assembly::{assemble, is_goto, match_phrase, permutations};
use crate::phrase::{active_selection, keyword_index, sort_by_rank, transformed_from, phrases_of};
use crate::phrase::{get_phrases, populate_keystack, transform};
use crate::script::{Keyword, KeywordV, Rule, RuleV, Script, ScriptV};
use crate::text::{lower_of, lowercase};
use crate::usage::{select_outcome, select_template, usage_view};
use vstd::prelude::*;

verus! {

/// The capture groups of the first permutation that matches the phrase, if
/// any permutation does.
pub open spec fn first_match(perms: Seq<Seq<char>>, phrase: Seq<char>) -> Option<Seq<Seq<char>>>
    decreases perms.len(),
{
    if perms.len() == 0 {
        None
    } else {
        match regex_match(perms[0], phrase) {
            Some(caps) => Some(caps),
            None => first_match(perms.skip(1), phrase),
        }
    }
}

/// What trying one matched rule produces.
pub enum TryRule {
    /// No permutation of the rule matched the phrase; nothing changed.
    NoMatch,
    /// A permutation matched but no response came of it; template usage may
    /// have changed.
    Fail { usage: Seq<(Seq<char>, int)> },
    /// The selected template redirects to the keyword at this position.
    Redirect { target: int, usage: Seq<(Seq<char>, int)> },
    /// An assembled response to give at once.
    Reply { text: Seq<char>, usage: Seq<(Seq<char>, int)> },
    /// An assembled response to queue for a later turn.
    Memorize { text: Seq<char>, usage: Seq<(Seq<char>, int)> },
}

/// Template selection under `GOTO` resolution: a selected template that
/// redirects to a known keyword ends the search of this rule; one that
/// redirects to an unknown keyword is skipped and selection runs again, at
/// most `fuel` more times; an ordinary template is assembled.
pub open spec fn goto_select(
    script: ScriptV,
    dec: Seq<char>,
    ts: Seq<Seq<char>>,
    caps: Seq<Seq<char>>,
    u: Seq<(Seq<char>, int)>,
    fuel: nat,
    memorise: bool,
) -> TryRule
    decreases fuel,
{
    match select_outcome(u, dec, ts) {
        None => TryRule::Fail { usage: u },
        Some(pair) => {
            let t = ts[pair.0];
            let u1 = pair.1;
            match goto_target(t) {
                Some(g) => match keyword_index(script.keywords, g) {
                    Some(ki) => TryRule::Redirect { target: ki, usage: u1 },
                    None => if fuel > 0 {
                        goto_select(script, dec, ts, caps, u1, (fuel - 1) as nat, memorise)
                    } else {
                        TryRule::Fail { usage: u1 }
                    },
                },
                None => match assembled(t, caps, script.reflections) {
                    None => TryRule::Fail { usage: u1 },
                    Some(text) => if memorise {
                        TryRule::Memorize { text, usage: u1 }
                    } else {
                        TryRule::Reply { text, usage: u1 }
                    },
                },
            }
        },
    }
}

/// What trying one rule against the phrase produces: the first matching
/// permutation of the rule, if any, selects a template under `GOTO`
/// resolution.
pub open spec fn try_rule(
    script: ScriptV,
    phrase: Seq<char>,
    rule: RuleV,
    u: Seq<(Seq<char>, int)>,
) -> TryRule {
    match first_match(perms_spec(rule.decomposition_rule, script.synonyms), phrase) {
        None => TryRule::NoMatch,
        Some(caps) => goto_select(
            script,
            rule.decomposition_rule,
            rule.reassembly_rules,
            caps,
            u,
            rule.reassembly_rules.len(),
            rule.memorise,
        ),
    }
}

/// What working through one keyword's rules produces.
pub enum KeyOutcome {
    /// A response to give at once.
    Done { text: Seq<char>, memory: Seq<Seq<char>>, usage: Seq<(Seq<char>, int)> },
    /// A redirect to the keyword at this position.
    Goto { target: int, memory: Seq<Seq<char>>, usage: Seq<(Seq<char>, int)> },
    /// Every rule tried, none answered.
    Exhausted { memory: Seq<Seq<char>>, usage: Seq<(Seq<char>, int)> },
}

/// Tries a keyword's rules in declaration order: a failing or unmatched rule
/// is followed by the next, a memorized response is queued and the search
/// continues, and a reply or a redirect ends the keyword's turn.
pub open spec fn run_rules(
    script: ScriptV,
    phrase: Seq<char>,
    rules: Seq<RuleV>,
    mem: Seq<Seq<char>>,
    u: Seq<(Seq<char>, int)>,
) -> KeyOutcome
    decreases rules.len(),
{
    if rules.len() == 0 {
        KeyOutcome::Exhausted { memory: mem, usage: u }
    } else {
        match try_rule(script, phrase, rules[0], u) {
            TryRule::NoMatch => run_rules(script, phrase, rules.skip(1), mem, u),
            TryRule::Fail { usage } => run_rules(script, phrase, rules.skip(1), mem, usage),
            TryRule::Memorize { text, usage } => run_rules(
                script,
                phrase,
                rules.skip(1),
                mem.push(text),
                usage,
            ),
            TryRule::Reply { text, usage } => KeyOutcome::Done { text, memory: mem, usage },
            TryRule::Redirect { target, usage } => KeyOutcome::Goto { target, memory: mem, usage },
        }
    }
}

/// What a whole search produces: a response, if one was found, and the
/// memory queue and usage record as the search left them.
pub struct SearchOut {
    pub response: Option<Seq<char>>,
    pub memory: Seq<Seq<char>>,
    pub usage: Seq<(Seq<char>, int)>,
}

/// The search over the keystack: keywords are popped from the front, a
/// redirect pushes the named keyword at the front, and the search ends with
/// the first reply, when the stack empties, or when `fuel` keyword pops have
/// been spent — the cap that keeps a cyclic chain of redirects finite.
pub open spec fn search(
    script: ScriptV,
    phrase: Seq<char>,
    stack: Seq<KeywordV>,
    mem: Seq<Seq<char>>,
    u: Seq<(Seq<char>, int)>,
    fuel: nat,
) -> SearchOut
    decreases fuel,
{
    if stack.len() == 0 || fuel == 0 {
        SearchOut { response: None, memory: mem, usage: u }
    } else {
        match run_rules(script, phrase, stack[0].rules, mem, u) {
            KeyOutcome::Done { text, memory, usage } => SearchOut {
                response: Some(text),
                memory,
                usage,
            },
            KeyOutcome::Goto { target, memory, usage } => if 0 <= target
                < script.keywords.len() {
                search(
                    script,
                    phrase,
                    seq![script.keywords[target]] + stack.skip(1),
                    memory,
                    usage,
                    (fuel - 1) as nat,
                )
            } else {
                SearchOut { response: None, memory, usage }
            },
            KeyOutcome::Exhausted { memory, usage } => search(
                script,
                phrase,
                stack.skip(1),
                memory,
                usage,
                (fuel - 1) as nat,
            ),
        }
    }
}

/// The keyword pops a search may spend: one per stack entry and one per
/// script keyword, held to the machine's limit.
pub open spec fn search_fuel(stack_len: int, keyword_count: int) -> int {
    if stack_len + keyword_count <= usize::MAX {
        stack_len + keyword_count
    } else {
        usize::MAX as int
    }
}

/// What one turn does, before the random choice among fallbacks: answer from
/// the search, answer from the memory queue, or fall back.
pub enum RespondModel {
    /// The search answered.
    Answer { text: Seq<char>, memory: Seq<Seq<char>>, usage: Seq<(Seq<char>, int)> },
    /// No answer was found and the memory queue's front answers.
    Memory { text: Seq<char>, memory: Seq<Seq<char>>, usage: Seq<(Seq<char>, int)> },
    /// No answer and no memory: a fallback line answers.
    Fallback { memory: Seq<Seq<char>>, usage: Seq<(Seq<char>, int)> },
}

/// One whole turn: the input is lowercased and transformed, cut into
/// phrases, and the first phrase mentioning a keyword is searched with the
/// keystack sorted by rank. The search's reply answers the turn; otherwise
/// the front of the memory queue; otherwise a fallback.
pub open spec fn respond_model(
    script: ScriptV,
    mem: Seq<Seq<char>>,
    u: Seq<(Seq<char>, int)>,
    input: Seq<char>,
) -> RespondModel {
    let normalized = transformed_from(lower_of(input), script.transforms);
    let phrases = phrases_of(normalized);
    match active_selection(script.keywords, phrases) {
        Some(pair) => {
            let stack = sort_by_rank(pair.1);
            let out = search(
                script,
                pair.0,
                stack,
                mem,
                u,
                search_fuel(stack.len() as int, script.keywords.len() as int) as nat,
            );
            match out.response {
                Some(text) => RespondModel::Answer { text, memory: out.memory, usage: out.usage },
                None => if out.memory.len() > 0 {
                    RespondModel::Memory {
                        text: out.memory[0],
                        memory: out.memory.skip(1),
                        usage: out.usage,
                    }
                } else {
                    RespondModel::Fallback { memory: out.memory, usage: out.usage }
                },
            }
        },
        None => if mem.len() > 0 {
            RespondModel::Memory { text: mem[0], memory: mem.skip(1), usage: u }
        } else {
            RespondModel::Fallback { memory: mem, usage: u }
        },
    }
}

/// A redirect produced by template selection always names a position within
/// the script's keyword list.
proof fn lemma_goto_select_redirect_range(
    script: ScriptV,
    dec: Seq<char>,
    ts: Seq<Seq<char>>,
    caps: Seq<Seq<char>>,
    u: Seq<(Seq<char>, int)>,
    fuel: nat,
    memorise: bool,
)
    ensures
        goto_select(script, dec, ts, caps, u, fuel, memorise) matches TryRule::Redirect {
            target,
            usage,
        } ==> 0 <= target < script.keywords.len(),
    decreases fuel,
{
    match select_outcome(u, dec, ts) {
        None => {},
        Some(pair) => {
            let t = ts[pair.0];
            match goto_target(t) {
                Some(g) => {
                    crate::phrase::lemma_keyword_index_in_range(script.keywords, g);
                    if keyword_index(script.keywords, g) is None && fuel > 0 {
                        lemma_goto_select_redirect_range(
                            script,
                            dec,
                            ts,
                            caps,
                            pair.1,
                            (fuel - 1) as nat,
                            memorise,
                        );
                    }
                },
                None => {},
            }
        },
    }
}

/// An ELIZA engine: one conversation's script and mutable state.
pub struct Eliza {
    /// The script, read-only for the engine's lifetime.
    pub script: Script,
    /// The deferred responses, oldest first.
    pub memory: Vec<String>,
    /// The usage record of reassembly templates.
    pub rule_usage: Vec<(String, usize)>,
}

impl Default for Eliza {
    /// An engine over the empty script, with no state.
    fn default() -> (e: Self)
        ensures
            e.script@.keywords.len() == 0,
            e.script@.fallbacks.len() == 0,
            e.script@.greetings.len() == 0,
            e.script@.farewells.len() == 0,
            e.script@.transforms.len() == 0,
            e.script@.synonyms.len() == 0,
            e.script@.reflections.len() == 0,
            e.memory@.len() == 0,
            e.rule_usage@.len() == 0,
    {
        Eliza { script: Script::default(), memory: Vec::new(), rule_usage: Vec::new() }
    }
}

/// The position of the first keyword whose key is `g`, if any.
fn find_keyword(keywords: &Vec<Keyword>, g: &String) -> (r: Option<usize>)
    ensures
        match r {
            Some(k) => keyword_index(keywords.deep_view(), g@) == Some(k as int) && k
                < keywords@.len(),
            None => keyword_index(keywords.deep_view(), g@) is None,
        },
{
    let ghost kv = keywords.deep_view();
    let mut i: usize = 0;
    while i < keywords.len()
        invariant
            i <= keywords.len(),
            kv == keywords.deep_view(),
            kv.len() == keywords@.len(),
            forall|j: int| 0 <= j < i ==> (#[trigger] kv[j]).key != g@,
        decreases keywords@.len() - i,
    {
        if keywords[i].key.eq(g) {
            proof {
                assert(kv[i as int] == keywords@[i as int].deep_view());
                crate::phrase::lemma_keyword_index_first(kv, g@, i as int);
            }
            return Some(i);
        }
        proof {
            assert(kv[i as int] == keywords@[i as int].deep_view());
        }
        i = i + 1;
    }
    proof {
        crate::phrase::lemma_keyword_index_none(kv, g@);
    }
    None
}

/// What one application of a matched rule did.
enum Step {
    Fail,
    Redirect(usize),
    Reply(String),
    Memorized,
}

impl Eliza {
    /// An engine over `script`, with empty memory and usage.
    pub fn new(script: Script) -> (e: Eliza)
        ensures
            e.script == script,
            e.memory@.len() == 0,
            e.rule_usage@.len() == 0,
    {
        Eliza { script, memory: Vec::new(), rule_usage: Vec::new() }
    }

    /// A random greeting from the script, or a fixed line when it has none.
    pub fn greet(&self) -> (r: String)
        ensures
            self.script@.greetings.len() == 0 ==> r@ == "Hello, I am Eliza."@,
            self.script@.greetings.len() > 0 ==> exists|i: int|
                0 <= i < self.script@.greetings.len() && r@ == #[trigger] self.script@.greetings[i],
    {
        match self.script.rand_greet() {
            Some(greeting) => {
                proof {
                    let i = choose|i: int|
                        0 <= i < self.script.greetings@.len() && greeting@
                            == #[trigger] self.script.greetings@[i]@;
                    assert(self.script@.greetings[i] == self.script.greetings@[i]@);
                }
                greeting
            },
            None => String::from_str("Hello, I am Eliza."),
        }
    }

    /// A random farewell from the script, or a fixed line when it has none.
    pub fn farewell(&self) -> (r: String)
        ensures
            self.script@.farewells.len() == 0 ==> r@ == "Goodbye."@,
            self.script@.farewells.len() > 0 ==> exists|i: int|
                0 <= i < self.script@.farewells.len() && r@ == #[trigger] self.script@.farewells[i],
    {
        match self.script.rand_farewell() {
            Some(farewell) => {
                proof {
                    let i = choose|i: int|
                        0 <= i < self.script.farewells@.len() && farewell@
                            == #[trigger] self.script.farewells@[i]@;
                    assert(self.script@.farewells[i] == self.script.farewells@[i]@);
                }
                farewell
            },
            None => String::from_str("Goodbye."),
        }
    }

    /// A random fallback from the script, or a fixed line when it has none.
    fn fallback(&self) -> (r: String)
        ensures
            self.script@.fallbacks.len() == 0 ==> r@ == "Go on."@,
            self.script@.fallbacks.len() > 0 ==> exists|i: int|
                0 <= i < self.script@.fallbacks.len() && r@ == #[trigger] self.script@.fallbacks[i],
    {
        match self.script.rand_fallback() {
            Some(fallback) => {
                proof {
                    let i = choose|i: int|
                        0 <= i < self.script.fallbacks@.len() && fallback@
                            == #[trigger] self.script.fallbacks@[i]@;
                    assert(self.script@.fallbacks[i] == self.script.fallbacks@[i]@);
                }
                fallback
            },
            None => String::from_str("Go on."),
        }
    }

    /// Selects a reassembly template for the decomposition rule source `id`,
    /// counting the choice in the usage record: an unused template first,
    /// else the least-used, declaration order breaking ties.
    pub fn get_reassembly(&mut self, id: &str, rules: &Vec<String>) -> (r: Option<String>)
        ensures
            final(self).script == old(self).script,
            final(self).memory == old(self).memory,
            ({
                let sel = select_outcome(usage_view(old(self).rule_usage@), id@, rules.deep_view());
                &&& (r is Some) == (sel is Some)
                &&& (r is Some) == (rules@.len() > 0)
                &&& (match sel {
                    Some(pair) => r matches Some(s) && s@ == rules.deep_view()[pair.0]
                        && usage_view(final(self).rule_usage@) == pair.1,
                    None => usage_view(final(self).rule_usage@) == usage_view(
                        old(self).rule_usage@,
                    ),
                })
            }),
    {
        select_template(&mut self.rule_usage, id, rules)
    }

    /// Applies one matched rule: selects a template (retrying past unknown
    /// `GOTO` targets at most `tfuel` times), and either redirects, queues a
    /// memorized response, or answers.
    fn apply_rule(&mut self, rule: &Rule, caps: &Vec<String>, tfuel: usize) -> (s: Step)
        ensures
            final(self).script == old(self).script,
            ({
                let out = goto_select(
                    old(self).script@,
                    rule@.decomposition_rule,
                    rule@.reassembly_rules,
                    caps.deep_view(),
                    usage_view(old(self).rule_usage@),
                    tfuel as nat,
                    rule@.memorise,
                );
                match out {
                    TryRule::Fail { usage } => s is Fail && usage_view(final(self).rule_usage@)
                        == usage && final(self).memory == old(self).memory,
                    TryRule::Redirect { target, usage } => s matches Step::Redirect(k) && k
                        == target && usage_view(final(self).rule_usage@) == usage && final(self).memory == old(self).memory,
                    TryRule::Reply { text, usage } => s matches Step::Reply(t) && t@ == text
                        && usage_view(final(self).rule_usage@) == usage && final(self).memory
                        == old(self).memory,
                    TryRule::Memorize { text, usage } => s is Memorized && usage_view(
                        final(self).rule_usage@,
                    ) == usage && final(self).memory.deep_view() == old(self).memory.deep_view().push(text),
                    TryRule::NoMatch => false,
                }
            }),
        decreases tfuel,
    {
        let assem = match select_template(
            &mut self.rule_usage,
            rule.decomposition_rule.as_str(),
            &rule.reassembly_rules,
        ) {
            Some(assem) => assem,
            None => {
                return Step::Fail;
            },
        };
        match is_goto(assem.as_str()) {
            Some(g) => {
                match find_keyword(&self.script.keywords, &g) {
                    Some(ki) => Step::Redirect(ki),
                    None => {
                        if tfuel > 0 {
                            self.apply_rule(rule, caps, tfuel - 1)
                        } else {
                            Step::Fail
                        }
                    },
                }
            },
            None => {
                match assemble(assem.as_str(), caps, &self.script.reflections) {
                    Some(text) => {
                        if rule.memorise {
                            let ghost pre = self.memory.deep_view();
                            self.memory.push(text);
                            proof {
                                assert(self.memory.deep_view() =~~= pre.push(
                                    self.memory@.last()@,
                                ));
                            }
                            Step::Memorized
                        } else {
                            Step::Reply(text)
                        }
                    },
                    None => Step::Fail,
                }
            },
        }
    }

    /// Searches the keystack for a response to the active phrase, popping
    /// keywords in rank order and following `GOTO` redirects, with a cap on
    /// keyword pops against cyclic redirect chains.
    fn get_response(&mut self, phrase: &String, keystack: &mut Vec<Keyword>) -> (r: Option<String>)
        ensures
            final(self).script == old(self).script,
            ({
                let out = search(
                    old(self).script@,
                    phrase@,
                    old(keystack).deep_view(),
                    old(self).memory.deep_view(),
                    usage_view(old(self).rule_usage@),
                    search_fuel(
                        old(keystack)@.len() as int,
                        old(self).script.keywords@.len() as int,
                    ) as nat,
                );
                &&& (r is Some) == (out.response is Some)
                &&& (r matches Some(s) ==> out.response == Some(s@))
                &&& final(self).memory.deep_view() == out.memory
                &&& usage_view(final(self).rule_usage@) == out.usage
            }),
    {
        let ghost script0 = self.script;
        let ghost sv = self.script@;
        let ghost target = search(
            sv,
            phrase@,
            keystack.deep_view(),
            self.memory.deep_view(),
            usage_view(self.rule_usage@),
            search_fuel(keystack@.len() as int, self.script.keywords@.len() as int) as nat,
        );
        let kwlen = self.script.keywords.len();
        let mut fuel: usize = if keystack.len() <= usize::MAX - kwlen {
            keystack.len() + kwlen
        } else {
            usize::MAX
        };
        let mut response: Option<String> = None;
        while fuel > 0 && response.is_none() && keystack.len() > 0
            invariant
                self.script == script0,
                sv == self.script@,
                response is None ==> target == search(
                    sv,
                    phrase@,
                    keystack.deep_view(),
                    self.memory.deep_view(),
                    usage_view(self.rule_usage@),
                    fuel as nat,
                ),
                response matches Some(s) ==> target == (SearchOut {
                    response: Some(s@),
                    memory: self.memory.deep_view(),
                    usage: usage_view(self.rule_usage@),
                }),
            decreases fuel,
        {
            let ghost stack0 = keystack.deep_view();
            let ghost mem0 = self.memory.deep_view();
            let ghost u0 = usage_view(self.rule_usage@);
            let kw = keystack.remove(0);
            proof {
                assert(keystack.deep_view() =~~= stack0.skip(1));
                assert(kw@ == stack0[0]);
            }
            let ghost rv = kw.rules.deep_view();
            proof {
                assert(rv == stack0[0].rules);
                assert(rv.skip(0) =~~= rv);
            }
            let mut reply: Option<String> = None;
            let mut redirect: Option<usize> = None;
            let mut ri: usize = 0;
            while ri < kw.rules.len() && reply.is_none() && redirect.is_none()
                invariant
                    ri <= kw.rules.len(),
                    self.script == script0,
                    sv == self.script@,
                    rv == kw.rules.deep_view(),
                    rv.len() == kw.rules@.len(),
                    reply is None && redirect is None ==> run_rules(sv, phrase@, rv, mem0, u0)
                        == run_rules(
                        sv,
                        phrase@,
                        rv.skip(ri as int),
                        self.memory.deep_view(),
                        usage_view(self.rule_usage@),
                    ),
                    reply matches Some(s) ==> run_rules(sv, phrase@, rv, mem0, u0)
                        == (KeyOutcome::Done {
                        text: s@,
                        memory: self.memory.deep_view(),
                        usage: usage_view(self.rule_usage@),
                    }),
                    redirect matches Some(k) ==> run_rules(sv, phrase@, rv, mem0, u0)
                        == (KeyOutcome::Goto {
                        target: k as int,
                        memory: self.memory.deep_view(),
                        usage: usage_view(self.rule_usage@),
                    }) && k < sv.keywords.len(),
                decreases
                        kw.rules@.len() - ri,
                        (if reply is None && redirect is None {
                            1int
                        } else {
                            0int
                        }),
            {
                let ghost tail = rv.skip(ri as int);
                proof {
                    assert(tail[0] == rv[ri as int]);
                    assert(tail.skip(1) =~~= rv.skip(ri + 1));
                    assert(rv[ri as int] == kw.rules@[ri as int]@);
                }
                let rule = &kw.rules[ri];
                let perms = permutations(rule.decomposition_rule.as_str(), &self.script.synonyms);
                let ghost pv = perms.deep_view();
                proof {
                    assert(pv == perms_spec(rule@.decomposition_rule, sv.synonyms));
                    assert(pv.skip(0) =~~= pv);
                }
                let mut caps_found: Option<Vec<String>> = None;
                let mut pi: usize = 0;
                while pi < perms.len() && caps_found.is_none()
                    invariant
                        pi <= perms.len(),
                        pv == perms.deep_view(),
                        pv.len() == perms@.len(),
                        caps_found is None ==> first_match(pv, phrase@) == first_match(
                            pv.skip(pi as int),
                            phrase@,
                        ),
                        caps_found matches Some(c) ==> first_match(pv, phrase@) == Some(
                            c.deep_view(),
                        ),
                    decreases perms@.len() - pi,
                {
                    proof {
                        assert(pv.skip(pi as int)[0] == pv[pi as int]);
                        assert(pv.skip(pi as int).skip(1) =~~= pv.skip(pi + 1));
                        assert(pv[pi as int] == perms@[pi as int]@);
                    }
                    match match_phrase(&perms[pi], phrase) {
                        Some(caps) => {
                            proof {
                                assert(regex_match(pv[pi as int], phrase@) == Some(
                                    caps.deep_view(),
                                ));
                            }
                            caps_found = Some(caps);
                        },
                        None => {
                            proof {
                                assert(regex_match(pv[pi as int], phrase@) is None);
                            }
                        },
                    }
                    pi = pi + 1;
                }
                match caps_found {
                    None => {
                        proof {
                            assert(pv.skip(pv.len() as int) =~~= Seq::<Seq<char>>::empty());
                            assert(first_match(pv, phrase@) is None);
                            assert(try_rule(sv, phrase@, rv[ri as int], usage_view(
                                self.rule_usage@,
                            )) == TryRule::NoMatch);
                        }
                        ri = ri + 1;
                        proof {
                            assert(run_rules(sv, phrase@, rv, mem0, u0) == run_rules(
                                sv,
                                phrase@,
                                rv.skip(ri as int),
                                self.memory.deep_view(),
                                usage_view(self.rule_usage@),
                            ));
                        }
                    },
                    Some(caps) => {
                        let ghost u_entry = usage_view(self.rule_usage@);
                        let ghost mem_entry = self.memory.deep_view();
                        let tlen = rule.reassembly_rules.len();
                        let ghost rule_v = rv[ri as int];
                        proof {
                            assert(try_rule(sv, phrase@, rule_v, u_entry) == goto_select(
                                sv,
                                rule_v.decomposition_rule,
                                rule_v.reassembly_rules,
                                caps.deep_view(),
                                u_entry,
                                rule_v.reassembly_rules.len(),
                                rule_v.memorise,
                            ));
                            assert(rule_v.reassembly_rules.len()
                                == rule.reassembly_rules@.len() as int);
                        }
                        let step = self.apply_rule(rule, &caps, tlen);
                        match step {
                            Step::Fail => {
                                ri = ri + 1;
                            },
                            Step::Memorized => {
                                ri = ri + 1;
                            },
                            Step::Reply(t) => {
                                reply = Some(t);
                            },
                            Step::Redirect(k) => {
                                redirect = Some(k);
                            },
                        }
                        proof {
                            lemma_goto_select_redirect_range(
                                sv,
                                rule_v.decomposition_rule,
                                rule_v.reassembly_rules,
                                caps.deep_view(),
                                u_entry,
                                rule_v.reassembly_rules.len() as nat,
                                rule_v.memorise,
                            );
                            let out = try_rule(sv, phrase@, rule_v, u_entry);
                            match out {
                                TryRule::NoMatch => {
                                    assert(false);
                                },
                                TryRule::Fail { usage } => {
                                    assert(run_rules(sv, phrase@, rv, mem0, u0) == run_rules(
                                        sv,
                                        phrase@,
                                        rv.skip(ri as int),
                                        self.memory.deep_view(),
                                        usage_view(self.rule_usage@),
                                    ));
                                },
                                TryRule::Memorize { text, usage } => {
                                    assert(run_rules(sv, phrase@, rv, mem0, u0) == run_rules(
                                        sv,
                                        phrase@,
                                        rv.skip(ri as int),
                                        self.memory.deep_view(),
                                        usage_view(self.rule_usage@),
                                    ));
                                },
                                TryRule::Reply { text, usage } => {
                                    assert(run_rules(sv, phrase@, rv.skip(ri as int), mem_entry, u_entry)
                                        == (KeyOutcome::Done {
                                        text,
                                        memory: mem_entry,
                                        usage,
                                    }));
                                    assert(run_rules(sv, phrase@, rv, mem0, u0) == (KeyOutcome::Done {
                                        text,
                                        memory: self.memory.deep_view(),
                                        usage: usage_view(self.rule_usage@),
                                    }));
                                },
                                TryRule::Redirect { target, usage } => {
                                    assert(run_rules(sv, phrase@, rv.skip(ri as int), mem_entry, u_entry)
                                        == (KeyOutcome::Goto {
                                        target,
                                        memory: mem_entry,
                                        usage,
                                    }));
                                    assert(run_rules(sv, phrase@, rv, mem0, u0) == (KeyOutcome::Goto {
                                        target,
                                        memory: self.memory.deep_view(),
                                        usage: usage_view(self.rule_usage@),
                                    }));
                                    assert(0 <= target < sv.keywords.len());
                                },
                            }
                        }
                    },
                }
            }
            proof {
                if reply is None && redirect is None {
                    assert(rv.skip(rv.len() as int) =~~= Seq::<RuleV>::empty());
                    assert(run_rules(sv, phrase@, rv, mem0, u0) == (KeyOutcome::Exhausted {
                        memory: self.memory.deep_view(),
                        usage: usage_view(self.rule_usage@),
                    }));
                }
            }
            if let Some(t) = reply {
                response = Some(t);
                fuel = fuel - 1;
                proof {
                    assert(search(sv, phrase@, stack0, mem0, u0, (fuel + 1) as nat)
                        == (SearchOut {
                        response: Some(response ->Some_0@),
                        memory: self.memory.deep_view(),
                        usage: usage_view(self.rule_usage@),
                    }));
                }
            } else if let Some(k) = redirect {
                let entry = self.script.keywords[k].clone();
                keystack.insert(0, entry);
                fuel = fuel - 1;
                proof {
                    assert(keystack.deep_view() =~~= seq![sv.keywords[k as int]] + stack0.skip(1));
                    assert(search(sv, phrase@, stack0, mem0, u0, (fuel + 1) as nat) == search(
                        sv,
                        phrase@,
                        keystack.deep_view(),
                        self.memory.deep_view(),
                        usage_view(self.rule_usage@),
                        fuel as nat,
                    ));
                }
            } else {
                fuel = fuel - 1;
                proof {
                    assert(search(sv, phrase@, stack0, mem0, u0, (fuel + 1) as nat) == search(
                        sv,
                        phrase@,
                        keystack.deep_view(),
                        self.memory.deep_view(),
                        usage_view(self.rule_usage@),
                        fuel as nat,
                    ));
                }
            }
        }
        proof {
            if response is None {
                assert(keystack.deep_view().len() == 0 || fuel == 0);
                assert(target == (SearchOut {
                    response: None,
                    memory: self.memory.deep_view(),
                    usage: usage_view(self.rule_usage@),
                }));
            }
        }
        response
    }

    /// One turn: responds to `input` from the script and the session state.
    /// The response is the search's reply when one is found; otherwise the
    /// oldest memorized response, which leaves the queue; otherwise a random
    /// fallback line, or `"Go on."` when the script has none.
    pub fn respond(&mut self, input: &str) -> (r: String)
        ensures
            final(self).script == old(self).script,
            ({
                let m = respond_model(
                    old(self).script@,
                    old(self).memory.deep_view(),
                    usage_view(old(self).rule_usage@),
                    input@,
                );
                match m {
                    RespondModel::Answer { text, memory, usage } => r@ == text && final(self).memory.deep_view() == memory && usage_view(final(self).rule_usage@) == usage,
                    RespondModel::Memory { text, memory, usage } => r@ == text && final(self).memory.deep_view() == memory && usage_view(final(self).rule_usage@) == usage,
                    RespondModel::Fallback { memory, usage } => final(self).memory.deep_view()
                        == memory && usage_view(final(self).rule_usage@) == usage && (
                    old(self).script@.fallbacks.len() == 0 ==> r@ == "Go on."@) && (old(self).script@.fallbacks.len() > 0 ==> exists|i: int|
                        0 <= i < old(self).script@.fallbacks.len() && r@ == #[trigger] old(self).script@.fallbacks[i]),
                }
            }),
    {
        let lowered = lowercase(input);
        let normalized = transform(lowered.as_str(), &self.script.transforms);
        let phrases = get_phrases(normalized.as_str());
        let (active, mut keystack) = populate_keystack(phrases, &self.script.keywords);
        let mut response: Option<String> = None;
        if let Some(phrase) = active {
            response = self.get_response(&phrase, &mut keystack);
        }
        match response {
            Some(res) => res,
            None => {
                if self.memory.len() > 0 {
                    let ghost mem0 = self.memory.deep_view();
                    let res = self.memory.remove(0);
                    proof {
                        assert(self.memory.deep_view() =~~= mem0.skip(1));
                    }
                    res
                } else {
                    self.fallback()
                }
            },
        }
    }
}

} // verus!
