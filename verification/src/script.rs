//! The script: the immutable, data-driven bundle of greetings, farewells,
//! fallbacks, transforms, synonyms, reflections and keywords that
//! parameterizes the engine.

use vstd::prelude::*;

verus! {

/// A substitution applied to the input before processing: every occurrence of
/// an equivalent becomes the canonical word.
pub struct Transform {
    pub word: String,
    pub equivalents: Vec<String>,
}

/// The mathematical view of a `Transform`.
pub struct TransformV {
    pub word: Seq<char>,
    pub equivalents: Seq<Seq<char>>,
}

impl View for Transform {
    type V = TransformV;

    open spec fn view(&self) -> TransformV {
        TransformV { word: self.word@, equivalents: self.equivalents.deep_view() }
    }
}

impl DeepView for Transform {
    type V = TransformV;

    open spec fn deep_view(&self) -> TransformV {
        self.view()
    }
}

/// A synonym class: a head word and the equivalents that may replace it when
/// a decomposition rule carries the synonym marker.
pub struct Synonym {
    pub word: String,
    pub equivalents: Vec<String>,
}

/// The mathematical view of a `Synonym`.
pub struct SynonymV {
    pub word: Seq<char>,
    pub equivalents: Seq<Seq<char>>,
}

impl View for Synonym {
    type V = SynonymV;

    open spec fn view(&self) -> SynonymV {
        SynonymV { word: self.word@, equivalents: self.equivalents.deep_view() }
    }
}

impl DeepView for Synonym {
    type V = SynonymV;

    open spec fn deep_view(&self) -> SynonymV {
        self.view()
    }
}

/// A word-level swap applied to captured text before it is quoted back;
/// when `twoway` holds, the pair swaps in both directions.
pub struct Reflection {
    pub word: String,
    pub inverse: String,
    pub twoway: bool,
}

/// The mathematical view of a `Reflection`.
pub struct ReflectionV {
    pub word: Seq<char>,
    pub inverse: Seq<char>,
    pub twoway: bool,
}

impl View for Reflection {
    type V = ReflectionV;

    open spec fn view(&self) -> ReflectionV {
        ReflectionV { word: self.word@, inverse: self.inverse@, twoway: self.twoway }
    }
}

impl DeepView for Reflection {
    type V = ReflectionV;

    open spec fn deep_view(&self) -> ReflectionV {
        self.view()
    }
}

/// One decomposition pattern with its reassembly templates; when `memorise`
/// holds, an assembled response is queued for later instead of returned.
pub struct Rule {
    pub memorise: bool,
    pub decomposition_rule: String,
    pub reassembly_rules: Vec<String>,
}

/// The mathematical view of a `Rule`.
pub struct RuleV {
    pub memorise: bool,
    pub decomposition_rule: Seq<char>,
    pub reassembly_rules: Seq<Seq<char>>,
}

impl View for Rule {
    type V = RuleV;

    open spec fn view(&self) -> RuleV {
        RuleV {
            memorise: self.memorise,
            decomposition_rule: self.decomposition_rule@,
            reassembly_rules: self.reassembly_rules.deep_view(),
        }
    }
}

impl DeepView for Rule {
    type V = RuleV;

    open spec fn deep_view(&self) -> RuleV {
        self.view()
    }
}

/// A keyword, its rank (higher ranks are tried first) and its rules.
pub struct Keyword {
    pub key: String,
    pub rank: u8,
    pub rules: Vec<Rule>,
}

/// The mathematical view of a `Keyword`.
pub struct KeywordV {
    pub key: Seq<char>,
    pub rank: u8,
    pub rules: Seq<RuleV>,
}

impl View for Keyword {
    type V = KeywordV;

    open spec fn view(&self) -> KeywordV {
        KeywordV { key: self.key@, rank: self.rank, rules: self.rules.deep_view() }
    }
}

impl DeepView for Keyword {
    type V = KeywordV;

    open spec fn deep_view(&self) -> KeywordV {
        self.view()
    }
}

/// The whole script. It is read-only for the lifetime of an engine.
pub struct Script {
    pub greetings: Vec<String>,
    pub farewells: Vec<String>,
    pub fallbacks: Vec<String>,
    pub transforms: Vec<Transform>,
    pub synonyms: Vec<Synonym>,
    pub reflections: Vec<Reflection>,
    pub keywords: Vec<Keyword>,
}

/// The mathematical view of a `Script`.
pub struct ScriptV {
    pub greetings: Seq<Seq<char>>,
    pub farewells: Seq<Seq<char>>,
    pub fallbacks: Seq<Seq<char>>,
    pub transforms: Seq<TransformV>,
    pub synonyms: Seq<SynonymV>,
    pub reflections: Seq<ReflectionV>,
    pub keywords: Seq<KeywordV>,
}

impl View for Script {
    type V = ScriptV;

    open spec fn view(&self) -> ScriptV {
        ScriptV {
            greetings: self.greetings.deep_view(),
            farewells: self.farewells.deep_view(),
            fallbacks: self.fallbacks.deep_view(),
            transforms: self.transforms.deep_view(),
            synonyms: self.synonyms.deep_view(),
            reflections: self.reflections.deep_view(),
            keywords: self.keywords.deep_view(),
        }
    }
}

/// Clones a list of strings.
pub fn clone_strings(v: &Vec<String>) -> (r: Vec<String>)
    ensures
        r@ == v@,
{
    let mut r: Vec<String> = Vec::new();
    let mut i: usize = 0;
    while i < v.len()
        invariant
            i <= v.len(),
            r@ == v@.take(i as int),
        decreases v@.len() - i,
    {
        r.push(v[i].clone());
        i = i + 1;
        proof {
            assert(r@ =~= v@.take(i as int));
        }
    }
    proof {
        assert(v@.take(v@.len() as int) =~= v@);
    }
    r
}

impl Clone for Rule {
    fn clone(&self) -> (r: Self)
        ensures
            r@ == self@,
    {
        Rule {
            memorise: self.memorise,
            decomposition_rule: self.decomposition_rule.clone(),
            reassembly_rules: clone_strings(&self.reassembly_rules),
        }
    }
}

impl Clone for Keyword {
    fn clone(&self) -> (r: Self)
        ensures
            r@ == self@,
    {
        let mut rules: Vec<Rule> = Vec::new();
        let mut i: usize = 0;
        while i < self.rules.len()
            invariant
                i <= self.rules.len(),
                rules@.len() == i,
                rules.deep_view() == self.rules.deep_view().take(i as int),
        decreases self.rules@.len() - i,
        {
            let ghost pre = rules@;
            let cloned = self.rules[i].clone();
            proof {
                assert(cloned@ == self.rules@[i as int]@);
            }
            rules.push(cloned);
            i = i + 1;
            proof {
                assert(rules@ == pre.push(cloned));
                assert(rules@.len() == i);
                assert(rules.deep_view() == Seq::new(rules@.len(), |k: int| rules@[k].deep_view()));
                assert(self.rules.deep_view() == Seq::new(
                    self.rules@.len(),
                    |k: int| self.rules@[k].deep_view(),
                ));
                assert forall|j: int| 0 <= j < i implies rules.deep_view()[j]
                    == self.rules.deep_view().take(i as int)[j] by {
                    assert(rules.deep_view()[j] == rules@[j].deep_view());
                    assert(self.rules.deep_view().take(i as int)[j] == self.rules@[j].deep_view());
                }
                assert(rules.deep_view() =~= self.rules.deep_view().take(i as int));
            }
        }
        proof {
            assert(self.rules.deep_view().take(self.rules@.len() as int) =~~= self.rules.deep_view());
        }
        Keyword { key: self.key.clone(), rank: self.rank, rules }
    }
}

impl Default for Script {
    /// An empty script: every section is empty.
    fn default() -> (r: Self)
        ensures
            r.greetings@.len() == 0,
            r.farewells@.len() == 0,
            r.fallbacks@.len() == 0,
            r.transforms@.len() == 0,
            r.synonyms@.len() == 0,
            r.reflections@.len() == 0,
            r.keywords@.len() == 0,
    {
        Script {
            greetings: Vec::new(),
            farewells: Vec::new(),
            fallbacks: Vec::new(),
            transforms: Vec::new(),
            synonyms: Vec::new(),
            reflections: Vec::new(),
            keywords: Vec::new(),
        }
    }
}

/// Relies on `rand::random_range` over `0..n`: the result always lies below
/// `n`; nothing else is assumed of it. An empty range panics, so `n` must be
/// positive.
#[verifier::external_body]
fn random_below(n: usize) -> (r: usize)
    requires
        n > 0,
    ensures
        r < n,
{
    rand::random_range(0..n)
}

/// Picks one entry of `v` at random.
fn random_entry(v: &Vec<String>) -> (r: Option<String>)
    ensures
        (r is Some) == (v@.len() > 0),
        r matches Some(s) ==> exists|i: int| 0 <= i < v@.len() && s@ == #[trigger] v@[i]@,
{
    if v.len() == 0 {
        None
    } else {
        let i = random_below(v.len());
        let s = v[i].clone();
        proof {
            assert(s@ == v@[i as int]@);
        }
        Some(s)
    }
}

impl Script {
    /// A random entry of `greetings`, or nothing when the list is empty.
    pub fn rand_greet(&self) -> (r: Option<String>)
        ensures
            (r is Some) == (self.greetings@.len() > 0),
            r matches Some(s) ==> exists|i: int|
                0 <= i < self.greetings@.len() && s@ == #[trigger] self.greetings@[i]@,
    {
        random_entry(&self.greetings)
    }

    /// A random entry of `farewells`, or nothing when the list is empty.
    pub fn rand_farewell(&self) -> (r: Option<String>)
        ensures
            (r is Some) == (self.farewells@.len() > 0),
            r matches Some(s) ==> exists|i: int|
                0 <= i < self.farewells@.len() && s@ == #[trigger] self.farewells@[i]@,
    {
        random_entry(&self.farewells)
    }

    /// A random entry of `fallbacks`, or nothing when the list is empty.
    pub fn rand_fallback(&self) -> (r: Option<String>)
        ensures
            (r is Some) == (self.fallbacks@.len() > 0),
            r matches Some(s) ==> exists|i: int|
                0 <= i < self.fallbacks@.len() && s@ == #[trigger] self.fallbacks@[i]@,
    {
        random_entry(&self.fallbacks)
    }
}

} // verus!
