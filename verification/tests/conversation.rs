use eliza::Eliza;
use eliza::script::{Keyword, Reflection, Rule, Script, Synonym, Transform};

fn rule(memorise: bool, decomposition: &str, templates: &[&str]) -> Rule {
    Rule {
        memorise,
        decomposition_rule: String::from(decomposition),
        reassembly_rules: templates.iter().map(|t| String::from(*t)).collect(),
    }
}

fn keyword(key: &str, rank: u8, rules: Vec<Rule>) -> Keyword {
    Keyword { key: String::from(key), rank, rules }
}

/// A small script in the spirit of the classic DOCTOR program, holding just
/// the entries that the textbook exchanges exercise.
fn doctor_script() -> Script {
    Script {
        greetings: vec![String::from("How do you do. Please tell me your problem.")],
        farewells: vec![String::from("Goodbye. It was nice talking to you.")],
        fallbacks: Vec::new(),
        transforms: vec![
            Transform { word: String::from("i am"), equivalents: vec![String::from("i'm")] },
        ],
        synonyms: vec![
            Synonym {
                word: String::from("sad"),
                equivalents: vec![
                    String::from("unhappy"),
                    String::from("depressed"),
                    String::from("sick"),
                ],
            },
        ],
        reflections: vec![
            Reflection { word: String::from("me"), inverse: String::from("you"), twoway: false },
        ],
        keywords: vec![
            keyword(
                "alike",
                10,
                vec![rule(false, "(.*)", &["In what way?", "What resemblance do you see?"])],
            ),
            keyword("like", 10, vec![rule(false, "(.*) like (.*)", &["GOTO alike"])]),
            keyword(
                "always",
                5,
                vec![rule(false, "(.*)", &["Can you think of a specific example?"])],
            ),
            keyword(
                "my",
                2,
                vec![
                    rule(
                        true,
                        "(.*)my (.*)",
                        &["Does that have anything to do with the fact that your $2?"],
                    ),
                    rule(false, "(.*)my (.*)", &["Your $2?"]),
                ],
            ),
            keyword(
                "i",
                0,
                vec![rule(false, "(.*)i am (.*@sad)(.*)", &["I am sorry to hear you are $2."])],
            ),
        ],
    }
}

#[test]
fn convo_textbook() {
    let mut e = Eliza::new(doctor_script());

    assert_eq!("In what way?", e.respond("Men are all alike."));
    assert_eq!(
        "Can you think of a specific example?",
        e.respond("They're always bugging us about something or other.")
    );
    assert_eq!(
        "Your boyfriend made you come here?",
        e.respond("Well, my boyfriend made me come here.")
    );
    assert_eq!(
        "I am sorry to hear you are depressed.",
        e.respond("He says I'm depressed much of the time.")
    );
    assert_eq!("What resemblance do you see?", e.respond("You are like my father in some ways."));
    assert_eq!(
        "Does that have anything to do with the fact that your boyfriend made you come here?",
        e.respond("Bullies.")
    );
}

#[test]
fn empty_input_reaches_fallback() {
    let mut script = Script::default();
    script.fallbacks = vec![String::from("Please go on.")];
    let mut e = Eliza::new(script);
    assert_eq!("Please go on.", e.respond(""));
}

#[test]
fn empty_input_default_fallback() {
    let mut e = Eliza::new(Script::default());
    assert_eq!("Go on.", e.respond(""));
    assert_eq!("Go on.", e.respond(""));
}

#[test]
fn fallback_when_nothing_matches() {
    let mut e = Eliza::new(doctor_script());
    // no keyword, no memory: the script has no fallbacks, so the fixed
    // fallback line answers
    assert_eq!("Go on.", e.respond("bullies"));
}

#[test]
fn lowercase_applies_before_matching() {
    let script = Script {
        keywords: vec![keyword("men", 0, vec![rule(false, "(.*)", &["Tell me more about men."])])],
        ..Script::default()
    };
    let mut e = Eliza::new(script);
    assert_eq!("Tell me more about men.", e.respond("MEN"));
}

#[test]
fn memory_is_first_in_first_out() {
    let mut e = Eliza::new(doctor_script());
    assert_eq!("Your dog ate it?", {
        // both turns memorise one entry and answer from the second rule
        e.respond("my dog ate it")
    });
    assert_eq!("Your cat saw it?", e.respond("my cat saw it"));
    assert_eq!(
        "Does that have anything to do with the fact that your dog ate it?",
        e.respond("nothing matches this")
    );
    assert_eq!(
        "Does that have anything to do with the fact that your cat saw it?",
        e.respond("nothing matches this")
    );
    assert_eq!("Go on.", e.respond("nothing matches this"));
}

#[test]
fn goto_redirects_to_named_keyword() {
    let mut e = Eliza::new(doctor_script());
    assert_eq!("In what way?", e.respond("it looks like rain"));
}

#[test]
fn goto_unknown_keyword_is_skipped() {
    let script = Script {
        keywords: vec![
            keyword("hello", 0, vec![rule(false, "(.*)", &["GOTO nowhere", "Hi there."])]),
        ],
        ..Script::default()
    };
    let mut e = Eliza::new(script);
    // the redirect names no keyword, so its template is skipped and the
    // next template answers
    assert_eq!("Hi there.", e.respond("hello"));
}

#[test]
fn cyclic_goto_terminates() {
    let script = Script {
        keywords: vec![
            keyword("ping", 0, vec![rule(false, "(.*)", &["GOTO pong"])]),
            keyword("pong", 0, vec![rule(false, "(.*)", &["GOTO ping"])]),
        ],
        ..Script::default()
    };
    let mut e = Eliza::new(script);
    // the redirects chase each other; the pop cap ends the search and the
    // turn falls back
    assert_eq!("Go on.", e.respond("ping"));
}

#[test]
fn clause_after_but_is_searched() {
    let mut e = Eliza::new(doctor_script());
    assert_eq!("Your dog is sick?", e.respond("nothing here but my dog is sick"));
}

#[test]
fn templates_rotate_least_used_first() {
    let script = Script {
        keywords: vec![
            keyword("hi", 0, vec![rule(false, "(.*)", &["one", "two", "three", "four"])]),
        ],
        ..Script::default()
    };
    let mut e = Eliza::new(script);
    assert_eq!("one", e.respond("hi"));
    assert_eq!("two", e.respond("hi"));
    assert_eq!("three", e.respond("hi"));
    assert_eq!("four", e.respond("hi"));
    assert_eq!("one", e.respond("hi"));
}

#[test]
fn synonym_permutations_match() {
    let mut e = Eliza::new(doctor_script());
    assert_eq!("I am sorry to hear you are sick.", e.respond("i'm sick of this"));
}

#[test]
fn greet_uses_script() {
    let e = Eliza::new(doctor_script());
    assert_eq!("How do you do. Please tell me your problem.", e.greet());
}

#[test]
fn greet_default_line() {
    let e = Eliza::new(Script::default());
    assert_eq!("Hello, I am Eliza.", e.greet());
}

#[test]
fn farewell_uses_script() {
    let e = Eliza::new(doctor_script());
    assert_eq!("Goodbye. It was nice talking to you.", e.farewell());
}

#[test]
fn farewell_default_line() {
    let e = Eliza::new(Script::default());
    assert_eq!("Goodbye.", e.farewell());
}

#[test]
fn random_fallback_comes_from_list() {
    let mut script = Script::default();
    script.fallbacks = vec![String::from("a"), String::from("b")];
    let mut e = Eliza::new(script);
    for _ in 0..16 {
        let r = e.respond("");
        assert!(r == "a" || r == "b");
    }
}
