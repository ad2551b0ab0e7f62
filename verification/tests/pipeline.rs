use eliza::alphabet::{Alphabet, Alphanumeric, Standard};
use eliza::assembly::permutations;
use eliza::phrase::{get_phrases, get_words, populate_keystack};
use eliza::script::{Keyword, Rule, Synonym, Transform};

fn simple_keyword(key: &str, rank: u8) -> Keyword {
    Keyword {
        key: String::from(key),
        rank,
        rules: vec![
            Rule {
                memorise: false,
                decomposition_rule: String::new(),
                reassembly_rules: Vec::new(),
            },
        ],
    }
}

#[test]
fn transform() {
    let transforms = vec![
        Transform {
            word: String::from("computer"),
            equivalents: vec![String::from("machine"), String::from("computers")],
        },
        Transform { word: String::from("you are"), equivalents: vec![String::from("you're")] },
        Transform { word: String::from("alike"), equivalents: vec![String::from("identical")] },
        Transform { word: String::from("cant"), equivalents: vec![String::from("can't")] },
        Transform { word: String::from("remember"), equivalents: vec![String::from("recollect")] },
    ];

    let t1 = "computers will one day be the superior machine.";
    let t2 = "you're not wrong there.";
    let t3 = "In some ways, you are identical to my father.";
    let t4 = "I can't recollect.";

    assert_eq!("computer will one day be the superior computer.", eliza::phrase::transform(t1, &transforms));
    assert_eq!("you are not wrong there.", eliza::phrase::transform(t2, &transforms));
    assert_eq!("In some ways, you are alike to my father.", eliza::phrase::transform(t3, &transforms));
    assert_eq!("I cant remember.", eliza::phrase::transform(t4, &transforms));
}

#[test]
fn transform_phrases() {
    let transforms = vec![
        Transform {
            word: String::from("computer"),
            equivalents: vec![String::from("machine"), String::from("computers")],
        },
        Transform { word: String::from("remember"), equivalents: vec![String::from("recollect")] },
    ];

    assert_eq!(
        "computer will one day be the superior computer.",
        eliza::phrase::transform("computers will one day be the superior machine.", &transforms)
    );

    assert_eq!("I cant remember.", eliza::phrase::transform("I cant recollect.", &transforms));
}

#[test]
fn lib_phrase_spliting() {
    let phrases = get_phrases("Hello how are you, you look good. Let    me know what you think,of me?");

    assert_eq!("Hello how are you", phrases[0]);
    assert_eq!("you look good", phrases[1]);
    assert_eq!("Let    me know what you think", phrases[2]);
    assert_eq!("of me", phrases[3]);
}

#[test]
fn phrase_split_keeps_trailing_empty() {
    let phrases = get_phrases("of me?");
    assert_eq!(vec![String::from("of me"), String::new()], phrases);
}

#[test]
fn phrase_split_on_but() {
    let phrases = get_phrases("i was feeling good but now i'm not");
    assert_eq!(vec![String::from("i was feeling good"), String::from("now i'm not")], phrases);
}

#[test]
fn lib_word_splitting() {
    let words = get_words("Hello how are you");
    assert_eq!(vec!["Hello", "how", "are", "you"], words);
}

#[test]
fn eliza_word_splitting() {
    let words = get_words("Hello how are you");
    assert_eq!(vec!["Hello", "how", "are", "you"], words);
}

#[test]
fn keystack_simple() {
    let keywords = vec![
        simple_keyword("hello", 0),
        simple_keyword("how", 0),
        simple_keyword("i", 0),
    ];

    let phrases = get_phrases("hello how are you? i was feeling good today, but now i'm not.");
    let (phrase, keystack) = populate_keystack(phrases, &keywords);

    assert_eq!("hello how are you", phrase.unwrap());
    assert_eq!(2, keystack.len());
    assert_eq!("hello", keystack[0].key);
    assert_eq!("how", keystack[1].key);
}

#[test]
fn keystack_phrase_select() {
    let keywords = vec![
        simple_keyword("was", 0),
        simple_keyword("how", 0),
        simple_keyword("i", 0),
    ];

    let phrases = get_phrases("spagetti meatballs? i was feeling good today, but now...");
    let (phrase, keystack) = populate_keystack(phrases, &keywords);

    assert_eq!("i was feeling good today", phrase.unwrap());
    assert_eq!(2, keystack.len());
    assert_eq!("i", keystack[0].key);
    assert_eq!("was", keystack[1].key);
}

#[test]
fn keystack_rank_order() {
    let keywords = vec![
        simple_keyword("i", 1),
        simple_keyword("my", 2),
        simple_keyword("are", 0),
        simple_keyword("alike", 3),
    ];

    let phrases = get_phrases("i love my dog - people think we are alike");
    let (phrase, keystack) = populate_keystack(phrases, &keywords);

    assert_eq!("i love my dog - people think we are alike", phrase.unwrap());
    assert_eq!(4, keystack.len());
    assert_eq!("alike", keystack[0].key);
    assert_eq!("my", keystack[1].key);
    assert_eq!("i", keystack[2].key);
    assert_eq!("are", keystack[3].key);
}

#[test]
fn keystack_none_without_keywords() {
    let keywords = vec![simple_keyword("hello", 0)];
    let phrases = get_phrases("nothing to see here");
    let (phrase, keystack) = populate_keystack(phrases, &keywords);
    assert!(phrase.is_none());
    assert!(keystack.is_empty());
}

fn family_synonyms() -> Vec<Synonym> {
    vec![
        Synonym {
            word: String::from("family"),
            equivalents: vec![String::from("brother"), String::from("mother")],
        },
    ]
}

#[test]
fn perm_valid() {
    let synonyms = family_synonyms();

    let re_perms = permutations("(.*)my (.* @family)", &synonyms);
    assert_eq!("(.*)my (.* family)", re_perms[0]);
    assert_eq!("(.*)my (.* brother)", re_perms[1]);
    assert_eq!("(.*)my (.* mother)", re_perms[2]);
}

#[test]
fn perm_invalid() {
    let synonyms = family_synonyms();

    let re_perms = permutations("(.*)my (.* @family @fail)", &synonyms);
    assert!(re_perms.is_empty());
}

#[test]
fn perm_simple() {
    let synonyms = family_synonyms();

    let re_perms = permutations("(.*)my (.* dog)", &synonyms);
    assert_eq!(1, re_perms.len());
    assert_eq!("(.*)my (.* dog)", re_perms[0]);
}

#[test]
fn perm_unknown_synonym() {
    let synonyms = family_synonyms();

    let re_perms = permutations("(.*) @dog (.*)", &synonyms);
    assert_eq!(1, re_perms.len());
    assert_eq!("(.*) dog (.*)", re_perms[0]);
}

#[test]
fn alphabet_scrub() {
    assert_eq!("family", Standard.scrub("@family"));
    assert_eq!("2", Alphanumeric.scrub("$2?"));
    assert_eq!("2a", Alphanumeric.scrub("$2a!"));
    assert_eq!("", Standard.scrub("123"));
}

#[test]
fn alphabet_positions() {
    assert_eq!(Some(0), Standard.find_position('a'));
    assert_eq!(Some(2), Standard.find_position('C'));
    assert_eq!(None, Standard.find_position('3'));
    assert_eq!(Some(28), Alphanumeric.find_position('2'));
    assert_eq!(26, Standard.length());
    assert_eq!(36, Alphanumeric.length());
}

#[test]
fn alphabet_letters() {
    assert_eq!(Some('z'), Standard.get_letter(25, false));
    assert_eq!(Some('A'), Standard.get_letter(0, true));
    assert_eq!(None, Standard.get_letter(26, false));
    assert_eq!(Some('0'), Alphanumeric.get_letter(26, false));
    assert_eq!(None, Alphanumeric.get_letter(36, true));
}

#[test]
fn alphabet_validity() {
    assert!(Standard.is_valid("abcXYZ"));
    assert!(!Standard.is_valid("ab c"));
    assert!(Alphanumeric.is_valid("abc123"));
    assert!(!Alphanumeric.is_valid("abc 123"));
}
