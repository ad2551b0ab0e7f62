use eliza::assembly::{assemble, is_goto, reflect};
use eliza::Eliza;
use eliza::script::Reflection;

fn usage_count(e: &Eliza, key: &str) -> usize {
    e.rule_usage.iter().find(|p| p.0 == key).expect("key not recorded").1
}

fn four_rules() -> Vec<String> {
    vec![
        String::from("first"),
        String::from("second"),
        String::from("third"),
        String::from("fourth"),
    ]
}

#[test]
fn recon_rule_equal() {
    let mut e = Eliza::default();
    e.rule_usage = vec![
        (String::from("first"), 1),
        (String::from("second"), 1),
        (String::from("third"), 1),
        (String::from("fourth"), 1),
    ];

    assert_eq!("first", e.get_reassembly("", &four_rules()).unwrap());
    assert_eq!(2, usage_count(&e, "first"));
}

#[test]
fn recon_rule_smaller() {
    let mut e = Eliza::default();
    e.rule_usage = vec![
        (String::from("first"), 7),
        (String::from("second"), 3),
        (String::from("third"), 2),
        (String::from("fourth"), 10),
    ];

    assert_eq!("third", e.get_reassembly("", &four_rules()).unwrap());
    assert_eq!(3, usage_count(&e, "third"));
}

#[test]
fn recon_rule_unknown() {
    let mut e = Eliza::default();
    e.rule_usage = vec![
        (String::from("first"), 7),
        (String::from("second"), 3),
        (String::from("third"), 2),
    ];

    assert_eq!("fourth", e.get_reassembly("", &four_rules()).unwrap());
    assert_eq!(1, usage_count(&e, "fourth"));
}

#[test]
fn assemble_rule_equal() {
    let mut e = Eliza::default();
    e.rule_usage = vec![
        (String::from("first"), 1),
        (String::from("second"), 1),
        (String::from("third"), 1),
        (String::from("fourth"), 1),
    ];

    assert_eq!("first", e.get_reassembly("", &four_rules()).unwrap());
    assert_eq!(2, usage_count(&e, "first"));
}

#[test]
fn assemble_rule_smaller() {
    let mut e = Eliza::default();
    e.rule_usage = vec![
        (String::from("first"), 7),
        (String::from("second"), 3),
        (String::from("third"), 2),
        (String::from("fourth"), 10),
    ];

    assert_eq!("third", e.get_reassembly("", &four_rules()).unwrap());
    assert_eq!(3, usage_count(&e, "third"));
}

#[test]
fn assemble_rule_unknown() {
    let mut e = Eliza::default();
    e.rule_usage = vec![
        (String::from("first"), 7),
        (String::from("second"), 3),
        (String::from("third"), 2),
    ];

    assert_eq!("fourth", e.get_reassembly("", &four_rules()).unwrap());
    assert_eq!(1, usage_count(&e, "fourth"));
}

#[test]
fn reassembly_namespaced_by_rule() {
    // the same template text under two decomposition rules counts separately
    let mut e = Eliza::default();
    let rules = vec![String::from("Really?")];
    assert_eq!("Really?", e.get_reassembly("(.*)a(.*)", &rules).unwrap());
    assert_eq!("Really?", e.get_reassembly("(.*)b(.*)", &rules).unwrap());
    assert_eq!(1, usage_count(&e, "(.*)a(.*)Really?"));
    assert_eq!(1, usage_count(&e, "(.*)b(.*)Really?"));
}

#[test]
fn reassembly_none_from_empty_list() {
    let mut e = Eliza::default();
    let rules: Vec<String> = Vec::new();
    assert!(e.get_reassembly("(.*)", &rules).is_none());
    assert!(e.rule_usage.is_empty());
}

fn stupid_captures() -> Vec<String> {
    // the capture groups of "(.*) you are (.*)" against
    // "I think that you are so stupid", whole match first
    vec![
        String::from("I think that you are so stupid"),
        String::from("I think that"),
        String::from("so stupid"),
    ]
}

#[test]
fn recon_ok() {
    let reflections: Vec<Reflection> = Vec::new();
    let res = assemble("What makes you think I am $2 ?", &stupid_captures(), &reflections);
    assert_eq!(res.unwrap(), "What makes you think I am so stupid ?");
}

#[test]
fn recon_invalid_index() {
    let reflections: Vec<Reflection> = Vec::new();
    let res = assemble("What makes you think I am $5 ?", &stupid_captures(), &reflections);
    assert!(res.is_none());
}

#[test]
fn recon_invalid_id() {
    let reflections: Vec<Reflection> = Vec::new();
    let res = assemble("What makes you think I am $a ?", &stupid_captures(), &reflections);
    assert!(res.is_none());
}

#[test]
fn assemble_ok() {
    let reflections: Vec<Reflection> = Vec::new();
    let res = assemble("What makes you think I am $2?", &stupid_captures(), &reflections);
    assert_eq!(res.unwrap(), "What makes you think I am so stupid?");
}

#[test]
fn assemble_invalid_index() {
    let reflections: Vec<Reflection> = Vec::new();
    let res = assemble("What makes you think I am $5 ?", &stupid_captures(), &reflections);
    assert!(res.is_none());
}

#[test]
fn assemble_invalid_id() {
    let reflections: Vec<Reflection> = Vec::new();
    let res = assemble("What makes you think I am $a ?", &stupid_captures(), &reflections);
    assert!(res.is_none());
}

#[test]
fn assemble_reflects_captures() {
    let reflections = vec![
        Reflection { word: String::from("my"), inverse: String::from("your"), twoway: true },
        Reflection { word: String::from("i"), inverse: String::from("you"), twoway: true },
    ];
    let captures = vec![
        String::from("i think about my life"),
        String::from("i think about my life"),
    ];
    let res = assemble("Really, $1?", &captures, &reflections);
    assert_eq!(res.unwrap(), "Really, you think about your life?");
}

#[test]
fn reflect_two_way_pair() {
    let reflections = vec![
        Reflection { word: String::from("i"), inverse: String::from("you"), twoway: true },
    ];
    assert_eq!("you i you", reflect("i you i", &reflections));
}

#[test]
fn reflect_one_way_only() {
    let reflections = vec![
        Reflection { word: String::from("me"), inverse: String::from("you"), twoway: false },
    ];
    assert_eq!("you saw you", reflect("me saw you", &reflections));
}

#[test]
fn reflect_normalizes_spacing() {
    let reflections: Vec<Reflection> = Vec::new();
    assert_eq!("a b", reflect("  a   b  ", &reflections));
}

#[test]
fn goto_detection() {
    assert_eq!(Some(String::from("alike")), is_goto("GOTO alike"));
    assert_eq!(Some(String::from("my")), is_goto("  GOTO   my  "));
    assert_eq!(None, is_goto("What makes you think that?"));
}
