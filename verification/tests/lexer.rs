use std::rc::Rc;

use z_sharp::lexer::capture::{
    rule_kind, same_text, CaptureResult, CaptureResultData, CaptureResultsMap, Chain, ChildDetails,
    LogicDetails, OrDetails, RepeatDetails, Rule, RuleDetails, RuleKind, SingleDetails,
};
use z_sharp::lexer::consumer::Consumer;
use z_sharp::modification::gluea::LuaRc;
use z_sharp::pattern::{leading_match, pattern_is_valid};
use z_sharp::strmap::StrMap;

fn single(name: Option<&str>, required: bool, pattern: &str) -> Rule {
    Rule {
        name: name.map(|n| n.to_string()),
        required,
        details: RuleDetails::Single(SingleDetails { pattern: pattern.to_string() }),
    }
}

fn repeat(name: Option<&str>, rules: Vec<Rule>, min: Option<usize>, max: Option<usize>) -> Rule {
    Rule {
        name: name.map(|n| n.to_string()),
        required: false,
        details: RuleDetails::Repeat(RepeatDetails { rules, seperator: None, min, max }),
    }
}

fn no_lua(_: &mlua::Function, _: &CaptureResultsMap) -> bool {
    panic!("no Logic rule should be checked here")
}

fn always(verdict: bool) -> impl Fn(&mlua::Function, &CaptureResultsMap) -> bool {
    move |_: &mlua::Function, _: &CaptureResultsMap| verdict
}

fn empty_consumer() -> Consumer {
    Consumer::new("test".to_string(), Vec::new())
}

fn lua_function(lua: &mlua::Lua) -> mlua::Function {
    lua.create_function(|_, ()| Ok(true)).unwrap()
}

#[test]
fn pattern_validity() {
    assert!(pattern_is_valid("[a-z]+"));
    assert!(!pattern_is_valid("("));
}

#[test]
fn leading_match_only_at_start() {
    assert_eq!(leading_match("[0-9]+", "123abc"), Some("123".to_string()));
    assert_eq!(leading_match("[0-9]+", "abc123"), None);
    assert_eq!(leading_match("x*", "abc"), Some(String::new()));
    assert_eq!(leading_match("é+", "éé!"), Some("éé".to_string()));
}

#[test]
fn same_text_compares_characters() {
    assert!(same_text("single", "single"));
    assert!(!same_text("single", "singles"));
    assert!(!same_text("or", "of"));
    assert!(same_text("", ""));
}

#[test]
fn rule_kind_by_name() {
    assert!(matches!(rule_kind("single"), RuleKind::Single));
    assert!(matches!(rule_kind("or"), RuleKind::Or));
    assert!(matches!(rule_kind("repeat"), RuleKind::Repeat));
    assert!(matches!(rule_kind("child"), RuleKind::Child));
    assert!(matches!(rule_kind("recurse"), RuleKind::Recurse));
    assert!(matches!(rule_kind("logic"), RuleKind::Logic));
    assert!(matches!(rule_kind("Single"), RuleKind::Unknown));
    assert!(matches!(rule_kind(""), RuleKind::Unknown));
}

#[test]
fn chain_new_is_empty() {
    let chain = Chain::new("words".to_string()).unwrap();
    assert_eq!(chain.name, "words");
    assert!(chain.rules.is_empty());
    assert!(chain.properties.is_empty());
}

#[test]
fn chain_capture_appends_in_order() {
    let mut chain = Chain::new("c".to_string()).unwrap();
    assert!(chain.capture(single(Some("a"), true, "a")).is_ok());
    assert!(chain.capture(single(Some("b"), true, "b")).is_ok());
    assert!(chain.capture_all(vec![single(Some("c"), true, "c"), single(None, false, "d")]).is_ok());
    let names: Vec<Option<String>> = chain.rules.iter().map(|r| r.name.clone()).collect();
    assert_eq!(
        names,
        vec![Some("a".to_string()), Some("b".to_string()), Some("c".to_string()), None]
    );
}

#[test]
fn chain_set_property_replaces() {
    let mut chain = Chain::new("c".to_string()).unwrap();
    assert!(chain.set_property("kind".to_string(), "word".to_string()).is_ok());
    assert!(chain.set_property("mode".to_string(), "fast".to_string()).is_ok());
    assert!(chain.set_property("kind".to_string(), "number".to_string()).is_ok());
    assert_eq!(chain.properties.len(), 2);
    assert_eq!(chain.properties.get(&"kind".to_string()), Some(&"number".to_string()));
    assert_eq!(chain.properties.key_at(0), "kind");
    assert_eq!(chain.properties.get(&"mode".to_string()), Some(&"fast".to_string()));
}

#[test]
fn chain_create_consumer_copies_rules() {
    let mut chain = Chain::new("digits".to_string()).unwrap();
    chain.capture(single(Some("n"), true, "[0-9]+")).unwrap();
    let mut consumer = chain.create_consumer();
    assert_eq!(consumer.name, "digits");
    assert_eq!(consumer.rules.len(), 1);
    let (found, all, rest) = consumer.consume("42 rest", &no_lua);
    assert!(all);
    assert_eq!(found.unwrap().get(&"n".to_string()).unwrap().captured, "42");
    assert_eq!(rest, " rest");
}

#[test]
fn rule_default_and_clone() {
    let rule = Rule::default();
    assert!(rule.name.is_none());
    assert!(!rule.required);
    assert!(matches!(rule.details, RuleDetails::Unknown));
    let source_rule = repeat(Some("r"), vec![single(None, true, "a")], Some(1), Some(3));
    let copy = source_rule.clone();
    assert_eq!(copy.name, Some("r".to_string()));
    match copy.details {
        RuleDetails::Repeat(d) => {
            assert_eq!(d.rules.len(), 1);
            assert_eq!(d.min, Some(1));
            assert_eq!(d.max, Some(3));
        },
        _ => panic!("clone changed the kind of rule"),
    }
}

#[test]
fn capture_result_default_and_clone() {
    let r = CaptureResult::default();
    assert!(!r.is_match);
    assert!(r.captured.is_empty());
    assert!(r.data.is_none());
    let consumer = empty_consumer();
    let results = CaptureResultsMap::new();
    let rule = repeat(Some("as"), vec![single(Some("a"), true, "a")], None, None);
    let found = consumer.check(rule, &results, "aab", &no_lua);
    let copy = found.clone();
    assert_eq!(copy.captured, "aa");
    match copy.data {
        Some(CaptureResultData::Repeat(v)) => assert_eq!(v.len(), 2),
        _ => panic!("clone lost the repetitions"),
    }
}

#[test]
fn single_matches_at_start() {
    let consumer = empty_consumer();
    let results = CaptureResultsMap::new();
    let r = consumer.check(single(Some("id"), true, "[a-z]+"), &results, "abc def", &no_lua);
    assert!(r.is_match);
    assert_eq!(r.captured, "abc");
    assert!(matches!(r.data, Some(CaptureResultData::Single)));
}

#[test]
fn single_no_match_depends_on_required() {
    let consumer = empty_consumer();
    let results = CaptureResultsMap::new();
    let required = consumer.check(single(None, true, "[0-9]+"), &results, "abc", &no_lua);
    assert!(!required.is_match);
    assert_eq!(required.captured, "");
    let optional = consumer.check(single(None, false, "[0-9]+"), &results, "abc", &no_lua);
    assert!(optional.is_match);
    assert_eq!(optional.captured, "");
    let later = consumer.check(single(None, true, "c"), &results, "abc", &no_lua);
    assert!(!later.is_match);
}

#[test]
fn single_with_bad_pattern_cannot_be_checked() {
    let consumer = empty_consumer();
    let results = CaptureResultsMap::new();
    assert!(consumer.try_check(single(None, true, "("), &results, "abc", &no_lua).is_none());
}

#[test]
fn or_runs_each_alternative() {
    let consumer = empty_consumer();
    let results = CaptureResultsMap::new();
    let mut alternatives: StrMap<Vec<Rule>> = StrMap::new();
    alternatives.insert("digits".to_string(), vec![single(None, true, "[0-9]+")]);
    alternatives.insert("letters".to_string(), vec![single(None, true, "[a-z]+")]);
    let rule = Rule { name: Some("either".to_string()), required: true, details: RuleDetails::Or(OrDetails { rules_map: alternatives }) };
    let r = consumer.check(rule, &results, "12ab!", &no_lua);
    assert!(r.is_match);
    assert_eq!(r.captured, "12ab");
}

#[test]
fn or_without_any_match_falls_back_to_required() {
    let consumer = empty_consumer();
    let results = CaptureResultsMap::new();
    let mut alternatives: StrMap<Vec<Rule>> = StrMap::new();
    alternatives.insert("digits".to_string(), vec![single(None, true, "[0-9]+")]);
    let required = Rule { name: None, required: true, details: RuleDetails::Or(OrDetails { rules_map: alternatives }) };
    let r = consumer.check(required.clone(), &results, "ab", &no_lua);
    assert!(!r.is_match);
    assert_eq!(r.captured, "");
    let optional = Rule { required: false, ..required };
    assert!(consumer.check(optional, &results, "ab", &no_lua).is_match);
}

#[test]
fn repeat_counts_against_min_and_max() {
    let consumer = empty_consumer();
    let results = CaptureResultsMap::new();
    let a = || vec![single(None, true, "a")];
    let unbounded = consumer.check(repeat(None, a(), None, None), &results, "aaab", &no_lua);
    assert!(unbounded.is_match);
    assert_eq!(unbounded.captured, "aaa");
    let capped = consumer.check(repeat(None, a(), None, Some(2)), &results, "aaab", &no_lua);
    assert_eq!(capped.captured, "aa");
    let too_few = Rule { required: true, ..repeat(None, a(), Some(4), None) };
    let too_few = consumer.check(too_few, &results, "aaab", &no_lua);
    assert!(!too_few.is_match);
    assert_eq!(too_few.captured, "");
    let optional = consumer.check(repeat(None, a(), Some(4), None), &results, "aaab", &no_lua);
    assert!(optional.is_match);
    assert_eq!(optional.captured, "");
    let empty = consumer.check(repeat(None, Vec::new(), None, None), &results, "aaab", &no_lua);
    assert!(empty.is_match);
    assert_eq!(empty.captured, "");
}

#[test]
fn child_runs_a_chain() {
    let consumer = empty_consumer();
    let results = CaptureResultsMap::new();
    let mut inner = Chain::new("pair".to_string()).unwrap();
    inner.capture(single(Some("key"), true, "[a-z]+")).unwrap();
    inner.capture(single(None, true, "=")).unwrap();
    inner.capture(single(Some("value"), true, "[0-9]+")).unwrap();
    let rule = Rule { name: Some("pair".to_string()), required: true, details: RuleDetails::Child(ChildDetails { child: LuaRc(Rc::new(inner)) }) };
    let r = consumer.check(rule, &results, "x=10;", &no_lua);
    assert!(r.is_match);
    assert_eq!(r.captured, "x=10");
    match r.data {
        Some(CaptureResultData::Child(m)) => {
            assert_eq!(m.get(&"key".to_string()).unwrap().captured, "x");
            assert_eq!(m.get(&"value".to_string()).unwrap().captured, "10");
        },
        _ => panic!("a child match records its results"),
    }
}

#[test]
fn logic_asks_the_evaluator() {
    let lua = mlua::Lua::new();
    let consumer = empty_consumer();
    let results = CaptureResultsMap::new();
    let rule = Rule { name: None, required: true, details: RuleDetails::Logic(LogicDetails { func: Some(LuaRc::new(lua_function(&lua))) }) };
    assert!(consumer.check(rule.clone(), &results, "x", &always(true)).is_match);
    assert!(!consumer.check(rule, &results, "x", &always(false)).is_match);
    let without = Rule { name: None, required: true, details: RuleDetails::Logic(LogicDetails { func: None }) };
    assert!(consumer.try_check(without, &results, "x", &always(true)).is_none());
}

#[test]
fn logic_sees_the_results_so_far() {
    let lua = mlua::Lua::new();
    let func = lua_function(&lua);
    let rules = vec![
        single(Some("word"), true, "[a-z]+"),
        Rule { name: None, required: true, details: RuleDetails::Logic(LogicDetails { func: Some(LuaRc::new(func)) }) },
    ];
    let mut consumer = Consumer::new("c".to_string(), rules);
    let seen_word = |_: &mlua::Function, m: &CaptureResultsMap| m.contains_key(&"word".to_string());
    let (found, all, rest) = consumer.consume("abc1", &seen_word);
    assert!(all);
    assert!(found.is_some());
    assert_eq!(rest, "1");
}

#[test]
fn recurse_and_unknown_cannot_be_checked() {
    let consumer = empty_consumer();
    let results = CaptureResultsMap::new();
    let recurse = Rule { name: None, required: true, details: RuleDetails::Recurse() };
    assert!(consumer.try_check(recurse, &results, "x", &no_lua).is_none());
    assert!(consumer.try_check(Rule::default(), &results, "x", &no_lua).is_none());
}

#[test]
fn consume_gathers_named_results() {
    let mut consumer = Consumer::new(
        "assign".to_string(),
        vec![single(Some("name"), true, "[a-z]+"), single(None, true, " *= *"), single(Some("value"), true, "[0-9]+")],
    );
    let (found, all, rest) = consumer.consume("x = 42;", &no_lua);
    assert!(all);
    assert_eq!(rest, ";");
    let found = found.unwrap();
    assert_eq!(found.len(), 2);
    assert_eq!(found.get(&"name".to_string()).unwrap().captured, "x");
    assert_eq!(found.get(&"value".to_string()).unwrap().captured, "42");
}

#[test]
fn consume_failure_leaves_all_text() {
    let mut consumer = Consumer::new(
        "assign".to_string(),
        vec![single(Some("name"), true, "[a-z]+"), single(None, true, "=")],
    );
    let (found, all, rest) = consumer.consume("x + 1", &no_lua);
    assert!(!all);
    assert!(found.is_none());
    assert_eq!(rest, "x + 1");
    assert!(consumer.try_consume("x=", &no_lua).unwrap().1);
}

#[test]
fn consume_without_rules_matches_nothing() {
    let mut consumer = empty_consumer();
    let (found, all, rest) = consumer.consume("text", &no_lua);
    assert!(all);
    assert!(found.unwrap().is_empty());
    assert_eq!(rest, "text");
}

#[test]
fn rules_without_logic_never_ask_lua() {
    let mut alternatives: StrMap<Vec<Rule>> = StrMap::new();
    alternatives.insert("sign".to_string(), vec![single(None, true, "[+-]")]);
    let mut inner = Chain::new("digits".to_string()).unwrap();
    inner.capture(repeat(Some("d"), vec![single(None, true, "[0-9]")], Some(1), None)).unwrap();
    let rules = vec![
        Rule { name: Some("sign".to_string()), required: false, details: RuleDetails::Or(OrDetails { rules_map: alternatives }) },
        Rule { name: Some("number".to_string()), required: true, details: RuleDetails::Child(ChildDetails { child: LuaRc::new(inner) }) },
    ];
    let mut consumer = Consumer::new("signed".to_string(), rules);
    let (found, all, rest) = consumer.consume("-42x", &no_lua);
    assert!(all);
    assert_eq!(rest, "x");
    let found = found.unwrap();
    assert_eq!(found.get(&"sign".to_string()).unwrap().captured, "-");
    assert_eq!(found.get(&"number".to_string()).unwrap().captured, "42");
}

#[test]
fn consume_counts_characters_not_bytes() {
    let mut consumer = Consumer::new(
        "accents".to_string(),
        vec![single(Some("word"), true, "[éa]+"), single(None, true, "ü")],
    );
    let (found, all, rest) = consumer.consume("aéaü→x", &no_lua);
    assert!(all);
    assert_eq!(found.unwrap().get(&"word".to_string()).unwrap().captured, "aéa");
    assert_eq!(rest, "→x");
}

#[test]
fn check_results_keep_their_rule_and_no_match_is_empty() {
    let consumer = empty_consumer();
    let results = CaptureResultsMap::new();
    let rules = vec![
        single(Some("n"), true, "[0-9]+"),
        Rule { required: true, ..repeat(Some("r"), vec![single(None, true, "x")], Some(2), None) },
        single(Some("w"), true, "[a-z]+"),
    ];
    for rule in rules {
        let name = rule.name.clone();
        let r = consumer.check(rule, &results, "abc", &no_lua);
        assert_eq!(r.rule.name, name);
        if r.data.is_some() {
            assert!(r.is_match);
        }
        if !r.is_match {
            assert!(r.captured.is_empty());
            assert!(r.data.is_none());
        }
    }
}
