use std::rc::Rc;
use z_sharp::modification::capsule::Tour;

use z_sharp::modification::capture::{
    Chain, ChildConfig, LogicConfig, OrConfig, RepeatConfig, Rule, SingleConfig,
};
use z_sharp::modification::consumer::{CaptureResult, CaptureResultData, Consumer, Results};
use z_sharp::modification::gluea::{Gluea, LuaHider, LuaRc};
use z_sharp::modification::Modification;
use z_sharp::strmap::StrMap;

fn single(name: Option<&str>, pattern: &str, required: Option<bool>) -> Rule {
    Rule::Single(SingleConfig { name: name.map(|n| n.to_string()), pattern: pattern.to_string(), required })
}

fn repeat(name: Option<&str>, rules: Vec<Rule>, min: Option<usize>, max: Option<usize>) -> Rule {
    Rule::Repeat(RepeatConfig { name: name.map(|n| n.to_string()), rules, seperator: None, min, max })
}

fn no_lua(_: &mlua::Function, _: &Results) -> bool {
    panic!("no Logic rule should be checked here")
}

fn consumer() -> Consumer {
    Consumer::new(Vec::new())
}

fn gluea() -> Gluea {
    Gluea::new(mlua::Lua::new())
}

#[test]
fn single_ignores_required() {
    let c = consumer();
    let results = Results::new();
    let hit = c.check(single(Some("n"), "[0-9]+", None), &results, "12x", &no_lua);
    assert!(hit.is_match);
    assert_eq!(hit.captured, "12");
    assert_eq!(hit.name, Some("n".to_string()));
    assert!(matches!(hit.data, Some(CaptureResultData::Single)));
    let miss = c.check(single(Some("n"), "[0-9]+", Some(false)), &results, "x12", &no_lua);
    assert!(!miss.is_match);
    assert_eq!(miss.captured, "");
    assert_eq!(miss.name, Some("n".to_string()));
    assert!(miss.data.is_none());
    assert!(c.try_check(single(None, "[", None), &results, "x", &no_lua).is_none());
}

#[test]
fn or_takes_the_first_match_on_the_whole_text() {
    let c = consumer();
    let results = Results::new();
    let mut list: StrMap<Vec<Rule>> = StrMap::new();
    list.insert("letters".to_string(), vec![single(None, "[0-9]", None), single(None, "[a-z]+", None)]);
    list.insert("word".to_string(), vec![single(None, "[a-z]+[0-9]", None)]);
    let rule = Rule::Or(OrConfig { name: Some("either".to_string()), rules_list: list, required: None });
    let r = c.check(rule, &results, "ab1", &no_lua);
    assert!(r.is_match);
    assert_eq!(r.name, Some("either".to_string()));
    assert_eq!(r.captured, "ab");
    match r.data {
        Some(CaptureResultData::Or(m)) => {
            assert_eq!(m.len(), 1);
            assert_eq!(m.get(&"letters".to_string()).unwrap().captured, "ab");
        },
        _ => panic!("an Or rule records what it found"),
    }
}

#[test]
fn or_without_match_is_required_only_when_asked() {
    let c = consumer();
    let results = Results::new();
    let list = || {
        let mut l: StrMap<Vec<Rule>> = StrMap::new();
        l.insert("digit".to_string(), vec![single(None, "[0-9]", None)]);
        l
    };
    let plain = Rule::Or(OrConfig { name: None, rules_list: list(), required: None });
    let r = c.check(plain, &results, "ab", &no_lua);
    assert!(!r.is_match);
    assert_eq!(r.captured, "");
    let forced = Rule::Or(OrConfig { name: None, rules_list: list(), required: Some(true) });
    let r = c.check(forced, &results, "ab", &no_lua);
    assert!(r.is_match);
    assert_eq!(r.captured, "");
    match r.data {
        Some(CaptureResultData::Or(m)) => assert!(m.is_empty()),
        _ => panic!("an Or rule always records its alternatives found"),
    }
}

#[test]
fn repeat_needs_one_repetition_by_default() {
    let c = consumer();
    let results = Results::new();
    let a = || vec![single(None, "a", None)];
    let r = c.check(repeat(Some("as"), a(), None, None), &results, "aaab", &no_lua);
    assert!(r.is_match);
    assert_eq!(r.captured, "aaa");
    assert!(r.name.is_none());
    match r.data {
        Some(CaptureResultData::Repeat(v)) => assert_eq!(v.len(), 3),
        _ => panic!("a Repeat rule records its repetitions"),
    }
    let none = c.check(repeat(None, a(), None, None), &results, "baa", &no_lua);
    assert!(!none.is_match);
    let zero_allowed = c.check(repeat(None, a(), Some(0), None), &results, "baa", &no_lua);
    assert!(zero_allowed.is_match);
    assert_eq!(zero_allowed.captured, "");
    let capped = c.check(repeat(None, a(), None, Some(2)), &results, "aaaa", &no_lua);
    assert_eq!(capped.captured, "aa");
}

#[test]
fn repeat_without_rules() {
    let c = consumer();
    let results = Results::new();
    assert!(c.try_check(repeat(None, Vec::new(), None, None), &results, "x", &no_lua).is_none());
    let r = c.check(repeat(None, Vec::new(), Some(0), Some(0)), &results, "x", &no_lua);
    assert!(r.is_match);
    assert!(matches!(r.data, Some(CaptureResultData::Repeat(ref v)) if v.is_empty()));
    let r = c.check(repeat(None, Vec::new(), None, Some(0)), &results, "x", &no_lua);
    assert!(!r.is_match);
}

#[test]
fn child_logic_and_empty_rules() {
    let c = consumer();
    let results = Results::new();
    let chain = Chain::new("inner".to_string(), gluea()).unwrap();
    let child = Rule::Child(ChildConfig { name: None, child: LuaRc::new(chain), required: None });
    assert!(c.try_check(child, &results, "x", &no_lua).is_none());
    let no_func = Rule::Logic(LogicConfig { func: None });
    assert!(c.try_check(no_func, &results, "x", &no_lua).is_none());
    let lua = mlua::Lua::new();
    let f = lua.create_function(|_, ()| Ok(false)).unwrap();
    let logic = Rule::Logic(LogicConfig { func: Some(f) });
    let yes = |_: &mlua::Function, _: &Results| true;
    let no = |_: &mlua::Function, _: &Results| false;
    assert!(c.check(logic.clone(), &results, "x", &yes).is_match);
    assert!(!c.check(logic, &results, "x", &no).is_match);
    let empty = c.check(Rule::default(), &results, "x", &no_lua);
    assert!(empty.is_match);
    assert_eq!(empty.captured, "");
}

#[test]
fn consume_records_named_results() {
    let mut c = Consumer::new(vec![
        single(Some("key"), "[a-z]+", None),
        single(None, "=", None),
        repeat(Some("digits"), vec![single(Some("d"), "[0-9]", None)], None, None),
    ]);
    let (found, rest) = c.consume("k=12;", &no_lua);
    assert_eq!(rest, ";");
    let found = found.unwrap();
    assert_eq!(found.len(), 1);
    assert_eq!(found.get(&"key".to_string()).unwrap().captured, "k");
    let (found, rest) = c.consume("k+12", &no_lua);
    assert!(found.is_none());
    assert_eq!(rest, "k+12");
    assert!(c.try_consume("", &no_lua).unwrap().0.is_none());
}

#[test]
fn chain_building() {
    let mut chain = Chain::new("c".to_string(), gluea()).unwrap();
    assert_eq!(chain.name, "c");
    assert!(chain.capture(single(Some("a"), "a", None)).is_ok());
    assert!(chain.capture(Rule::default()).is_ok());
    assert!(chain.set_property("k".to_string(), "v".to_string()).is_ok());
    assert!(chain.done().is_ok());
    assert_eq!(chain.rules.len(), 2);
    let mut c = chain.create_consumer();
    assert_eq!(c.rules.len(), 2);
    let (found, rest) = c.consume("ab", &no_lua);
    assert_eq!(found.unwrap().get(&"a".to_string()).unwrap().captured, "a");
    assert_eq!(rest, "b");
}

#[test]
fn capture_result_default() {
    let r = CaptureResult::default();
    assert!(r.name.is_none());
    assert!(r.captured.is_empty());
    assert!(r.data.is_none());
    assert!(!r.is_match);
    assert!(matches!(CaptureResultData::default(), CaptureResultData::Empty));
}

#[test]
fn gluea_and_hiders() {
    let g = gluea();
    assert!(g.borrow().0.globals().contains_key("string").is_ok());
    let hidden = LuaHider::new(7u8);
    assert_eq!(*hidden.peek().unwrap(), 7);
    let shared = LuaRc::new(String::from("text"));
    let other = shared.clone();
    assert!(Rc::ptr_eq(&shared.0, &other.0));
    assert_eq!(other.as_str(), "text");
}

#[test]
fn modification_holds_its_lua() {
    let m = Modification { name: "mod", lua: mlua::Lua::new() };
    assert_eq!(m.name, "mod");
    assert!(m.lua.load("return 1 + 1").eval::<i32>().unwrap() == 2);
}

#[test]
fn wrappers_deref_to_what_they_hold() {
    let g = gluea();
    let glue = g.borrow();
    assert!((*glue).globals().contains_key("table").is_ok());
    let hidden = LuaHider::new(3u8);
    assert_eq!(*hidden, Some(3));
    let shared = LuaRc::new(5u8);
    assert_eq!(Rc::strong_count(&*shared), 1);
    let again = shared.clone();
    assert_eq!(Rc::strong_count(&*again), 2);
}

#[test]
fn configured_consume_counts_characters_not_bytes() {
    let mut c = Consumer::new(vec![single(Some("w"), "[éa]+", None), single(None, "ü", None)]);
    let (found, rest) = c.consume("éaü→", &no_lua);
    assert_eq!(found.unwrap().get(&"w".to_string()).unwrap().captured, "éa");
    assert_eq!(rest, "→");
}

#[test]
fn tours_are_stable_until_invalidated() {
    let mut tour = Tour::new(7u8);
    assert!(tour.is_stable());
    assert_eq!(*tour.owner(), 7);
    let copy = tour.clone();
    tour.invalidate();
    assert!(!tour.is_stable());
    assert!(copy.is_stable());
}
