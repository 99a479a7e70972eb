use std::cell::Cell;

use z_sharp::build::error::Error;
use z_sharp::build::intermediate::Intermediate;
use z_sharp::build::source::Position;
use z_sharp::build::Config;
use z_sharp::build_config::BuildConfig;
use z_sharp::lexer::capture::{CaptureResultsMap, Chain, Rule, RuleDetails, SingleDetails};
use z_sharp::modification::Modification;
use z_sharp::strmap::StrMap;

type Resolver = Box<dyn Fn(String) -> Option<String>>;

fn single(pattern: &str) -> Rule {
    Rule { name: None, required: true, details: RuleDetails::Single(SingleDetails { pattern: pattern.to_string() }) }
}

fn chain(name: &str, patterns: &[&str]) -> Chain {
    let mut c = Chain::new(name.to_string()).unwrap();
    for p in patterns {
        c.capture(single(p)).unwrap();
    }
    c
}

fn config(n: usize) -> Config {
    Config { mods: (0..n).map(|_| Modification { name: "mod", lua: mlua::Lua::new() }).collect() }
}

fn no_lua(_: &mlua::Function, _: &CaptureResultsMap) -> bool {
    panic!("no Logic rule should be checked here")
}

fn words_and_spaces(cfg: &Config) -> Intermediate<'_, Resolver> {
    let fetch = |_: &Modification| Ok(vec![chain("word", &["[a-z]+"]), chain("space", &[" +"])]);
    Intermediate::new(cfg, &fetch).ok().unwrap()
}

#[test]
fn position_default_is_origin() {
    let p = Position::default();
    assert_eq!(p.line, 0);
    assert_eq!(p.column, 0);
}

#[test]
fn build_config_holds_sources() {
    let mut source = StrMap::new();
    source.insert("main".to_string(), "text".to_string());
    let b = BuildConfig { mods: Vec::new(), source };
    assert!(b.mods.is_empty());
    assert_eq!(b.source.get(&"main".to_string()), Some(&"text".to_string()));
}

#[test]
fn new_reads_every_registry_in_order() {
    let cfg = config(2);
    let calls = Cell::new(0);
    let fetch = |_: &Modification| {
        calls.set(calls.get() + 1);
        Ok(vec![chain("word", &["[a-z]+"])])
    };
    let im: Intermediate<'_, Resolver> = Intermediate::new(&cfg, &fetch).ok().unwrap();
    assert_eq!(calls.get(), 2);
    assert!(im.sources.is_empty());
    assert!(im.source_resolvers.is_empty());
    assert_eq!(im.config.mods.len(), 2);
}

#[test]
fn new_stops_at_a_failed_registry() {
    let cfg = config(3);
    let calls = Cell::new(0);
    let fetch = |_: &Modification| {
        calls.set(calls.get() + 1);
        if calls.get() == 2 {
            Err(mlua::Error::RuntimeError("no registry".to_string()))
        } else {
            Ok(Vec::new())
        }
    };
    let r: Result<Intermediate<'_, Resolver>, Error> = Intermediate::new(&cfg, &fetch);
    assert!(matches!(r, Err(Error::ProxyFailure(_))));
    assert_eq!(calls.get(), 2);
}

#[test]
fn source_requests() {
    let cfg = config(1);
    let mut im = words_and_spaces(&cfg);
    match im.resolvers_for("main") {
        Err(Error::NoSourceResolversAvailableFor(name)) => assert_eq!(name, "main"),
        _ => panic!("with no resolvers a request fails"),
    }
    im.add_source_resolvers(Box::new(|name: String| Some(name)));
    im.add_source_resolvers(Box::new(|_: String| None));
    assert!(matches!(im.resolvers_for("main"), Ok(2)));
    assert_eq!((im.source_resolvers[0])("x".to_string()), Some("x".to_string()));
    assert!(im.accept_source("main", None, 1).is_none());
    assert!(im.sources.is_empty());
    match im.accept_source("main", None, 0) {
        Some(Err(Error::NoSourceResolversAvailableFor(name))) => assert_eq!(name, "main"),
        _ => panic!("when every resolver found nothing the request fails"),
    }
    assert!(im.sources.is_empty());
    assert!(matches!(im.accept_source("main", Some("ab cd".to_string()), 1), Some(Ok(()))));
    assert_eq!(im.sources.get(&"main".to_string()), Some(&"ab cd".to_string()));
    assert!(matches!(im.accept_source("main", Some("xy".to_string()), 0), Some(Ok(()))));
    assert_eq!(im.sources.len(), 1);
    assert_eq!(im.sources.get(&"main".to_string()), Some(&"xy".to_string()));
}

#[test]
fn interpret_consumes_all_text() {
    let cfg = config(1);
    let mut im = words_and_spaces(&cfg);
    im.accept_source("main", Some("ab cd  ef".to_string()), 0);
    assert!(matches!(im.interpret("main", &no_lua), Ok(())));
    im.accept_source("empty", Some(String::new()), 0);
    assert!(matches!(im.interpret("empty", &no_lua), Ok(())));
}

#[test]
fn interpret_reports_no_match() {
    let cfg = config(1);
    let mut im = words_and_spaces(&cfg);
    im.accept_source("main", Some("ab 12".to_string()), 0);
    match im.interpret("main", &no_lua) {
        Err(Error::NoMatches(p)) => {
            assert_eq!(p.line, 0);
            assert_eq!(p.column, 0);
        },
        _ => panic!("no consumer matches the digits"),
    }
}

#[test]
fn interpret_without_consumers() {
    let cfg = config(1);
    let fetch = |_: &Modification| Ok(Vec::new());
    let mut im: Intermediate<'_, Resolver> = Intermediate::new(&cfg, &fetch).ok().unwrap();
    im.accept_source("main", Some(String::new()), 0);
    assert!(matches!(im.interpret("main", &no_lua), Err(Error::NoConsumers)));
}

#[test]
fn try_interpret_cases() {
    let cfg = config(1);
    let mut im = words_and_spaces(&cfg);
    assert!(im.try_interpret("missing", &no_lua).is_none());
    im.accept_source("main", Some("ab".to_string()), 0);
    assert!(matches!(im.try_interpret("main", &no_lua), Some(Ok(()))));
    let fetch = |_: &Modification| Ok(vec![chain("anything", &["[0-9]*"])]);
    let mut stalls: Intermediate<'_, Resolver> = Intermediate::new(&cfg, &fetch).ok().unwrap();
    stalls.accept_source("main", Some("ab".to_string()), 0);
    assert!(matches!(stalls.try_interpret("main", &no_lua), Some(Err(Error::NoMatches(_)))));
    assert!(matches!(stalls.interpret("main", &no_lua), Err(Error::NoMatches(_))));
}

#[test]
fn a_failed_resolver_ends_the_request() {
    let cfg = config(1);
    let im = words_and_spaces(&cfg);
    match im.resolver_failed("main") {
        Err(Error::NoSourceResolversAvailableFor(name)) => assert_eq!(name, "main"),
        _ => panic!("a failed resolver ends the request with an error"),
    }
    assert!(im.sources.is_empty());
}
