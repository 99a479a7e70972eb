//! Configured rules, where each kind of rule carries its own
//! configuration, and the chains that group them.
use vstd::prelude::*;

use crate::modification::consumer::Consumer;
use crate::modification::gluea::{Gluea, LuaHider, LuaRc};
use crate::strmap::StrMap;

verus! {

/// Cloning a Lua function handle (`mlua::Function`'s derived `Clone`, which
/// clones the inner reference): the copy is a handle on the same function.
pub assume_specification[ <mlua::Function as Clone>::clone ](f: &mlua::Function) -> (r: mlua::Function)
    ensures
        r == *f,
;

/// A repetition of rules.
pub struct RepeatConfig {
    pub name: Option<String>,
    pub rules: Vec<Rule>,
    pub seperator: Option<LuaRc<Rule>>,
    pub min: Option<usize>,
    pub max: Option<usize>,
}

/// Named alternatives, each a list of rules.
pub struct OrConfig {
    pub name: Option<String>,
    pub rules_list: StrMap<Vec<Rule>>,
    pub required: Option<bool>,
}

/// A regular expression that must match at the start of the text.
pub struct SingleConfig {
    pub name: Option<String>,
    pub pattern: String,
    pub required: Option<bool>,
}

/// A whole chain used as one rule.
pub struct ChildConfig {
    pub name: Option<String>,
    pub child: LuaRc<Chain>,
    pub required: Option<bool>,
}

/// A rule decided by a Lua function.
pub struct LogicConfig {
    pub func: Option<mlua::Function>,
}

/// A configured rule.
pub enum Rule {
    Single(SingleConfig),
    Or(OrConfig),
    Repeat(RepeatConfig),
    Child(ChildConfig),
    Logic(LogicConfig),
    Empty,
}

/// A named, ordered list of rules, with the Lua environment it came from.
pub struct Chain {
    pub(crate) glue: LuaHider<Gluea>,
    pub name: String,
    pub rules: Vec<Rule>,
    properties: StrMap<String>,
}

// ---------------------------------------------------------------------------
// Mathematical models
/// A rule, with its texts taken as character sequences.
pub enum RuleModel {
    Single { name: Option<Seq<char>>, pattern: Seq<char>, required: Option<bool> },
    Or {
        name: Option<Seq<char>>,
        rules_list: Seq<(Seq<char>, Seq<RuleModel>)>,
        required: Option<bool>,
    },
    Repeat {
        name: Option<Seq<char>>,
        rules: Seq<RuleModel>,
        seperator: Option<Box<RuleModel>>,
        min: Option<usize>,
        max: Option<usize>,
    },
    Child { name: Option<Seq<char>>, child: ChainModel, required: Option<bool> },
    Logic { func: Option<mlua::Function> },
    Empty,
}

/// A chain, with its texts taken as character sequences.
pub struct ChainModel {
    pub name: Seq<char>,
    pub rules: Seq<RuleModel>,
    pub properties: Seq<(Seq<char>, Seq<char>)>,
}

/// Optional text as an optional character sequence.
pub open spec fn opt_str_model(s: Option<String>) -> Option<Seq<char>> {
    match s {
        Some(s) => Some(s@),
        None => None,
    }
}

/// The models of a sequence of rules.
pub open spec fn rules_model(rs: Seq<Rule>) -> Seq<RuleModel>
    decreases rs, 0nat,
{
    if rs.len() == 0 {
        Seq::empty()
    } else {
        rules_model(rs.drop_last()).push(rule_model(rs.last()))
    }
}

/// The models of the first `n` alternatives of an `Or` rule.
pub open spec fn or_list_model(m: StrMap<Vec<Rule>>, n: nat) -> Seq<(Seq<char>, Seq<RuleModel>)>
    decreases m, n,
{
    if n == 0 || n > m.pairs().len() {
        Seq::empty()
    } else {
        proof {
            StrMap::lemma_value_decreases(m, n - 1);
        }
        or_list_model(m, (n - 1) as nat).push((m.pairs()[n - 1].0, rules_model(m.pairs()[n - 1].1@)))
    }
}

/// The model of a whole `Or` list.
pub open spec fn or_model(m: StrMap<Vec<Rule>>) -> Seq<(Seq<char>, Seq<RuleModel>)> {
    or_list_model(m, m.pairs().len())
}

/// The model of a chain.
pub closed spec fn chain_model(c: Chain) -> ChainModel
    decreases c, 0nat,
{
    ChainModel { name: c.name@, rules: rules_model(c.rules@), properties: c.properties_model() }
}

/// The model of a rule.
pub open spec fn rule_model(r: Rule) -> RuleModel
    decreases r, 0nat,
{
    match r {
        Rule::Single(c) => RuleModel::Single {
            name: opt_str_model(c.name),
            pattern: c.pattern@,
            required: c.required,
        },
        Rule::Or(c) => RuleModel::Or {
            name: opt_str_model(c.name),
            rules_list: or_list_model(c.rules_list, c.rules_list.pairs().len()),
            required: c.required,
        },
        Rule::Repeat(c) => RuleModel::Repeat {
            name: opt_str_model(c.name),
            rules: rules_model(c.rules@),
            seperator: match c.seperator {
                Some(s) => Some(Box::new(rule_model(*s.0))),
                None => None,
            },
            min: c.min,
            max: c.max,
        },
        Rule::Child(c) => RuleModel::Child {
            name: opt_str_model(c.name),
            child: chain_model(*c.child.0),
            required: c.required,
        },
        Rule::Logic(c) => RuleModel::Logic { func: c.func },
        Rule::Empty => RuleModel::Empty,
    }
}

impl View for Rule {
    type V = RuleModel;

    open spec fn view(&self) -> RuleModel {
        rule_model(*self)
    }
}

impl View for Chain {
    type V = ChainModel;

    closed spec fn view(&self) -> ChainModel {
        chain_model(*self)
    }
}

/// Element `i` of the models of a sequence is the model of element `i`.
pub proof fn lemma_rules_model(rs: Seq<Rule>)
    ensures
        rules_model(rs).len() == rs.len(),
        forall|i: int| 0 <= i < rs.len() ==> #[trigger] rules_model(rs)[i] == rule_model(rs[i]),
    decreases rs.len(),
{
    if rs.len() > 0 {
        lemma_rules_model(rs.drop_last());
    }
}

/// Entry `i` of the model of an `Or` list is the model of entry `i`.
pub proof fn lemma_or_list_model(m: StrMap<Vec<Rule>>, n: nat)
    requires
        n <= m.pairs().len(),
    ensures
        or_list_model(m, n).len() == n,
        forall|i: int|
            0 <= i < n ==> #[trigger] or_list_model(m, n)[i] == (
                m.pairs()[i].0,
                rules_model(m.pairs()[i].1@),
            ),
    decreases n,
{
    if n > 0 {
        lemma_or_list_model(m, (n - 1) as nat);
    }
}

// ---------------------------------------------------------------------------
// Copies
/// A copy of optional text.
pub fn clone_opt_string(s: &Option<String>) -> (r: Option<String>)
    ensures
        opt_str_model(r) == opt_str_model(*s),
{
    match s {
        Some(s) => Some(s.clone()),
        None => None,
    }
}

/// A copy of a list of rules.
pub fn clone_rules(v: &Vec<Rule>) -> (r: Vec<Rule>)
    ensures
        rules_model(r@) == rules_model(v@),
    decreases v,
{
    let mut out: Vec<Rule> = Vec::new();
    let mut i: usize = 0;
    while i < v.len()
        invariant
            i <= v@.len(),
            out@.len() == i,
            forall|j: int| 0 <= j < i ==> #[trigger] rule_model(out@[j]) == rule_model(v@[j]),
        decreases v@.len() - i,
    {
        let c = v[i].clone();
        out.push(c);
        i = i + 1;
    }
    proof {
        lemma_rules_model(out@);
        lemma_rules_model(v@);
        assert(rules_model(out@) =~= rules_model(v@));
    }
    out
}

/// A copy of the alternatives of an `Or` rule.
pub fn clone_or_list(m: &StrMap<Vec<Rule>>) -> (r: StrMap<Vec<Rule>>)
    ensures
        or_model(r) == or_model(*m),
    decreases m,
{
    proof {
        use_type_invariant(m);
        m.lemma_keys_distinct();
    }
    let mut out: StrMap<Vec<Rule>> = StrMap::new();
    let mut i: usize = 0;
    while i < m.len()
        invariant
            i <= m.pairs().len(),
            crate::strmap::keys_distinct(m.pairs()),
            out.pairs().len() == i,
            forall|j: int|
                0 <= j < i ==> #[trigger] out.pairs()[j].0 == m.pairs()[j].0 && rules_model(
                    out.pairs()[j].1@,
                ) == rules_model(m.pairs()[j].1@),
        decreases m.pairs().len() - i,
    {
        let key = m.key_at(i).clone();
        proof {
            StrMap::lemma_value_decreases(*m, i as int);
            assert(!crate::strmap::has_key(out.pairs(), key@)) by {
                if crate::strmap::has_key(out.pairs(), key@) {
                    let q = crate::strmap::key_position(out.pairs(), key@);
                    assert(m.pairs()[q].0 == m.pairs()[i as int].0);
                }
            }
        }
        let value = clone_rules(m.value_at(i));
        let ghost before = out.pairs();
        out.insert(key, value);
        assert(out.pairs() =~= before.push((key@, value)));
        i = i + 1;
    }
    proof {
        lemma_or_list_model(out, out.pairs().len());
        lemma_or_list_model(*m, m.pairs().len());
        assert(or_model(out) =~= or_model(*m));
    }
    out
}

impl Clone for Rule {
    /// A copy with the same model.
    fn clone(&self) -> (r: Self)
        ensures
            r@ == self@,
        decreases self,
    {
        match self {
            Rule::Single(c) => Rule::Single(
                SingleConfig {
                    name: clone_opt_string(&c.name),
                    pattern: c.pattern.clone(),
                    required: c.required,
                },
            ),
            Rule::Or(c) => Rule::Or(
                OrConfig {
                    name: clone_opt_string(&c.name),
                    rules_list: clone_or_list(&c.rules_list),
                    required: c.required,
                },
            ),
            Rule::Repeat(c) => Rule::Repeat(
                RepeatConfig {
                    name: clone_opt_string(&c.name),
                    rules: clone_rules(&c.rules),
                    seperator: match &c.seperator {
                        Some(s) => Some(s.clone()),
                        None => None,
                    },
                    min: c.min,
                    max: c.max,
                },
            ),
            Rule::Child(c) => Rule::Child(
                ChildConfig {
                    name: clone_opt_string(&c.name),
                    child: c.child.clone(),
                    required: c.required,
                },
            ),
            Rule::Logic(c) => Rule::Logic(
                LogicConfig {
                    func: match &c.func {
                        Some(f) => Some(f.clone()),
                        None => None,
                    },
                },
            ),
            Rule::Empty => Rule::Empty,
        }
    }
}

impl Default for Rule {
    /// The rule that always matches and captures nothing.
    fn default() -> (r: Self)
        ensures
            r@ == RuleModel::Empty,
    {
        Rule::Empty
    }
}

// ---------------------------------------------------------------------------
// Chains
impl Chain {
    /// The chain's properties, as character sequences.
    pub closed spec fn properties_model(&self) -> Seq<(Seq<char>, Seq<char>)> {
        self.properties.pairs().map_values(|e: (Seq<char>, String)| (e.0, e.1@))
    }

    /// The Lua environment the chain came from, if it still holds one.
    pub closed spec fn gluea(&self) -> Option<Gluea> {
        self.glue.held()
    }

    /// An empty chain called `name`, holding the environment `gluea`.
    pub fn new(name: String, gluea: Gluea) -> (r: Result<Self, mlua::Error>)
        ensures
            r matches Ok(c) && c@ == (ChainModel {
                name: name@,
                rules: Seq::empty(),
                properties: Seq::empty(),
            }) && c.gluea() == Some(gluea),
    {
        let instance = Chain {
            name,
            glue: LuaHider::new(gluea),
            rules: Vec::new(),
            properties: StrMap::new(),
        };
        proof {
            assert(rules_model(instance.rules@) =~= Seq::<RuleModel>::empty());
            assert(instance.properties_model() =~= Seq::<(Seq<char>, Seq<char>)>::empty());
        }
        Ok(instance)
    }

    /// A consumer with a copy of this chain's rules.
    pub fn create_consumer(&self) -> (c: Consumer)
        ensures
            rules_model(c.rules@) == self@.rules,
    {
        Consumer { rules: clone_rules(&self.rules) }
    }

    /// Appends `rule` to the chain.
    pub fn capture(&mut self, rule: Rule) -> (r: Result<(), mlua::Error>)
        ensures
            r is Ok,
            final(self)@ == (ChainModel { rules: old(self)@.rules.push(rule@), ..old(self)@ }),
            final(self).gluea() == old(self).gluea(),
    {
        let ghost old_rules = self.rules@;
        self.rules.push(rule);
        proof {
            assert(self.rules@.drop_last() =~= old_rules);
        }
        Ok(())
    }

    /// Completes the chain; it is left as it is.
    pub fn done(&mut self) -> (r: Result<(), mlua::Error>)
        ensures
            r is Ok,
            *final(self) == *old(self),
    {
        Ok(())
    }

    /// Records the property `key` with `value`, replacing an earlier value.
    pub fn set_property(&mut self, key: String, value: String) -> (r: Result<(), mlua::Error>)
        ensures
            r is Ok,
            final(self)@ == (ChainModel {
                properties: crate::strmap::assoc_insert(
                    old(self)@.properties,
                    key@,
                    value@,
                ),
                ..old(self)@
            }),
            final(self).gluea() == old(self).gluea(),
    {
        let ghost before = self.properties.pairs();
        proof {
            use_type_invariant(&self.properties);
            self.properties.lemma_keys_distinct();
        }
        self.properties.insert(key, value);
        proof {
            let f = |e: (Seq<char>, String)| (e.0, e.1@);
            crate::strmap::lemma_insert_properties(before, key@, value);
            assert(self.properties_model() =~= crate::strmap::assoc_insert(
                before.map_values(f),
                key@,
                value@,
            )) by {
                let mb = before.map_values(f);
                assert(crate::strmap::keys_distinct(mb)) by {
                    assert forall|a: int, b: int|
                        0 <= a < mb.len() && 0 <= b < mb.len() && a != b implies mb[a].0 != mb[b].0 by {
                        assert(mb[a].0 == before[a].0);
                        assert(mb[b].0 == before[b].0);
                    }
                }
                if crate::strmap::has_key(before, key@) {
                    let p = crate::strmap::key_position(before, key@);
                    assert(mb[p].0 == key@);
                    crate::strmap::lemma_position_unique(mb, key@, p);
                } else {
                    assert(!crate::strmap::has_key(mb, key@)) by {
                        if crate::strmap::has_key(mb, key@) {
                            let p = crate::strmap::key_position(mb, key@);
                            assert(before[p].0 == key@);
                        }
                    }
                }
            }
        }
        Ok(())
    }
}

} // verus!
