//! Rules, the chains that group them, and the results of checking text
//! against them.
use vstd::prelude::*;
use vstd::string::StrSliceExecFns;

use crate::lexer::consumer::Consumer;
use crate::modification::gluea::LuaRc;
use crate::strmap::StrMap;

verus! {

/// A rule that matches a regular expression at the start of the text.
pub struct SingleDetails {
    pub pattern: String,
}

/// A rule that applies its rules again and again.
pub struct RepeatDetails {
    pub rules: Vec<Rule>,
    pub seperator: Option<LuaRc<Rule>>,
    pub min: Option<usize>,
    pub max: Option<usize>,
}

/// A rule made of named alternatives, each a list of rules.
pub struct OrDetails {
    pub rules_map: StrMap<Vec<Rule>>,
}

/// A rule that runs a whole chain.
pub struct ChildDetails {
    pub child: LuaRc<Chain>,
}

/// A rule decided by a Lua function.
pub struct LogicDetails {
    pub func: Option<LuaRc<mlua::Function>>,
}

/// A lexer rule.
pub struct Rule {
    pub name: Option<String>,
    pub required: bool,
    pub details: RuleDetails,
}

/// What kind of rule a [`Rule`] is.
pub enum RuleDetails {
    Single(SingleDetails),
    Or(OrDetails),
    Repeat(RepeatDetails),
    Child(ChildDetails),
    Recurse(),
    Logic(LogicDetails),
    Unknown,
}

/// Named results of checked rules.
pub type CaptureResultsMap = StrMap<CaptureResult>;

/// The outcome of checking one rule against a text.
pub struct CaptureResult {
    pub rule: Rule,
    pub captured: String,
    pub data: Option<CaptureResultData>,
    pub is_match: bool,
}

/// What a match found, by kind of rule.
pub enum CaptureResultData {
    Single,
    Or(CaptureResultsMap),
    Repeat(Vec<CaptureResult>),
    Child(CaptureResultsMap),
    Recurse(CaptureResultsMap),
    Unknown,
}

/// A named, ordered list of rules.
pub struct Chain {
    pub name: String,
    pub rules: Vec<Rule>,
    pub properties: StrMap<String>,
}

// ---------------------------------------------------------------------------
// Mathematical models
/// A rule, with its texts taken as character sequences.
pub struct RuleModel {
    pub name: Option<Seq<char>>,
    pub required: bool,
    pub details: DetailsModel,
}

/// The kind-specific part of a [`RuleModel`].
pub enum DetailsModel {
    Single { pattern: Seq<char> },
    Or { rules_map: Seq<(Seq<char>, Seq<RuleModel>)> },
    Repeat {
        rules: Seq<RuleModel>,
        seperator: Option<Box<RuleModel>>,
        min: Option<usize>,
        max: Option<usize>,
    },
    Child { child: ChainModel },
    Recurse,
    Logic { func: Option<mlua::Function> },
    Unknown,
}

/// A chain, with its texts taken as character sequences.
pub struct ChainModel {
    pub name: Seq<char>,
    pub rules: Seq<RuleModel>,
    pub properties: Seq<(Seq<char>, Seq<char>)>,
}

/// A capture result, with its texts taken as character sequences.
pub struct ResultModel {
    pub rule: RuleModel,
    pub captured: Seq<char>,
    pub data: Option<DataModel>,
    pub is_match: bool,
}

/// The model of [`CaptureResultData`].
pub enum DataModel {
    Single,
    Or(Seq<(Seq<char>, ResultModel)>),
    Repeat(Seq<ResultModel>),
    Child(Seq<(Seq<char>, ResultModel)>),
    Recurse(Seq<(Seq<char>, ResultModel)>),
    Unknown,
}

/// Optional text as an optional character sequence.
pub open spec fn opt_str_model(s: Option<String>) -> Option<Seq<char>> {
    match s {
        Some(s) => Some(s@),
        None => None,
    }
}

/// String-to-string map entries as character sequences.
pub open spec fn str_pairs_model(s: Seq<(Seq<char>, String)>) -> Seq<(Seq<char>, Seq<char>)> {
    s.map_values(|e: (Seq<char>, String)| (e.0, e.1@))
}

/// The models of a sequence of rules.
pub open spec fn rules_model(rs: Seq<Rule>) -> Seq<RuleModel>
    decreases rs, 0nat,
{
    if rs.len() == 0 {
        Seq::empty()
    } else {
        rules_model(rs.drop_last()).push(rule_model(rs.last()))
    }
}

/// The models of the first `n` alternatives of an `Or` rule.
pub open spec fn or_map_model(m: StrMap<Vec<Rule>>, n: nat) -> Seq<(Seq<char>, Seq<RuleModel>)>
    decreases m, n,
{
    if n == 0 || n > m.pairs().len() {
        Seq::empty()
    } else {
        proof {
            StrMap::lemma_value_decreases(m, n - 1);
        }
        or_map_model(m, (n - 1) as nat).push((m.pairs()[n - 1].0, rules_model(m.pairs()[n - 1].1@)))
    }
}

/// The model of a chain.
pub open spec fn chain_model(c: Chain) -> ChainModel
    decreases c, 0nat,
{
    ChainModel {
        name: c.name@,
        rules: rules_model(c.rules@),
        properties: str_pairs_model(c.properties.pairs()),
    }
}

/// The model of a rule.
pub open spec fn rule_model(r: Rule) -> RuleModel
    decreases r, 0nat,
{
    RuleModel {
        name: opt_str_model(r.name),
        required: r.required,
        details: match r.details {
            RuleDetails::Single(d) => DetailsModel::Single { pattern: d.pattern@ },
            RuleDetails::Or(d) => DetailsModel::Or {
                rules_map: or_map_model(d.rules_map, d.rules_map.pairs().len()),
            },
            RuleDetails::Repeat(d) => DetailsModel::Repeat {
                rules: rules_model(d.rules@),
                seperator: match d.seperator {
                    Some(s) => Some(Box::new(rule_model(*s.0))),
                    None => None,
                },
                min: d.min,
                max: d.max,
            },
            RuleDetails::Child(d) => DetailsModel::Child { child: chain_model(*d.child.0) },
            RuleDetails::Recurse() => DetailsModel::Recurse,
            RuleDetails::Logic(d) => DetailsModel::Logic {
                func: match d.func {
                    Some(f) => Some(*f.0),
                    None => None,
                },
            },
            RuleDetails::Unknown => DetailsModel::Unknown,
        },
    }
}

/// The models of a sequence of capture results.
pub open spec fn results_seq_model(rs: Seq<CaptureResult>) -> Seq<ResultModel>
    decreases rs, 0nat,
{
    if rs.len() == 0 {
        Seq::empty()
    } else {
        results_seq_model(rs.drop_last()).push(result_model(rs.last()))
    }
}

/// The models of the first `n` entries of a map of capture results.
pub open spec fn results_map_model(m: CaptureResultsMap, n: nat) -> Seq<(Seq<char>, ResultModel)>
    decreases m, n,
{
    if n == 0 || n > m.pairs().len() {
        Seq::empty()
    } else {
        proof {
            StrMap::lemma_value_decreases(m, n - 1);
        }
        results_map_model(m, (n - 1) as nat).push((m.pairs()[n - 1].0, result_model(m.pairs()[n - 1].1)))
    }
}

/// The model of a capture result.
pub open spec fn result_model(r: CaptureResult) -> ResultModel
    decreases r, 0nat,
{
    ResultModel {
        rule: rule_model(r.rule),
        captured: r.captured@,
        data: match r.data {
            Some(d) => Some(
                match d {
                    CaptureResultData::Single => DataModel::Single,
                    CaptureResultData::Or(m) => DataModel::Or(results_map_model(m, m.pairs().len())),
                    CaptureResultData::Repeat(v) => DataModel::Repeat(results_seq_model(v@)),
                    CaptureResultData::Child(m) => DataModel::Child(results_map_model(m, m.pairs().len())),
                    CaptureResultData::Recurse(m) => DataModel::Recurse(results_map_model(m, m.pairs().len())),
                    CaptureResultData::Unknown => DataModel::Unknown,
                },
            ),
            None => None,
        },
        is_match: r.is_match,
    }
}

impl View for Rule {
    type V = RuleModel;

    open spec fn view(&self) -> RuleModel {
        rule_model(*self)
    }
}

impl View for Chain {
    type V = ChainModel;

    open spec fn view(&self) -> ChainModel {
        chain_model(*self)
    }
}

impl View for CaptureResult {
    type V = ResultModel;

    open spec fn view(&self) -> ResultModel {
        result_model(*self)
    }
}

/// The model of a whole map of capture results.
pub open spec fn results_model(m: CaptureResultsMap) -> Seq<(Seq<char>, ResultModel)> {
    results_map_model(m, m.pairs().len())
}

/// The model of a whole `Or` map.
pub open spec fn or_model(m: StrMap<Vec<Rule>>) -> Seq<(Seq<char>, Seq<RuleModel>)> {
    or_map_model(m, m.pairs().len())
}

/// Entry `i` of the model of a map of results is the model of entry `i`.
pub proof fn lemma_results_map_model(m: CaptureResultsMap, n: nat)
    requires
        n <= m.pairs().len(),
    ensures
        results_map_model(m, n).len() == n,
        forall|i: int|
            0 <= i < n ==> #[trigger] results_map_model(m, n)[i] == (
                m.pairs()[i].0,
                result_model(m.pairs()[i].1),
            ),
    decreases n,
{
    if n > 0 {
        lemma_results_map_model(m, (n - 1) as nat);
    }
}

/// Entry `i` of the model of an `Or` map is the model of entry `i`.
pub proof fn lemma_or_map_model(m: StrMap<Vec<Rule>>, n: nat)
    requires
        n <= m.pairs().len(),
    ensures
        or_map_model(m, n).len() == n,
        forall|i: int|
            0 <= i < n ==> #[trigger] or_map_model(m, n)[i] == (
                m.pairs()[i].0,
                rules_model(m.pairs()[i].1@),
            ),
    decreases n,
{
    if n > 0 {
        lemma_or_map_model(m, (n - 1) as nat);
    }
}

/// Element `i` of the models of a sequence is the model of element `i`.
pub proof fn lemma_rules_model(rs: Seq<Rule>)
    ensures
        rules_model(rs).len() == rs.len(),
        forall|i: int| 0 <= i < rs.len() ==> #[trigger] rules_model(rs)[i] == rule_model(rs[i]),
    decreases rs.len(),
{
    if rs.len() > 0 {
        lemma_rules_model(rs.drop_last());
    }
}

/// Element `i` of the models of a sequence is the model of element `i`.
pub proof fn lemma_results_seq_model(rs: Seq<CaptureResult>)
    ensures
        results_seq_model(rs).len() == rs.len(),
        forall|i: int|
            0 <= i < rs.len() ==> #[trigger] results_seq_model(rs)[i] == result_model(rs[i]),
    decreases rs.len(),
{
    if rs.len() > 0 {
        lemma_results_seq_model(rs.drop_last());
    }
}

// ---------------------------------------------------------------------------
// Copies
/// A copy of optional text.
pub fn clone_opt_string(s: &Option<String>) -> (r: Option<String>)
    ensures
        opt_str_model(r) == opt_str_model(*s),
{
    match s {
        Some(s) => Some(s.clone()),
        None => None,
    }
}

/// A copy of a list of rules.
pub fn clone_rules(v: &Vec<Rule>) -> (r: Vec<Rule>)
    ensures
        rules_model(r@) == rules_model(v@),
    decreases v,
{
    let mut out: Vec<Rule> = Vec::new();
    let mut i: usize = 0;
    while i < v.len()
        invariant
            i <= v@.len(),
            out@.len() == i,
            forall|j: int| 0 <= j < i ==> #[trigger] rule_model(out@[j]) == rule_model(v@[j]),
        decreases v@.len() - i,
    {
        let c = v[i].clone();
        out.push(c);
        i = i + 1;
    }
    proof {
        lemma_rules_model(out@);
        lemma_rules_model(v@);
        assert(rules_model(out@) =~= rules_model(v@));
    }
    out
}

/// A copy of the alternatives of an `Or` rule.
pub fn clone_or_map(m: &StrMap<Vec<Rule>>) -> (r: StrMap<Vec<Rule>>)
    ensures
        or_model(r) == or_model(*m),
    decreases m,
{
    proof {
        use_type_invariant(m);
        m.lemma_keys_distinct();
    }
    let mut out: StrMap<Vec<Rule>> = StrMap::new();
    let mut i: usize = 0;
    while i < m.len()
        invariant
            i <= m.pairs().len(),
            crate::strmap::keys_distinct(m.pairs()),
            out.pairs().len() == i,
            forall|j: int|
                0 <= j < i ==> #[trigger] out.pairs()[j].0 == m.pairs()[j].0 && rules_model(
                    out.pairs()[j].1@,
                ) == rules_model(m.pairs()[j].1@),
        decreases m.pairs().len() - i,
    {
        let key = m.key_at(i).clone();
        proof {
            StrMap::lemma_value_decreases(*m, i as int);
            assert(!crate::strmap::has_key(out.pairs(), key@)) by {
                if crate::strmap::has_key(out.pairs(), key@) {
                    let q = crate::strmap::key_position(out.pairs(), key@);
                    assert(m.pairs()[q].0 == m.pairs()[i as int].0);
                }
            }
        }
        let value = clone_rules(m.value_at(i));
        let ghost before = out.pairs();
        out.insert(key, value);
        assert(out.pairs() =~= before.push((key@, value)));
        i = i + 1;
    }
    proof {
        lemma_or_map_model(out, out.pairs().len());
        lemma_or_map_model(*m, m.pairs().len());
        assert(or_model(out) =~= or_model(*m));
    }
    out
}

impl Clone for Rule {
    /// A copy with the same model.
    fn clone(&self) -> (r: Self)
        ensures
            r@ == self@,
        decreases self,
    {
        let details = match &self.details {
            RuleDetails::Single(d) => RuleDetails::Single(SingleDetails { pattern: d.pattern.clone() }),
            RuleDetails::Or(d) => RuleDetails::Or(OrDetails { rules_map: clone_or_map(&d.rules_map) }),
            RuleDetails::Repeat(d) => RuleDetails::Repeat(
                RepeatDetails {
                    rules: clone_rules(&d.rules),
                    seperator: match &d.seperator {
                        Some(s) => Some(s.clone()),
                        None => None,
                    },
                    min: d.min,
                    max: d.max,
                },
            ),
            RuleDetails::Child(d) => RuleDetails::Child(ChildDetails { child: d.child.clone() }),
            RuleDetails::Recurse() => RuleDetails::Recurse(),
            RuleDetails::Logic(d) => RuleDetails::Logic(
                LogicDetails {
                    func: match &d.func {
                        Some(f) => Some(f.clone()),
                        None => None,
                    },
                },
            ),
            RuleDetails::Unknown => RuleDetails::Unknown,
        };
        Rule { name: clone_opt_string(&self.name), required: self.required, details }
    }
}

/// A copy of a list of capture results.
pub fn clone_results_vec(v: &Vec<CaptureResult>) -> (r: Vec<CaptureResult>)
    ensures
        results_seq_model(r@) == results_seq_model(v@),
    decreases v,
{
    let mut out: Vec<CaptureResult> = Vec::new();
    let mut i: usize = 0;
    while i < v.len()
        invariant
            i <= v@.len(),
            out@.len() == i,
            forall|j: int| 0 <= j < i ==> #[trigger] result_model(out@[j]) == result_model(v@[j]),
        decreases v@.len() - i,
    {
        let c = v[i].clone();
        out.push(c);
        i = i + 1;
    }
    proof {
        lemma_results_seq_model(out@);
        lemma_results_seq_model(v@);
        assert(results_seq_model(out@) =~= results_seq_model(v@));
    }
    out
}

/// A copy of a map of capture results.
pub fn clone_results_map(m: &CaptureResultsMap) -> (r: CaptureResultsMap)
    ensures
        results_model(r) == results_model(*m),
    decreases m,
{
    proof {
        use_type_invariant(m);
        m.lemma_keys_distinct();
    }
    let mut out: CaptureResultsMap = StrMap::new();
    let mut i: usize = 0;
    while i < m.len()
        invariant
            i <= m.pairs().len(),
            crate::strmap::keys_distinct(m.pairs()),
            out.pairs().len() == i,
            forall|j: int|
                0 <= j < i ==> #[trigger] out.pairs()[j].0 == m.pairs()[j].0 && result_model(
                    out.pairs()[j].1,
                ) == result_model(m.pairs()[j].1),
        decreases m.pairs().len() - i,
    {
        let key = m.key_at(i).clone();
        proof {
            StrMap::lemma_value_decreases(*m, i as int);
            assert(!crate::strmap::has_key(out.pairs(), key@)) by {
                if crate::strmap::has_key(out.pairs(), key@) {
                    let q = crate::strmap::key_position(out.pairs(), key@);
                    assert(m.pairs()[q].0 == m.pairs()[i as int].0);
                }
            }
        }
        let value = m.value_at(i).clone();
        let ghost before = out.pairs();
        out.insert(key, value);
        assert(out.pairs() =~= before.push((key@, value)));
        i = i + 1;
    }
    proof {
        lemma_results_map_model(out, out.pairs().len());
        lemma_results_map_model(*m, m.pairs().len());
        assert(results_model(out) =~= results_model(*m));
    }
    out
}

impl Clone for CaptureResult {
    /// A copy with the same model.
    fn clone(&self) -> (r: Self)
        ensures
            r@ == self@,
        decreases self,
    {
        let data = match &self.data {
            Some(d) => Some(
                match d {
                    CaptureResultData::Single => CaptureResultData::Single,
                    CaptureResultData::Or(m) => CaptureResultData::Or(clone_results_map(m)),
                    CaptureResultData::Repeat(v) => CaptureResultData::Repeat(clone_results_vec(v)),
                    CaptureResultData::Child(m) => CaptureResultData::Child(clone_results_map(m)),
                    CaptureResultData::Recurse(m) => CaptureResultData::Recurse(clone_results_map(m)),
                    CaptureResultData::Unknown => CaptureResultData::Unknown,
                },
            ),
            None => None,
        };
        CaptureResult {
            rule: self.rule.clone(),
            captured: self.captured.clone(),
            data,
            is_match: self.is_match,
        }
    }
}

impl Default for Rule {
    /// An unnamed, optional rule of unknown kind.
    fn default() -> (r: Self)
        ensures
            r@ == (RuleModel { name: None, required: false, details: DetailsModel::Unknown }),
    {
        Rule { name: None, required: false, details: RuleDetails::Unknown }
    }
}

impl Default for CaptureResult {
    /// A non-matching result of a default rule that captured nothing.
    fn default() -> (r: Self)
        ensures
            r@ == (ResultModel {
                rule: RuleModel { name: None, required: false, details: DetailsModel::Unknown },
                captured: Seq::empty(),
                data: None,
                is_match: false,
            }),
    {
        CaptureResult { rule: Rule::default(), captured: String::new(), data: None, is_match: false }
    }
}

// ---------------------------------------------------------------------------
// Kinds of rule, by name
/// The kind of rule a rule table's `type` names.
pub enum RuleKind {
    Single,
    Or,
    Repeat,
    Child,
    Recurse,
    Logic,
    Unknown,
}

/// The kind of rule that `kind_text` stands for: `single`, `or`, `repeat`,
/// `child`, `recurse` and `logic` name their kinds; any other name stands
/// for a rule of unknown kind.
pub open spec fn spec_rule_kind(kind_text: Seq<char>) -> RuleKind {
    if kind_text == "single"@ {
        RuleKind::Single
    } else if kind_text == "or"@ {
        RuleKind::Or
    } else if kind_text == "repeat"@ {
        RuleKind::Repeat
    } else if kind_text == "child"@ {
        RuleKind::Child
    } else if kind_text == "recurse"@ {
        RuleKind::Recurse
    } else if kind_text == "logic"@ {
        RuleKind::Logic
    } else {
        RuleKind::Unknown
    }
}

/// Whether two texts are the same, character by character.
pub fn same_text(a: &str, b: &str) -> (r: bool)
    ensures
        r == (a@ == b@),
{
    let n = a.unicode_len();
    if n != b.unicode_len() {
        return false;
    }
    let mut i: usize = 0;
    while i < n
        invariant
            n == a@.len(),
            n == b@.len(),
            i <= n,
            forall|j: int| 0 <= j < i ==> a@[j] == b@[j],
        decreases n - i,
    {
        if a.get_char(i) != b.get_char(i) {
            return false;
        }
        i = i + 1;
    }
    proof {
        assert(a@ =~= b@);
    }
    true
}

/// The kind of rule that `kind_text` stands for.
pub fn rule_kind(kind_text: &str) -> (k: RuleKind)
    ensures
        k == spec_rule_kind(kind_text@),
{
    if same_text(kind_text, "single") {
        RuleKind::Single
    } else if same_text(kind_text, "or") {
        RuleKind::Or
    } else if same_text(kind_text, "repeat") {
        RuleKind::Repeat
    } else if same_text(kind_text, "child") {
        RuleKind::Child
    } else if same_text(kind_text, "recurse") {
        RuleKind::Recurse
    } else if same_text(kind_text, "logic") {
        RuleKind::Logic
    } else {
        RuleKind::Unknown
    }
}

// ---------------------------------------------------------------------------
// Chains
impl Chain {
    /// An empty chain called `name`.
    pub fn new(name: String) -> (r: Result<Self, mlua::Error>)
        ensures
            r matches Ok(c) && c@ == (ChainModel {
                name: name@,
                rules: Seq::empty(),
                properties: Seq::empty(),
            }),
    {
        let instance = Chain { name, rules: Vec::new(), properties: StrMap::new() };
        proof {
            assert(rules_model(instance.rules@) =~= Seq::<RuleModel>::empty());
            assert(str_pairs_model(instance.properties.pairs()) =~= Seq::<(Seq<char>, Seq<char>)>::empty());
        }
        Ok(instance)
    }

    /// A consumer with this chain's name and a copy of its rules.
    pub fn create_consumer(&self) -> (c: Consumer)
        ensures
            c.name@ == self.name@,
            rules_model(c.rules@) == self@.rules,
    {
        Consumer::new(self.name.clone(), clone_rules(&self.rules))
    }

    /// Appends `rule` to the chain.
    pub fn capture(&mut self, rule: Rule) -> (r: Result<(), mlua::Error>)
        ensures
            r is Ok,
            final(self)@ == (ChainModel { rules: old(self)@.rules.push(rule@), ..old(self)@ }),
    {
        let ghost old_rules = self.rules@;
        self.rules.push(rule);
        proof {
            assert(self.rules@.drop_last() =~= old_rules);
        }
        Ok(())
    }

    /// Appends all of `rules`, in order, to the chain.
    pub fn capture_all(&mut self, rules: Vec<Rule>) -> (r: Result<(), mlua::Error>)
        ensures
            r is Ok,
            final(self)@ == (ChainModel {
                rules: old(self)@.rules + rules_model(rules@),
                ..old(self)@
            }),
    {
        let ghost old_rules = self.rules@;
        let mut rules = rules;
        let ghost added = rules@;
        self.rules.append(&mut rules);
        proof {
            lemma_rules_model(self.rules@);
            lemma_rules_model(old_rules);
            lemma_rules_model(added);
            assert(rules_model(self.rules@) =~= rules_model(old_rules) + rules_model(added));
        }
        Ok(())
    }

    /// Records the property `key` with `value`, replacing an earlier value.
    pub fn set_property(&mut self, key: String, value: String) -> (r: Result<(), mlua::Error>)
        ensures
            r is Ok,
            final(self)@ == (ChainModel {
                properties: str_pairs_model(
                    crate::strmap::assoc_insert(old(self).properties.pairs(), key@, value),
                ),
                ..old(self)@
            }),
    {
        self.properties.insert(key, value);
        Ok(())
    }
}

} // verus!
