//! Consumers of configured rules: check text against a chain's rules.
//!
//! A `Logic` rule asks a Lua function whether it matches.  Such answers come
//! from outside the library, so the contracts here describe the outcome for
//! every sequence of answers: the model of a check reads its answers, in order,
//! from a tape of verdicts, and reports the questions it asked.
use vstd::prelude::*;
use vstd::string::StrSliceExecFns;

use crate::modification::capture::{
    Rule,
    RuleModel,
    clone_opt_string,
    lemma_or_list_model,
    lemma_rules_model,
    opt_str_model,
    or_model,
    rules_model,
};
use crate::pattern::{leading_match, match_at_start, regex_compiles};
use crate::strmap::{assoc_insert, StrMap};

verus! {

/// A chain's rules, ready to be run against text.
pub struct Consumer {
    pub rules: Vec<Rule>,
}

/// The outcome of checking one rule against a text.
pub struct CaptureResult {
    pub name: Option<String>,
    pub captured: String,
    pub data: Option<CaptureResultData>,
    pub is_match: bool,
}

/// What a match found, by kind of rule.
pub enum CaptureResultData {
    Single,
    Or(Results),
    Repeat(Vec<CaptureResult>),
    Empty,
}

/// Named results of checked rules.
pub type Results = StrMap<CaptureResult>;

// ---------------------------------------------------------------------------
// Models of results
/// A capture result, with its texts taken as character sequences.
pub struct ResultModel {
    pub name: Option<Seq<char>>,
    pub captured: Seq<char>,
    pub data: Option<DataModel>,
    pub is_match: bool,
}

/// The model of [`CaptureResultData`].
pub enum DataModel {
    Single,
    Or(Seq<(Seq<char>, ResultModel)>),
    Repeat(Seq<ResultModel>),
    Empty,
}

/// The model of a map of named results.
pub type ResultsModel = Seq<(Seq<char>, ResultModel)>;

/// The models of a sequence of capture results.
pub open spec fn results_seq_model(rs: Seq<CaptureResult>) -> Seq<ResultModel>
    decreases rs, 0nat,
{
    if rs.len() == 0 {
        Seq::empty()
    } else {
        results_seq_model(rs.drop_last()).push(result_model(rs.last()))
    }
}

/// The models of the first `n` entries of a map of capture results.
pub open spec fn results_map_model(m: Results, n: nat) -> ResultsModel
    decreases m, n,
{
    if n == 0 || n > m.pairs().len() {
        Seq::empty()
    } else {
        proof {
            StrMap::lemma_value_decreases(m, n - 1);
        }
        results_map_model(m, (n - 1) as nat).push((m.pairs()[n - 1].0, result_model(m.pairs()[n - 1].1)))
    }
}

/// The model of a capture result.
pub open spec fn result_model(r: CaptureResult) -> ResultModel
    decreases r, 0nat,
{
    ResultModel {
        name: opt_str_model(r.name),
        captured: r.captured@,
        data: match r.data {
            Some(d) => Some(
                match d {
                    CaptureResultData::Single => DataModel::Single,
                    CaptureResultData::Or(m) => DataModel::Or(results_map_model(m, m.pairs().len())),
                    CaptureResultData::Repeat(v) => DataModel::Repeat(results_seq_model(v@)),
                    CaptureResultData::Empty => DataModel::Empty,
                },
            ),
            None => None,
        },
        is_match: r.is_match,
    }
}

/// The model of a whole map of capture results.
pub open spec fn results_model(m: Results) -> ResultsModel {
    results_map_model(m, m.pairs().len())
}

impl View for CaptureResult {
    type V = ResultModel;

    open spec fn view(&self) -> ResultModel {
        result_model(*self)
    }
}

/// Entry `i` of the model of a map of results is the model of entry `i`.
pub proof fn lemma_results_map_model(m: Results, n: nat)
    requires
        n <= m.pairs().len(),
    ensures
        results_map_model(m, n).len() == n,
        forall|i: int|
            0 <= i < n ==> #[trigger] results_map_model(m, n)[i] == (
                m.pairs()[i].0,
                result_model(m.pairs()[i].1),
            ),
    decreases n,
{
    if n > 0 {
        lemma_results_map_model(m, (n - 1) as nat);
    }
}

/// Element `i` of the models of a sequence is the model of element `i`.
pub proof fn lemma_results_seq_model(rs: Seq<CaptureResult>)
    ensures
        results_seq_model(rs).len() == rs.len(),
        forall|i: int|
            0 <= i < rs.len() ==> #[trigger] results_seq_model(rs)[i] == result_model(rs[i]),
    decreases rs.len(),
{
    if rs.len() > 0 {
        lemma_results_seq_model(rs.drop_last());
    }
}

/// Recording a result in a map of results and taking models commute.
pub proof fn lemma_results_model_insert(before: Results, after: Results, k: Seq<char>, v: CaptureResult)
    requires
        crate::strmap::keys_distinct(before.pairs()),
        after.pairs() == assoc_insert(before.pairs(), k, v),
    ensures
        results_model(after) == assoc_insert(results_model(before), k, v@),
{
    let pb = before.pairs();
    let mb = results_model(before);
    lemma_results_map_model(before, pb.len());
    lemma_results_map_model(after, after.pairs().len());
    crate::strmap::lemma_insert_properties(pb, k, v);
    assert(crate::strmap::keys_distinct(mb)) by {
        assert forall|a: int, b: int| 0 <= a < mb.len() && 0 <= b < mb.len() && a != b implies mb[a].0
            != mb[b].0 by {
            assert(mb[a].0 == pb[a].0);
            assert(mb[b].0 == pb[b].0);
        }
    }
    if crate::strmap::has_key(pb, k) {
        let p = crate::strmap::key_position(pb, k);
        assert(mb[p].0 == k);
        crate::strmap::lemma_position_unique(mb, k, p);
        assert(results_model(after) =~= assoc_insert(mb, k, v@));
    } else {
        assert(!crate::strmap::has_key(mb, k)) by {
            if crate::strmap::has_key(mb, k) {
                let p = crate::strmap::key_position(mb, k);
                assert(pb[p].0 == k);
            }
        }
        assert(results_model(after) =~= assoc_insert(mb, k, v@));
    }
}

impl Default for CaptureResultData {
    /// No data.
    fn default() -> (r: Self)
        ensures
            r is Empty,
    {
        CaptureResultData::Empty
    }
}

impl Default for CaptureResult {
    /// An unnamed, non-matching result that captured nothing.
    fn default() -> (r: Self)
        ensures
            r@ == no_match(),
    {
        let r = CaptureResult { name: None, captured: String::new(), data: None, is_match: false };
        proof {
            assert(r.captured@ =~= Seq::<char>::empty());
        }
        r
    }
}

/// The result every check starts from: unnamed, not a match, nothing captured.
pub open spec fn no_match() -> ResultModel {
    ResultModel { name: None, captured: Seq::empty(), data: None, is_match: false }
}

// ---------------------------------------------------------------------------
// Questions asked of Lua
/// A question a `Logic` rule asks: its function, and the named results
/// gathered so far.
pub type Question = (mlua::Function, ResultsModel);

/// A call of the evaluator as it happened: the function, the results handed
/// over, and the verdict that came back.
pub type LogicCall = (mlua::Function, Results, bool);

/// The verdicts of a sequence of calls.
pub open spec fn verdicts(q: Seq<LogicCall>) -> Seq<bool> {
    q.map_values(|c: LogicCall| c.2)
}

/// The questions of a sequence of calls.
pub open spec fn questions(q: Seq<LogicCall>) -> Seq<Question> {
    q.map_values(|c: LogicCall| (c.0, results_model(c.1)))
}

/// Each verdict is one that `eval` may give for its function and results.
pub open spec fn answered_by<E: Fn(&mlua::Function, &Results) -> bool>(
    eval: E,
    q: Seq<LogicCall>,
) -> bool {
    forall|i: int| 0 <= i < q.len() ==> call_ensures(eval, (&q[i].0, &q[i].1), #[trigger] q[i].2)
}

/// `eval` can be called on any function and results.
pub open spec fn total_evaluator<E: Fn(&mlua::Function, &Results) -> bool>(eval: E) -> bool {
    forall|f: &mlua::Function, m: &Results| call_requires(eval, (f, m))
}

/// Calls concatenate.
pub proof fn lemma_calls_concat<E: Fn(&mlua::Function, &Results) -> bool>(
    eval: E,
    q1: Seq<LogicCall>,
    q2: Seq<LogicCall>,
)
    ensures
        verdicts(q1 + q2) == verdicts(q1) + verdicts(q2),
        questions(q1 + q2) == questions(q1) + questions(q2),
        answered_by(eval, q1) && answered_by(eval, q2) ==> answered_by(eval, q1 + q2),
{
    assert(verdicts(q1 + q2) =~= verdicts(q1) + verdicts(q2));
    assert(questions(q1 + q2) =~= questions(q1) + questions(q2));
    if answered_by(eval, q1) && answered_by(eval, q2) {
        assert forall|i: int| 0 <= i < (q1 + q2).len() implies call_ensures(
            eval,
            (&(q1 + q2)[i].0, &(q1 + q2)[i].1),
            #[trigger] (q1 + q2)[i].2,
        ) by {
            if i < q1.len() {
                assert((q1 + q2)[i] == q1[i]);
                assert(call_ensures(eval, (&q1[i].0, &q1[i].1), q1[i].2));
            } else {
                assert((q1 + q2)[i] == q2[i - q1.len()]);
                assert(call_ensures(
                    eval,
                    (&q2[i - q1.len()].0, &q2[i - q1.len()].1),
                    q2[i - q1.len()].2,
                ));
            }
        }
    }
}

// ---------------------------------------------------------------------------
// The model of checking
/// The outcome of checking a rule: whether the check could be carried out,
/// its result, the verdicts left on the tape and the questions asked.
pub struct CheckRun {
    pub ok: bool,
    pub result: ResultModel,
    pub rest: Seq<bool>,
    pub asked: Seq<Question>,
}

/// The state an `Or` rule reaches over its alternatives: the first match
/// found, under its alternative's name.
pub struct OrRun {
    pub ok: bool,
    pub found: Option<(Seq<char>, ResultModel)>,
    pub rest: Seq<bool>,
    pub asked: Seq<Question>,
}

/// The state a `Repeat` rule reaches over its repetitions.
pub struct RepeatRun {
    pub ok: bool,
    pub offset: nat,
    pub reps: nat,
    pub subs: Seq<ResultModel>,
    pub rest: Seq<bool>,
    pub asked: Seq<Question>,
}

/// The outcome of consuming text with a list of rules.
pub struct ConsumeRun {
    pub ok: bool,
    pub results: Option<ResultsModel>,
    pub consumed: nat,
    pub rest: Seq<bool>,
    pub asked: Seq<Question>,
}

/// The verdict at the head of a tape (none left reads as `false`).
pub open spec fn head_verdict(tape: Seq<bool>) -> bool {
    if tape.len() > 0 {
        tape[0]
    } else {
        false
    }
}

/// A tape without its head.
pub open spec fn tail_verdicts(tape: Seq<bool>) -> Seq<bool> {
    if tape.len() > 0 {
        tape.drop_first()
    } else {
        tape
    }
}

/// The number a limit stands for when it is not given.
pub open spec fn limit_or(limit: Option<usize>, default: nat) -> nat {
    match limit {
        Some(m) => m as nat,
        None => default,
    }
}

/// The result of an `Or` rule that found `found` (or nothing).
pub open spec fn or_result(
    name: Option<Seq<char>>,
    required: Option<bool>,
    text: Seq<char>,
    found: Option<(Seq<char>, ResultModel)>,
) -> ResultModel {
    ResultModel {
        name,
        captured: match found {
            Some(f) => text.take(f.1.captured.len() as int),
            None => Seq::empty(),
        },
        data: Some(
            DataModel::Or(
                match found {
                    Some(f) => seq![f],
                    None => Seq::empty(),
                },
            ),
        ),
        is_match: found is Some || required == Some(true),
    }
}

/// Checks `rule` against `text`, with `results` the named results gathered so
/// far.  The check cannot be carried out when it reaches a pattern that does
/// not compile, a `Child` rule, a `Logic` rule without a function, or a
/// `Repeat` rule without rules that would repeat without end.
pub open spec fn spec_check(
    rule: RuleModel,
    results: ResultsModel,
    text: Seq<char>,
    tape: Seq<bool>,
) -> CheckRun
    decreases rule, 0nat, 0nat,
{
    let base = no_match();
    match rule {
        RuleModel::Single { name, pattern, required } => {
            if !regex_compiles(pattern) {
                CheckRun { ok: false, result: base, rest: tape, asked: Seq::empty() }
            } else {
                match match_at_start(pattern, text) {
                    Some(m) => CheckRun {
                        ok: true,
                        result: ResultModel {
                            name,
                            captured: m,
                            data: Some(DataModel::Single),
                            is_match: true,
                        },
                        rest: tape,
                        asked: Seq::empty(),
                    },
                    None => CheckRun {
                        ok: true,
                        result: ResultModel { name, ..base },
                        rest: tape,
                        asked: Seq::empty(),
                    },
                }
            }
        },
        RuleModel::Or { name, rules_list, required } => {
            let o = spec_or(rules_list, results, text, 0, 0, tape);
            CheckRun {
                ok: o.ok,
                result: or_result(name, required, text, o.found),
                rest: o.rest,
                asked: o.asked,
            }
        },
        RuleModel::Repeat { name, rules, seperator, min, max } => {
            let min_reps = limit_or(min, 1);
            let max_reps = limit_or(max, usize::MAX as nat);
            if rules.len() == 0 {
                if max_reps > 0 {
                    CheckRun { ok: false, result: base, rest: tape, asked: Seq::empty() }
                } else if min_reps == 0 {
                    CheckRun {
                        ok: true,
                        result: ResultModel {
                            data: Some(DataModel::Repeat(Seq::empty())),
                            is_match: true,
                            ..base
                        },
                        rest: tape,
                        asked: Seq::empty(),
                    }
                } else {
                    CheckRun { ok: true, result: base, rest: tape, asked: Seq::empty() }
                }
            } else {
                let p = spec_repeat(rules, results, text, max_reps, rules.len(), 0, 0, Seq::empty(), tape);
                CheckRun {
                    ok: p.ok,
                    result: if p.reps >= min_reps {
                        ResultModel {
                            data: Some(DataModel::Repeat(p.subs)),
                            is_match: true,
                            captured: text.take(p.offset as int),
                            ..base
                        }
                    } else {
                        base
                    },
                    rest: p.rest,
                    asked: p.asked,
                }
            }
        },
        RuleModel::Child { .. } => CheckRun { ok: false, result: base, rest: tape, asked: Seq::empty() },
        RuleModel::Logic { func } => match func {
            Some(f) => CheckRun {
                ok: true,
                result: ResultModel { is_match: head_verdict(tape), ..base },
                rest: tail_verdicts(tape),
                asked: seq![(f, results)],
            },
            None => CheckRun { ok: false, result: base, rest: tape, asked: Seq::empty() },
        },
        RuleModel::Empty => CheckRun {
            ok: true,
            result: ResultModel { is_match: true, ..base },
            rest: tape,
            asked: Seq::empty(),
        },
    }
}

/// Adds questions asked before an `Or` state was reached.
pub open spec fn or_after(asked: Seq<Question>, o: OrRun) -> OrRun {
    OrRun { asked: asked + o.asked, ..o }
}

/// The alternatives of an `Or` rule from alternative `i`, rule `j` on: every
/// rule is checked against the whole text, in order, and the first that
/// matches ends the search.
pub open spec fn spec_or(
    entries: Seq<(Seq<char>, Seq<RuleModel>)>,
    results: ResultsModel,
    text: Seq<char>,
    i: nat,
    j: nat,
    tape: Seq<bool>,
) -> OrRun
    decreases entries, entries.len() - i, if i < entries.len() {
        entries[i as int].1.len() - j
    } else {
        0
    },
{
    if i >= entries.len() {
        OrRun { ok: true, found: None, rest: tape, asked: Seq::empty() }
    } else if j >= entries[i as int].1.len() {
        spec_or(entries, results, text, i + 1, 0, tape)
    } else {
        let run = spec_check(entries[i as int].1[j as int], results, text, tape);
        if !run.ok {
            OrRun { ok: false, found: None, rest: run.rest, asked: run.asked }
        } else if run.result.is_match {
            OrRun {
                ok: true,
                found: Some((entries[i as int].0, run.result)),
                rest: run.rest,
                asked: run.asked,
            }
        } else {
            or_after(run.asked, spec_or(entries, results, text, i, j + 1, run.rest))
        }
    }
}

/// Adds questions asked before a `Repeat` state was reached.
pub open spec fn repeat_after(asked: Seq<Question>, p: RepeatRun) -> RepeatRun {
    RepeatRun { asked: asked + p.asked, ..p }
}

/// The repetitions of a `Repeat` rule from rule `j` on.  At the end of the
/// rules (`j` past the last) a new round starts while fewer than `max_reps`
/// matches were counted; within a round every rule is checked from `offset`
/// on, each match counting one repetition, and the first rule that does not
/// match ends the repetitions.
pub open spec fn spec_repeat(
    rules: Seq<RuleModel>,
    results: ResultsModel,
    text: Seq<char>,
    max_reps: nat,
    j: nat,
    offset: nat,
    reps: nat,
    subs: Seq<ResultModel>,
    tape: Seq<bool>,
) -> RepeatRun
    decreases rules, max_reps + rules.len() - reps, if j >= rules.len() {
        1nat
    } else {
        0nat
    },
{
    if j >= rules.len() {
        if reps < max_reps && rules.len() > 0 {
            spec_repeat(rules, results, text, max_reps, 0, offset, reps, subs, tape)
        } else {
            RepeatRun { ok: true, offset, reps, subs, rest: tape, asked: Seq::empty() }
        }
    } else if reps >= max_reps + rules.len() {
        RepeatRun { ok: true, offset, reps, subs, rest: tape, asked: Seq::empty() }
    } else {
        let run = spec_check(rules[j as int], results, text.skip(offset as int), tape);
        if !run.ok {
            RepeatRun { ok: false, offset, reps, subs, rest: run.rest, asked: run.asked }
        } else if run.result.is_match {
            repeat_after(
                run.asked,
                spec_repeat(
                    rules,
                    results,
                    text,
                    max_reps,
                    j + 1,
                    offset + run.result.captured.len(),
                    reps + 1,
                    subs.push(run.result),
                    run.rest,
                ),
            )
        } else {
            RepeatRun { ok: true, offset, reps, subs, rest: run.rest, asked: run.asked }
        }
    }
}

/// Adds questions asked before a consuming state was reached.
pub open spec fn consume_after(asked: Seq<Question>, c: ConsumeRun) -> ConsumeRun {
    ConsumeRun { asked: asked + c.asked, ..c }
}

/// Results gathered with one more result: named results are recorded under
/// their name.
pub open spec fn record_result(results: ResultsModel, r: ResultModel) -> ResultsModel {
    match r.name {
        Some(n) => assoc_insert(results, n, r),
        None => results,
    }
}

/// Consuming `text` with `rules` from rule `idx` on, `offset` characters
/// being consumed already and `results` gathered: each rule is checked against
/// what is left, and the first that does not match makes the whole fail.
pub open spec fn spec_consume(
    rules: Seq<RuleModel>,
    text: Seq<char>,
    idx: nat,
    offset: nat,
    results: ResultsModel,
    tape: Seq<bool>,
) -> ConsumeRun
    decreases rules, rules.len() - idx, 0nat,
{
    if idx >= rules.len() {
        ConsumeRun { ok: true, results: Some(results), consumed: offset, rest: tape, asked: Seq::empty() }
    } else {
        let run = spec_check(rules[idx as int], results, text.skip(offset as int), tape);
        if !run.ok {
            ConsumeRun { ok: false, results: None, consumed: 0, rest: run.rest, asked: run.asked }
        } else if !run.result.is_match {
            ConsumeRun { ok: true, results: None, consumed: 0, rest: run.rest, asked: run.asked }
        } else {
            consume_after(
                run.asked,
                spec_consume(
                    rules,
                    text,
                    idx + 1,
                    offset + run.result.captured.len(),
                    record_result(results, run.result),
                    run.rest,
                ),
            )
        }
    }
}

/// The record of one call of the evaluator.
pub open spec fn logic_call(f: &mlua::Function, m: &Results, verdict: bool) -> LogicCall {
    (*f, *m, verdict)
}

/// The model of an alternative found by an `Or` rule.
pub open spec fn found_model(f: &Option<(String, CaptureResult)>) -> Option<(Seq<char>, ResultModel)> {
    match *f {
        Some(f) => Some((f.0@, f.1@)),
        None => None,
    }
}

/// `captured` is a prefix of `text`.
pub open spec fn is_prefix(captured: Seq<char>, text: Seq<char>) -> bool {
    captured.len() <= text.len() && captured == text.take(captured.len() as int)
}

/// A run of the model agrees with a computed outcome: it could be carried out
/// exactly when there is an outcome, and then its result is that outcome.
pub open spec fn check_agrees(
    run: CheckRun,
    r: Option<CaptureResult>,
    rest: Seq<bool>,
    asked: Seq<Question>,
) -> bool {
    &&& run.ok == r is Some
    &&& run.rest == rest
    &&& run.asked == asked
    &&& r matches Some(x) ==> run.result == x@
}

/// What a check that made the calls `q` and returned `r` establishes: the
/// verdicts came from `eval`, and the model, reading those verdicts (and
/// whatever follows them on the tape), has the same outcome.
pub open spec fn check_outcome<E: Fn(&mlua::Function, &Results) -> bool>(
    rule: RuleModel,
    results: ResultsModel,
    text: Seq<char>,
    eval: E,
    r: Option<CaptureResult>,
    q: Seq<LogicCall>,
) -> bool {
    &&& answered_by(eval, q)
    &&& forall|rest: Seq<bool>|
        #![trigger spec_check(rule, results, text, verdicts(q) + rest)]
        check_agrees(spec_check(rule, results, text, verdicts(q) + rest), r, rest, questions(q))
    &&& r matches Some(x) ==> is_prefix(x.captured@, text)
}

/// The outcome of consuming: the named results (if every rule matched) and
/// the text left.
pub type Consumed<'s> = (Option<Results>, &'s str);

/// A run of the model of consuming agrees with a computed outcome.
pub open spec fn consume_agrees(
    run: ConsumeRun,
    text: Seq<char>,
    r: Option<Consumed>,
    rest: Seq<bool>,
    asked: Seq<Question>,
) -> bool {
    &&& run.ok == r is Some
    &&& run.rest == rest
    &&& run.asked == asked
    &&& r matches Some(c) ==> {
        &&& c.0 is Some ==> run.results == Some(results_model(c.0->0))
        &&& c.0 is None ==> run.results is None
        &&& run.consumed <= text.len()
        &&& c.1@ == text.skip(run.consumed as int)
    }
}

/// What consuming that made the calls `q` and returned `r` establishes.
pub open spec fn consume_outcome<E: Fn(&mlua::Function, &Results) -> bool>(
    rules: Seq<RuleModel>,
    text: Seq<char>,
    eval: E,
    r: Option<Consumed>,
    q: Seq<LogicCall>,
) -> bool {
    &&& answered_by(eval, q)
    &&& forall|rest: Seq<bool>|
        #![trigger spec_consume(rules, text, 0, 0, Seq::empty(), verdicts(q) + rest)]
        consume_agrees(
            spec_consume(rules, text, 0, 0, Seq::empty(), verdicts(q) + rest),
            text,
            r,
            rest,
            questions(q),
        )
}

impl Consumer {
    /// A consumer with `rules`.
    pub fn new(rules: Vec<Rule>) -> (c: Consumer)
        ensures
            c.rules == rules,
    {
        Consumer { rules }
    }

    /// Checks `rule` against `text`, `results` being the named results
    /// gathered so far (what `Logic` rules hand to `eval`).
    ///
    /// For some sequence of calls of `eval`, each verdict one that `eval`
    /// may give, the model reading those verdicts has the same outcome; the
    /// outcome is `None` exactly when the check reaches a pattern that does not
    /// compile, a `Child` rule, a `Logic` rule without a function, or a
    /// `Repeat` rule without rules that would repeat without end.  What a
    /// result captures is a prefix of `text`.
    pub fn try_check<E: Fn(&mlua::Function, &Results) -> bool>(
        &self,
        rule: Rule,
        results: &Results,
        text: &str,
        eval: &E,
    ) -> (r: Option<CaptureResult>)
        requires
            total_evaluator(*eval),
        ensures
            exists|q: Seq<LogicCall>|
                #[trigger] answered_by(*eval, q) && check_agrees(
                    spec_check(rule@, results_model(*results), text@, verdicts(q)),
                    r,
                    Seq::empty(),
                    questions(q),
                ),
            r matches Some(x) ==> is_prefix(x.captured@, text@),
    {
        let (r, Ghost(q)) = self.run_check(&rule, results, text, eval);
        proof {
            assert(verdicts(q) + Seq::<bool>::empty() =~= verdicts(q));
            assert(check_agrees(
                spec_check(rule@, results_model(*results), text@, verdicts(q) + Seq::<bool>::empty()),
                r,
                Seq::empty(),
                questions(q),
            ));
        }
        r
    }

    /// Checks `rule` against `text` where, whatever the Lua verdicts, the
    /// check never reaches a rule that cannot be checked.  The result is the
    /// model's, for some sequence of verdicts that `eval` may give.
    pub fn check<E: Fn(&mlua::Function, &Results) -> bool>(
        &self,
        rule: Rule,
        results: &Results,
        text: &str,
        eval: &E,
    ) -> (r: CaptureResult)
        requires
            total_evaluator(*eval),
            forall|tape: Seq<bool>| #[trigger] spec_check(rule@, results_model(*results), text@, tape).ok,
        ensures
            exists|q: Seq<LogicCall>|
                #[trigger] answered_by(*eval, q) && spec_check(
                    rule@,
                    results_model(*results),
                    text@,
                    verdicts(q),
                ) == (CheckRun { ok: true, result: r@, rest: Seq::empty(), asked: questions(q) }),
            is_prefix(r.captured@, text@),
    {
        let (r, Ghost(q)) = self.run_check(&rule, results, text, eval);
        proof {
            assert(verdicts(q) + Seq::<bool>::empty() =~= verdicts(q));
            assert(check_agrees(
                spec_check(rule@, results_model(*results), text@, verdicts(q) + Seq::<bool>::empty()),
                r,
                Seq::empty(),
                questions(q),
            ));
        }
        match r {
            Some(x) => x,
            None => {
                proof {
                    assert(spec_check(rule@, results_model(*results), text@, verdicts(q)).ok);
                }
                CaptureResult::default()
            },
        }
    }

    /// Consumes `text` with the rules in order: each is checked against what
    /// the rules before it left, named results are gathered, and the first
    /// rule that does not match makes the whole fail, leaving all of `text`.
    ///
    /// For some sequence of calls of `eval` the model reading their verdicts
    /// has the same outcome; `None` exactly when a rule that cannot be checked
    /// is reached.
    pub fn try_consume<'s, E: Fn(&mlua::Function, &Results) -> bool>(
        &mut self,
        text: &'s str,
        eval: &E,
    ) -> (r: Option<Consumed<'s>>)
        requires
            total_evaluator(*eval),
        ensures
            *final(self) == *old(self),
            exists|q: Seq<LogicCall>|
                #[trigger] answered_by(*eval, q) && consume_agrees(
                    spec_consume(rules_model(old(self).rules@), text@, 0, 0, Seq::empty(), verdicts(q)),
                    text@,
                    r,
                    Seq::empty(),
                    questions(q),
                ),
    {
        let (r, Ghost(q)) = self.run_consume(text, eval);
        proof {
            assert(verdicts(q) + Seq::<bool>::empty() =~= verdicts(q));
            assert(consume_agrees(
                spec_consume(rules_model(self.rules@), text@, 0, 0, Seq::empty(), verdicts(q) + Seq::<bool>::empty()),
                text@,
                r,
                Seq::empty(),
                questions(q),
            ));
        }
        r
    }

    /// Consumes `text` where, whatever the Lua verdicts, no rule that cannot
    /// be checked is reached.  Returns the named results when every rule
    /// matched (`None` otherwise), and the text left over (all of `text` when
    /// a rule did not match).
    pub fn consume<'s, E: Fn(&mlua::Function, &Results) -> bool>(
        &mut self,
        text: &'s str,
        eval: &E,
    ) -> (r: Consumed<'s>)
        requires
            total_evaluator(*eval),
            forall|tape: Seq<bool>|
                #[trigger] spec_consume(rules_model(old(self).rules@), text@, 0, 0, Seq::empty(), tape).ok,
        ensures
            *final(self) == *old(self),
            exists|q: Seq<LogicCall>|
                #[trigger] answered_by(*eval, q) && consume_agrees(
                    spec_consume(rules_model(old(self).rules@), text@, 0, 0, Seq::empty(), verdicts(q)),
                    text@,
                    Some(r),
                    Seq::empty(),
                    questions(q),
                ),
    {
        let (r, Ghost(q)) = self.run_consume(text, eval);
        proof {
            assert(verdicts(q) + Seq::<bool>::empty() =~= verdicts(q));
            assert(consume_agrees(
                spec_consume(rules_model(self.rules@), text@, 0, 0, Seq::empty(), verdicts(q) + Seq::<bool>::empty()),
                text@,
                r,
                Seq::empty(),
                questions(q),
            ));
        }
        match r {
            Some(x) => x,
            None => {
                proof {
                    assert(spec_consume(rules_model(self.rules@), text@, 0, 0, Seq::empty(), verdicts(q)).ok);
                }
                (None, text)
            },
        }
    }

    /// Checks `rule` against `text`; `None` when the check reaches a rule
    /// that cannot be checked.  Also returns, as a ghost, the calls made of
    /// `eval`.
    fn run_check<E: Fn(&mlua::Function, &Results) -> bool>(
        &self,
        rule: &Rule,
        results: &Results,
        text: &str,
        eval: &E,
    ) -> (out: (Option<CaptureResult>, Ghost<Seq<LogicCall>>))
        requires
            total_evaluator(*eval),
        ensures
            check_outcome(rule@, results_model(*results), text@, *eval, out.0, out.1@),
        decreases rule@,
    {
        let ghost rm = results_model(*results);
        let ghost tm = text@;
        let ghost rule_m = rule@;
        let n = text.unicode_len();
        let ghost base = no_match();
        let mut q: Ghost<Seq<LogicCall>> = Ghost(Seq::empty());
        let ghost mut expected: ResultModel = base;
        let (name, captured, data, is_match): (
            Option<String>,
            String,
            Option<CaptureResultData>,
            bool,
        ) = match rule {
            Rule::Single(cfg) => {
                if !crate::pattern::pattern_is_valid(cfg.pattern.as_str()) {
                    proof {
                        assert forall|rest: Seq<bool>| #![auto] check_agrees(
                            spec_check(rule_m, rm, tm, verdicts(q@) + rest),
                            None,
                            rest,
                            questions(q@),
                        ) by {
                            assert(verdicts(q@) + rest =~= rest);
                            assert(questions(q@) =~= Seq::<Question>::empty());
                        }
                    }
                    return (None, q);
                }
                let found = leading_match(cfg.pattern.as_str(), text);
                let ghost found_some = found is Some;
                let nm = clone_opt_string(&cfg.name);
                let out = match found {
                    Some(m) => (nm, m, Some(CaptureResultData::Single), true),
                    None => (nm, String::new(), None, false),
                };
                proof {
                    expected = ResultModel {
                        name: opt_str_model(out.0),
                        captured: out.1@,
                        data: if found_some {
                            Some(DataModel::Single)
                        } else {
                            None
                        },
                        is_match: out.3,
                    };
                    assert forall|rest: Seq<bool>| #[trigger] spec_check(
                        rule_m,
                        rm,
                        tm,
                        verdicts(q@) + rest,
                    ) == (CheckRun { ok: true, result: expected, rest, asked: questions(q@) }) by {
                        assert(verdicts(q@) + rest =~= rest);
                        assert(questions(q@) =~= Seq::<Question>::empty());
                        if !found_some {
                            assert(out.1@ =~= Seq::<char>::empty());
                        }
                    }
                }
                out
            },
            Rule::Logic(cfg) => {
                match &cfg.func {
                    Some(f) => {
                        let v = eval(f, results);
                        proof {
                            q@ = seq![logic_call(f, results, v)];
                            expected = ResultModel { is_match: v, ..base };
                            assert forall|rest: Seq<bool>| #[trigger] spec_check(
                                rule_m,
                                rm,
                                tm,
                                verdicts(q@) + rest,
                            ) == (CheckRun { ok: true, result: expected, rest, asked: questions(q@) }) by {
                                assert(verdicts(q@) + rest =~= seq![v] + rest);
                                assert(tail_verdicts(verdicts(q@) + rest) =~= rest);
                                assert(questions(q@) =~= seq![(q@[0].0, rm)]);
                            }
                        }
                        let empty = String::new();
                        proof {
                            assert(empty@ =~= base.captured);
                        }
                        (None, empty, None, v)
                    },
                    None => {
                        proof {
                            assert forall|rest: Seq<bool>| #![auto] check_agrees(
                                spec_check(rule_m, rm, tm, verdicts(q@) + rest),
                                None,
                                rest,
                                questions(q@),
                            ) by {
                                assert(verdicts(q@) + rest =~= rest);
                                assert(questions(q@) =~= Seq::<Question>::empty());
                            }
                        }
                        return (None, q);
                    },
                }
            },
            Rule::Child(_) => {
                proof {
                    assert forall|rest: Seq<bool>| #![auto] check_agrees(
                        spec_check(rule_m, rm, tm, verdicts(q@) + rest),
                        None,
                        rest,
                        questions(q@),
                    ) by {
                        assert(verdicts(q@) + rest =~= rest);
                        assert(questions(q@) =~= Seq::<Question>::empty());
                    }
                }
                return (None, q);
            },
            Rule::Empty => {
                let empty = String::new();
                proof {
                    assert(empty@ =~= base.captured);
                    expected = ResultModel { is_match: true, ..base };
                    assert forall|rest: Seq<bool>| #[trigger] spec_check(
                        rule_m,
                        rm,
                        tm,
                        verdicts(q@) + rest,
                    ) == (CheckRun { ok: true, result: expected, rest, asked: questions(q@) }) by {
                        assert(verdicts(q@) + rest =~= rest);
                        assert(questions(q@) =~= Seq::<Question>::empty());
                    }
                }
                (None, empty, None, true)
            },
            Rule::Or(cfg) => {
                let m = &cfg.rules_list;
                let ghost entries = or_model(*m);
                proof {
                    lemma_or_list_model(*m, m.pairs().len());
                }
                let mut found: Option<(String, CaptureResult)> = None;
                let mut i: usize = 0;
                let mut j: usize = 0;
                while i < m.len() && found.is_none()
                    invariant
                        total_evaluator(*eval),
                        tm == text@,
                        rm == results_model(*results),
                        rule_m == rule@,
                        rule_m == (RuleModel::Or {
                            name: opt_str_model(cfg.name),
                            rules_list: entries,
                            required: cfg.required,
                        }),
                        entries == or_model(*m),
                        entries.len() == m.pairs().len(),
                        forall|k: int|
                            0 <= k < entries.len() ==> #[trigger] entries[k] == (
                                m.pairs()[k].0,
                                rules_model(m.pairs()[k].1@),
                            ),
                        n == tm.len(),
                        i <= entries.len(),
                        answered_by(*eval, q@),
                        found matches Some(f) ==> is_prefix(f.1.captured@, tm),
                        forall|rest: Seq<bool>|
                            #[trigger] spec_or(entries, rm, tm, 0, 0, verdicts(q@) + rest)
                                == or_after(
                                questions(q@),
                                match found {
                                    Some(f) => OrRun {
                                        ok: true,
                                        found: Some((f.0@, f.1@)),
                                        rest,
                                        asked: Seq::empty(),
                                    },
                                    None => spec_or(entries, rm, tm, i as nat, j as nat, rest),
                                },
                            ),
                    decreases (if found is Some {
                        0int
                    } else {
                        1int
                    }), entries.len() - i, (if i < entries.len() {
                        entries[i as int].1.len() - j
                    } else {
                        0
                    }),
                {
                    let sub_rules = m.value_at(i);
                    proof {
                        lemma_rules_model(sub_rules@);
                    }
                    if j >= sub_rules.len() {
                        proof {
                            assert forall|rest: Seq<bool>| #[trigger] spec_or(
                                entries,
                                rm,
                                tm,
                                0,
                                0,
                                verdicts(q@) + rest,
                            ) == or_after(
                                questions(q@),
                                spec_or(entries, rm, tm, (i + 1) as nat, 0, rest),
                            ) by {
                                assert(spec_or(entries, rm, tm, i as nat, j as nat, rest) == spec_or(
                                    entries,
                                    rm,
                                    tm,
                                    (i + 1) as nat,
                                    0,
                                    rest,
                                ));
                            }
                        }
                        i = i + 1;
                        j = 0;
                    } else {
                        let sub = &sub_rules[j];
                        let ghost sub_m = sub@;
                        proof {
                            assert(sub_m == entries[i as int].1[j as int]);
                            assert(decreases_to!(rule_m => sub_m)) by {
                                assert(decreases_to!(rule_m => rule_m->Or_rules_list));
                                assert(decreases_to!(entries => entries[i as int]));
                                assert(decreases_to!(entries[i as int] => entries[i as int].1));
                                assert(decreases_to!(entries[i as int].1 => entries[i as int].1[j as int]));
                            }
                        }
                        let (sr, Ghost(qs)) = self.run_check(sub, results, text, eval);
                        proof {
                            lemma_calls_concat(*eval, q@, qs);
                        }
                        match sr {
                            None => {
                                proof {
                                    assert forall|rest: Seq<bool>| #![auto] check_agrees(
                                        spec_check(rule_m, rm, tm, verdicts(q@ + qs) + rest),
                                        None,
                                        rest,
                                        questions(q@ + qs),
                                    ) by {
                                        assert(verdicts(q@ + qs) + rest =~= verdicts(q@) + (verdicts(qs) + rest));
                                        assert(check_agrees(
                                            spec_check(sub_m, rm, tm, verdicts(qs) + rest),
                                            None,
                                            rest,
                                            questions(qs),
                                        ));
                                        assert(spec_or(entries, rm, tm, 0, 0, verdicts(q@) + (verdicts(qs) + rest))
                                            == or_after(
                                            questions(q@),
                                            spec_or(entries, rm, tm, i as nat, j as nat, verdicts(qs) + rest),
                                        ));
                                    }
                                }
                                return (None, Ghost(q@ + qs));
                            },
                            Some(sr) => {
                                if sr.is_match {
                                    let key = m.key_at(i).clone();
                                    proof {
                                        assert forall|rest: Seq<bool>| #[trigger] spec_or(
                                            entries,
                                            rm,
                                            tm,
                                            0,
                                            0,
                                            verdicts(q@ + qs) + rest,
                                        ) == or_after(
                                            questions(q@ + qs),
                                            OrRun {
                                                ok: true,
                                                found: Some((key@, sr@)),
                                                rest,
                                                asked: Seq::empty(),
                                            },
                                        ) by {
                                            assert(verdicts(q@ + qs) + rest =~= verdicts(q@) + (verdicts(qs) + rest));
                                            assert(check_agrees(
                                                spec_check(sub_m, rm, tm, verdicts(qs) + rest),
                                                Some(sr),
                                                rest,
                                                questions(qs),
                                            ));
                                            assert(spec_or(entries, rm, tm, 0, 0, verdicts(q@) + (verdicts(qs) + rest))
                                                == or_after(
                                                questions(q@),
                                                spec_or(entries, rm, tm, i as nat, j as nat, verdicts(qs) + rest),
                                            ));
                                            assert(questions(q@ + qs) + Seq::<Question>::empty() =~= questions(q@)
                                                + questions(qs));
                                        }
                                    }
                                    found = Some((key, sr));
                                } else {
                                    proof {
                                        assert forall|rest: Seq<bool>| #[trigger] spec_or(
                                            entries,
                                            rm,
                                            tm,
                                            0,
                                            0,
                                            verdicts(q@ + qs) + rest,
                                        ) == or_after(
                                            questions(q@ + qs),
                                            spec_or(entries, rm, tm, i as nat, (j + 1) as nat, rest),
                                        ) by {
                                            assert(verdicts(q@ + qs) + rest =~= verdicts(q@) + (verdicts(qs) + rest));
                                            assert(check_agrees(
                                                spec_check(sub_m, rm, tm, verdicts(qs) + rest),
                                                Some(sr),
                                                rest,
                                                questions(qs),
                                            ));
                                            assert(spec_or(entries, rm, tm, 0, 0, verdicts(q@) + (verdicts(qs) + rest))
                                                == or_after(
                                                questions(q@),
                                                spec_or(entries, rm, tm, i as nat, j as nat, verdicts(qs) + rest),
                                            ));
                                            let x = spec_or(entries, rm, tm, i as nat, (j + 1) as nat, rest).asked;
                                            assert(questions(q@ + qs) + x =~= questions(q@) + (questions(qs) + x));
                                        }
                                    }
                                    j = j + 1;
                                }
                                q = Ghost(q@ + qs);
                            },
                        }
                    }
                }
                let nm = clone_opt_string(&cfg.name);
                let ghost found_m = found_model(&found);
                proof {
                    assert forall|rest: Seq<bool>| #[trigger] spec_or(entries, rm, tm, 0, 0, verdicts(q@) + rest)
                        == (OrRun { ok: true, found: found_m, rest, asked: questions(q@) }) by {
                        if found is None {
                            assert(spec_or(entries, rm, tm, i as nat, j as nat, rest) == (OrRun {
                                ok: true,
                                found: None,
                                rest,
                                asked: Seq::empty(),
                            }));
                        }
                        assert(questions(q@) + Seq::<Question>::empty() =~= questions(q@));
                    }
                }
                let required = match cfg.required {
                    Some(b) => b,
                    None => false,
                };
                let out = match found {
                    Some((key, sr)) => {
                        let l = sr.captured.unicode_len();
                        let prefix = text.substring_char(0, l);
                        let mut map: Results = StrMap::new();
                        let ghost sr_m = sr@;
                        map.insert(key, sr);
                        proof {
                            assert(prefix@ =~= tm.take(l as int));
                            assert(map.pairs() =~= seq![(key@, sr)]);
                            lemma_results_map_model(map, 1);
                            assert(results_model(map) =~= seq![(key@, sr_m)]);
                        }
                        (nm, prefix.to_owned(), Some(CaptureResultData::Or(map)), true)
                    },
                    None => {
                        let map: Results = StrMap::new();
                        proof {
                            lemma_results_map_model(map, 0);
                            assert(results_model(map) =~= Seq::<(Seq<char>, ResultModel)>::empty());
                        }
                        (nm, String::new(), Some(CaptureResultData::Or(map)), required)
                    },
                };
                proof {
                    expected = or_result(opt_str_model(cfg.name), cfg.required, tm, found_m);
                    if found_m is None {
                        assert(out.1@ =~= Seq::<char>::empty());
                    }
                    assert forall|rest: Seq<bool>| #[trigger] spec_check(
                        rule_m,
                        rm,
                        tm,
                        verdicts(q@) + rest,
                    ) == (CheckRun { ok: true, result: expected, rest, asked: questions(q@) }) by {
                        assert(spec_or(entries, rm, tm, 0, 0, verdicts(q@) + rest) == (OrRun {
                            ok: true,
                            found: found_m,
                            rest,
                            asked: questions(q@),
                        }));
                    }
                }
                out
            },
            Rule::Repeat(cfg) => {
                let rules = &cfg.rules;
                let ghost rules_m = rules_model(rules@);
                proof {
                    lemma_rules_model(rules@);
                }
                if rules.len() == 0 {
                    let max_zero = match cfg.max {
                        Some(m) => m == 0,
                        None => false,
                    };
                    if !max_zero {
                        proof {
                            assert forall|rest: Seq<bool>| #![auto] check_agrees(
                                spec_check(rule_m, rm, tm, verdicts(q@) + rest),
                                None,
                                rest,
                                questions(q@),
                            ) by {
                                assert(verdicts(q@) + rest =~= rest);
                                assert(questions(q@) =~= Seq::<Question>::empty());
                            }
                        }
                        return (None, q);
                    }
                    let min_zero = match cfg.min {
                        Some(m) => m == 0,
                        None => false,
                    };
                    let empty = String::new();
                    let out = if min_zero {
                        (None, empty, Some(CaptureResultData::Repeat(Vec::new())), true)
                    } else {
                        (None, empty, None, false)
                    };
                    proof {
                        assert(empty@ =~= base.captured);
                        let subs0: Seq<CaptureResult> = Seq::empty();
                        assert(results_seq_model(subs0) =~= Seq::<ResultModel>::empty());
                        expected = if min_zero {
                            ResultModel {
                                data: Some(DataModel::Repeat(Seq::empty())),
                                is_match: true,
                                ..base
                            }
                        } else {
                            base
                        };
                        assert forall|rest: Seq<bool>| #[trigger] spec_check(
                            rule_m,
                            rm,
                            tm,
                            verdicts(q@) + rest,
                        ) == (CheckRun { ok: true, result: expected, rest, asked: questions(q@) }) by {
                            assert(verdicts(q@) + rest =~= rest);
                            assert(questions(q@) =~= Seq::<Question>::empty());
                        }
                    }
                    out
                } else {
                    let max_reps: usize = match cfg.max {
                        Some(m) => m,
                        None => usize::MAX,
                    };
                    let min_reps: usize = match cfg.min {
                        Some(m) => m,
                        None => 1,
                    };
                    let mut subs: Vec<CaptureResult> = Vec::new();
                    let mut offset: usize = 0;
                    let mut j: usize = rules.len();
                    let mut stopped = false;
                    proof {
                        assert(results_seq_model(subs@) =~= Seq::<ResultModel>::empty());
                        assert forall|rest: Seq<bool>| #[trigger] spec_repeat(
                            rules_m,
                            rm,
                            tm,
                            max_reps as nat,
                            rules_m.len(),
                            0,
                            0,
                            Seq::empty(),
                            verdicts(q@) + rest,
                        ) == repeat_after(
                            questions(q@),
                            spec_repeat(
                                rules_m,
                                rm,
                                tm,
                                max_reps as nat,
                                j as nat,
                                offset as nat,
                                subs@.len(),
                                results_seq_model(subs@),
                                rest,
                            ),
                        ) by {
                            assert(verdicts(q@) + rest =~= rest);
                            assert(questions(q@) =~= Seq::<Question>::empty());
                            let x = spec_repeat(
                                rules_m,
                                rm,
                                tm,
                                max_reps as nat,
                                j as nat,
                                offset as nat,
                                subs@.len(),
                                results_seq_model(subs@),
                                rest,
                            );
                            assert(x.asked =~= Seq::<Question>::empty() + x.asked);
                        }
                    }
                    while !stopped
                        invariant
                            total_evaluator(*eval),
                            tm == text@,
                            rm == results_model(*results),
                            base == no_match(),
                            rule_m == rule@,
                            rule_m == (RuleModel::Repeat {
                                name: opt_str_model(cfg.name),
                                rules: rules_m,
                                seperator: rule_m->Repeat_seperator,
                                min: cfg.min,
                                max: cfg.max,
                            }),
                            rules_m == rules_model(rules@),
                            rules_m.len() == rules@.len(),
                            rules@.len() > 0,
                            forall|k: int|
                                0 <= k < rules@.len() ==> #[trigger] rules_m[k] == rules@[k]@,
                            n == tm.len(),
                            offset <= n,
                            j <= rules@.len(),
                            subs@.len() <= max_reps + j,
                            max_reps as nat == (match cfg.max {
                                Some(m) => m as nat,
                                None => usize::MAX as nat,
                            }),
                            answered_by(*eval, q@),
                            forall|rest: Seq<bool>|
                                #[trigger] spec_repeat(
                                    rules_m,
                                    rm,
                                    tm,
                                    max_reps as nat,
                                    rules_m.len(),
                                    0,
                                    0,
                                    Seq::empty(),
                                    verdicts(q@) + rest,
                                ) == repeat_after(
                                    questions(q@),
                                    if stopped {
                                        RepeatRun {
                                            ok: true,
                                            offset: offset as nat,
                                            reps: subs@.len(),
                                            subs: results_seq_model(subs@),
                                            rest,
                                            asked: Seq::empty(),
                                        }
                                    } else {
                                        spec_repeat(
                                            rules_m,
                                            rm,
                                            tm,
                                            max_reps as nat,
                                            j as nat,
                                            offset as nat,
                                            subs@.len(),
                                            results_seq_model(subs@),
                                            rest,
                                        )
                                    },
                                ),
                        decreases (if stopped {
                            0int
                        } else {
                            1int
                        }), max_reps + rules@.len() - subs@.len(), (if j >= rules@.len() {
                            1int
                        } else {
                            0int
                        }),
                    {
                        if j >= rules.len() {
                            if subs.len() < max_reps {
                                j = 0;
                            } else {
                                stopped = true;
                                proof {
                                    assert forall|rest: Seq<bool>| #[trigger] spec_repeat(
                                        rules_m,
                                        rm,
                                        tm,
                                        max_reps as nat,
                                        rules_m.len(),
                                        0,
                                        0,
                                        Seq::empty(),
                                        verdicts(q@) + rest,
                                    ) == repeat_after(
                                        questions(q@),
                                        RepeatRun {
                                            ok: true,
                                            offset: offset as nat,
                                            reps: subs@.len(),
                                            subs: results_seq_model(subs@),
                                            rest,
                                            asked: Seq::empty(),
                                        },
                                    ) by {
                                        assert(spec_repeat(
                                            rules_m,
                                            rm,
                                            tm,
                                            max_reps as nat,
                                            rules_m.len(),
                                            0,
                                            0,
                                            Seq::empty(),
                                            verdicts(q@) + rest,
                                        ) == repeat_after(
                                            questions(q@),
                                            spec_repeat(
                                                rules_m,
                                                rm,
                                                tm,
                                                max_reps as nat,
                                                j as nat,
                                                offset as nat,
                                                subs@.len(),
                                                results_seq_model(subs@),
                                                rest,
                                            ),
                                        ));
                                    }
                                }
                            }
                        } else {
                            let sub = &rules[j];
                            let rest_text = text.substring_char(offset, n);
                            let ghost sub_m = sub@;
                            let ghost rest_m = rest_text@;
                            let ghost cur_subs = subs@;
                            proof {
                                assert(rest_m =~= tm.skip(offset as int));
                                assert(sub_m == rules_m[j as int]);
                                assert(decreases_to!(rule_m => sub_m)) by {
                                    assert(decreases_to!(rule_m => rule_m->Repeat_rules));
                                    assert(decreases_to!(rules_m => rules_m[j as int]));
                                }
                            }
                            let (sr, Ghost(qs)) = self.run_check(sub, results, rest_text, eval);
                            proof {
                                lemma_calls_concat(*eval, q@, qs);
                            }
                            match sr {
                                None => {
                                    proof {
                                        assert forall|rest: Seq<bool>| #![auto] check_agrees(
                                            spec_check(rule_m, rm, tm, verdicts(q@ + qs) + rest),
                                            None,
                                            rest,
                                            questions(q@ + qs),
                                        ) by {
                                            assert(verdicts(q@ + qs) + rest =~= verdicts(q@) + (verdicts(qs) + rest));
                                            assert(check_agrees(
                                                spec_check(sub_m, rm, rest_m, verdicts(qs) + rest),
                                                None,
                                                rest,
                                                questions(qs),
                                            ));
                                            assert(spec_repeat(
                                                rules_m,
                                                rm,
                                                tm,
                                                max_reps as nat,
                                                rules_m.len(),
                                                0,
                                                0,
                                                Seq::empty(),
                                                verdicts(q@) + (verdicts(qs) + rest),
                                            ) == repeat_after(
                                                questions(q@),
                                                spec_repeat(
                                                    rules_m,
                                                    rm,
                                                    tm,
                                                    max_reps as nat,
                                                    j as nat,
                                                    offset as nat,
                                                    subs@.len(),
                                                    results_seq_model(subs@),
                                                    verdicts(qs) + rest,
                                                ),
                                            ));
                                        }
                                    }
                                    return (None, Ghost(q@ + qs));
                                },
                                Some(sr) => {
                                    let ghost sr_m = sr@;
                                    if sr.is_match {
                                        let l = sr.captured.unicode_len();
                                        subs.push(sr);
                                        proof {
                                            lemma_results_seq_model(subs@);
                                            lemma_results_seq_model(cur_subs);
                                            assert(results_seq_model(subs@) =~= results_seq_model(cur_subs).push(sr_m));
                                            assert forall|rest: Seq<bool>| #[trigger] spec_repeat(
                                                rules_m,
                                                rm,
                                                tm,
                                                max_reps as nat,
                                                rules_m.len(),
                                                0,
                                                0,
                                                Seq::empty(),
                                                verdicts(q@ + qs) + rest,
                                            ) == repeat_after(
                                                questions(q@ + qs),
                                                spec_repeat(
                                                    rules_m,
                                                    rm,
                                                    tm,
                                                    max_reps as nat,
                                                    (j + 1) as nat,
                                                    (offset + l) as nat,
                                                    subs@.len(),
                                                    results_seq_model(subs@),
                                                    rest,
                                                ),
                                            ) by {
                                                assert(verdicts(q@ + qs) + rest =~= verdicts(q@) + (verdicts(qs) + rest));
                                                assert(check_agrees(
                                                    spec_check(sub_m, rm, rest_m, verdicts(qs) + rest),
                                                    Some(sr),
                                                    rest,
                                                    questions(qs),
                                                ));
                                                assert(spec_repeat(
                                                    rules_m,
                                                    rm,
                                                    tm,
                                                    max_reps as nat,
                                                    rules_m.len(),
                                                    0,
                                                    0,
                                                    Seq::empty(),
                                                    verdicts(q@) + (verdicts(qs) + rest),
                                                ) == repeat_after(
                                                    questions(q@),
                                                    spec_repeat(
                                                        rules_m,
                                                        rm,
                                                        tm,
                                                        max_reps as nat,
                                                        j as nat,
                                                        offset as nat,
                                                        cur_subs.len(),
                                                        results_seq_model(cur_subs),
                                                        verdicts(qs) + rest,
                                                    ),
                                                ));
                                                let x = spec_repeat(
                                                    rules_m,
                                                    rm,
                                                    tm,
                                                    max_reps as nat,
                                                    (j + 1) as nat,
                                                    (offset + l) as nat,
                                                    subs@.len(),
                                                    results_seq_model(subs@),
                                                    rest,
                                                ).asked;
                                                assert(questions(q@ + qs) + x =~= questions(q@) + (questions(qs) + x));
                                            }
                                        }
                                        offset = offset + l;
                                        j = j + 1;
                                    } else {
                                        proof {
                                            assert forall|rest: Seq<bool>| #[trigger] spec_repeat(
                                                rules_m,
                                                rm,
                                                tm,
                                                max_reps as nat,
                                                rules_m.len(),
                                                0,
                                                0,
                                                Seq::empty(),
                                                verdicts(q@ + qs) + rest,
                                            ) == repeat_after(
                                                questions(q@ + qs),
                                                RepeatRun {
                                                    ok: true,
                                                    offset: offset as nat,
                                                    reps: subs@.len(),
                                                    subs: results_seq_model(subs@),
                                                    rest,
                                                    asked: Seq::empty(),
                                                },
                                            ) by {
                                                assert(verdicts(q@ + qs) + rest =~= verdicts(q@) + (verdicts(qs) + rest));
                                                assert(check_agrees(
                                                    spec_check(sub_m, rm, rest_m, verdicts(qs) + rest),
                                                    Some(sr),
                                                    rest,
                                                    questions(qs),
                                                ));
                                                assert(spec_repeat(
                                                    rules_m,
                                                    rm,
                                                    tm,
                                                    max_reps as nat,
                                                    rules_m.len(),
                                                    0,
                                                    0,
                                                    Seq::empty(),
                                                    verdicts(q@) + (verdicts(qs) + rest),
                                                ) == repeat_after(
                                                    questions(q@),
                                                    spec_repeat(
                                                        rules_m,
                                                        rm,
                                                        tm,
                                                        max_reps as nat,
                                                        j as nat,
                                                        offset as nat,
                                                        subs@.len(),
                                                        results_seq_model(subs@),
                                                        verdicts(qs) + rest,
                                                    ),
                                                ));
                                                assert(questions(q@ + qs) + Seq::<Question>::empty() =~= questions(q@) + questions(qs));
                                            }
                                        }
                                        stopped = true;
                                    }
                                    q = Ghost(q@ + qs);
                                },
                            }
                        }
                    }
                    let reps = subs.len();
                    if reps >= min_reps {
                        let prefix = text.substring_char(0, offset);
                        proof {
                            assert(prefix@ =~= tm.take(offset as int));
                            expected = ResultModel {
                                data: Some(DataModel::Repeat(results_seq_model(subs@))),
                                is_match: true,
                                captured: prefix@,
                                ..base
                            };
                            assert forall|rest: Seq<bool>| #[trigger] spec_check(
                                rule_m,
                                rm,
                                tm,
                                verdicts(q@) + rest,
                            ) == (CheckRun { ok: true, result: expected, rest, asked: questions(q@) }) by {
                                assert(spec_repeat(
                                    rules_m,
                                    rm,
                                    tm,
                                    max_reps as nat,
                                    rules_m.len(),
                                    0,
                                    0,
                                    Seq::empty(),
                                    verdicts(q@) + rest,
                                ) == repeat_after(
                                    questions(q@),
                                    RepeatRun {
                                        ok: true,
                                        offset: offset as nat,
                                        reps: subs@.len(),
                                        subs: results_seq_model(subs@),
                                        rest,
                                        asked: Seq::empty(),
                                    },
                                ));
                                assert(questions(q@) + Seq::<Question>::empty() =~= questions(q@));
                            }
                        }
                        (None, prefix.to_owned(), Some(CaptureResultData::Repeat(subs)), true)
                    } else {
                        proof {
                            expected = base;
                            assert forall|rest: Seq<bool>| #[trigger] spec_check(
                                rule_m,
                                rm,
                                tm,
                                verdicts(q@) + rest,
                            ) == (CheckRun { ok: true, result: expected, rest, asked: questions(q@) }) by {
                                assert(spec_repeat(
                                    rules_m,
                                    rm,
                                    tm,
                                    max_reps as nat,
                                    rules_m.len(),
                                    0,
                                    0,
                                    Seq::empty(),
                                    verdicts(q@) + rest,
                                ) == repeat_after(
                                    questions(q@),
                                    RepeatRun {
                                        ok: true,
                                        offset: offset as nat,
                                        reps: subs@.len(),
                                        subs: results_seq_model(subs@),
                                        rest,
                                        asked: Seq::empty(),
                                    },
                                ));
                                assert(questions(q@) + Seq::<Question>::empty() =~= questions(q@));
                            }
                        }
                        let empty = String::new();
                        proof {
                            assert(empty@ =~= base.captured);
                        }
                        (None, empty, None, false)
                    }
                }
            },

        };
        let r = CaptureResult { name, captured, data, is_match };
        proof {
            assert(r@ == expected);
            if r.captured@.len() == 0 {
                assert(r.captured@ =~= tm.take(0));
            }
            assert forall|rest: Seq<bool>| #![auto] check_agrees(
                spec_check(rule_m, rm, tm, verdicts(q@) + rest),
                Some(r),
                rest,
                questions(q@),
            ) by {
                assert(spec_check(rule_m, rm, tm, verdicts(q@) + rest) == (CheckRun {
                    ok: true,
                    result: expected,
                    rest,
                    asked: questions(q@),
                }));
            }
        }
        (Some(r), q)
    }

    /// Consumes `text` with this consumer's rules; `None` when a rule that
    /// cannot be checked is reached.  Also returns, as a ghost, the calls made
    /// of `eval`.
    fn run_consume<'s, E: Fn(&mlua::Function, &Results) -> bool>(
        &self,
        text: &'s str,
        eval: &E,
    ) -> (out: (Option<Consumed<'s>>, Ghost<Seq<LogicCall>>))
        requires
            total_evaluator(*eval),
        ensures
            consume_outcome(rules_model(self.rules@), text@, *eval, out.0, out.1@),
    {
        let ghost rules_m = rules_model(self.rules@);
        let ghost tm = text@;
        proof {
            lemma_rules_model(self.rules@);
        }
        let n = text.unicode_len();
        let mut offset: usize = 0;
        let mut results: Results = StrMap::new();
        let mut index: usize = 0;
        let mut q: Ghost<Seq<LogicCall>> = Ghost(Seq::empty());
        proof {
            lemma_results_map_model(results, 0);
            assert(results_model(results) =~= Seq::<(Seq<char>, ResultModel)>::empty());
            assert forall|rest: Seq<bool>| #[trigger] spec_consume(
                rules_m,
                tm,
                0,
                0,
                Seq::empty(),
                verdicts(q@) + rest,
            ) == consume_after(
                questions(q@),
                spec_consume(rules_m, tm, index as nat, offset as nat, results_model(results), rest),
            ) by {
                assert(verdicts(q@) + rest =~= rest);
                assert(questions(q@) =~= Seq::<Question>::empty());
                let x = spec_consume(rules_m, tm, index as nat, offset as nat, results_model(results), rest);
                assert(x.asked =~= Seq::<Question>::empty() + x.asked);
            }
        }
        while index < self.rules.len()
            invariant
                total_evaluator(*eval),
                tm == text@,
                rules_m == rules_model(self.rules@),
                rules_m.len() == self.rules@.len(),
                forall|k: int| 0 <= k < self.rules@.len() ==> #[trigger] rules_m[k] == self.rules@[k]@,
                n == tm.len(),
                offset <= n,
                index <= self.rules@.len(),
                answered_by(*eval, q@),
                forall|rest: Seq<bool>|
                    #[trigger] spec_consume(rules_m, tm, 0, 0, Seq::empty(), verdicts(q@) + rest)
                        == consume_after(
                        questions(q@),
                        spec_consume(rules_m, tm, index as nat, offset as nat, results_model(results), rest),
                    ),
            decreases self.rules@.len() - index,
        {
            let rule = &self.rules[index];
            let remaining = text.substring_char(offset, n);
            let ghost rule_m = rule@;
            let ghost rem_m = remaining@;
            let ghost rs_m = results_model(results);
            proof {
                assert(rem_m =~= tm.skip(offset as int));
            }
            let (r, Ghost(qs)) = self.run_check(rule, &results, remaining, eval);
            proof {
                lemma_calls_concat(*eval, q@, qs);
            }
            match r {
                None => {
                    proof {
                        assert forall|rest: Seq<bool>| #![auto] consume_agrees(
                            spec_consume(rules_m, tm, 0, 0, Seq::empty(), verdicts(q@ + qs) + rest),
                            tm,
                            None,
                            rest,
                            questions(q@ + qs),
                        ) by {
                            assert(verdicts(q@ + qs) + rest =~= verdicts(q@) + (verdicts(qs) + rest));
                            assert(check_agrees(
                                spec_check(rule_m, rs_m, rem_m, verdicts(qs) + rest),
                                None,
                                rest,
                                questions(qs),
                            ));
                            assert(spec_consume(rules_m, tm, 0, 0, Seq::empty(), verdicts(q@) + (verdicts(qs) + rest))
                                == consume_after(
                                questions(q@),
                                spec_consume(rules_m, tm, index as nat, offset as nat, rs_m, verdicts(qs) + rest),
                            ));
                        }
                    }
                    return (None, Ghost(q@ + qs));
                },
                Some(result) => {
                    if !result.is_match {
                        proof {
                            assert forall|rest: Seq<bool>| #![auto] consume_agrees(
                                spec_consume(rules_m, tm, 0, 0, Seq::empty(), verdicts(q@ + qs) + rest),
                                tm,
                                Some((None, text)),
                                rest,
                                questions(q@ + qs),
                            ) by {
                                assert(verdicts(q@ + qs) + rest =~= verdicts(q@) + (verdicts(qs) + rest));
                                assert(check_agrees(
                                    spec_check(rule_m, rs_m, rem_m, verdicts(qs) + rest),
                                    Some(result),
                                    rest,
                                    questions(qs),
                                ));
                                assert(spec_consume(rules_m, tm, 0, 0, Seq::empty(), verdicts(q@) + (verdicts(qs) + rest))
                                    == consume_after(
                                    questions(q@),
                                    spec_consume(rules_m, tm, index as nat, offset as nat, rs_m, verdicts(qs) + rest),
                                ));
                                assert(tm.skip(0) =~= tm);
                            }
                        }
                        return (Some((None, text)), Ghost(q@ + qs));
                    }
                    let ghost res_m = result@;
                    let l = result.captured.unicode_len();
                    let key = clone_opt_string(&result.name);
                    proof {
                        use_type_invariant(&results);
                        results.lemma_keys_distinct();
                    }
                    let ghost before = results;
                    match key {
                        Some(k) => {
                            results.insert(k, result);
                            proof {
                                lemma_results_model_insert(before, results, k@, result);
                            }
                        },
                        None => {},
                    }
                    proof {
                        assert(results_model(results) == record_result(rs_m, res_m));
                        assert forall|rest: Seq<bool>| #[trigger] spec_consume(
                            rules_m,
                            tm,
                            0,
                            0,
                            Seq::empty(),
                            verdicts(q@ + qs) + rest,
                        ) == consume_after(
                            questions(q@ + qs),
                            spec_consume(
                                rules_m,
                                tm,
                                (index + 1) as nat,
                                (offset + l) as nat,
                                results_model(results),
                                rest,
                            ),
                        ) by {
                            assert(verdicts(q@ + qs) + rest =~= verdicts(q@) + (verdicts(qs) + rest));
                            assert(check_agrees(
                                spec_check(rule_m, rs_m, rem_m, verdicts(qs) + rest),
                                Some(result),
                                rest,
                                questions(qs),
                            ));
                            assert(spec_consume(rules_m, tm, 0, 0, Seq::empty(), verdicts(q@) + (verdicts(qs) + rest))
                                == consume_after(
                                questions(q@),
                                spec_consume(rules_m, tm, index as nat, offset as nat, rs_m, verdicts(qs) + rest),
                            ));
                            let x = spec_consume(
                                rules_m,
                                tm,
                                (index + 1) as nat,
                                (offset + l) as nat,
                                results_model(results),
                                rest,
                            ).asked;
                            assert(questions(q@ + qs) + x =~= questions(q@) + (questions(qs) + x));
                        }
                    }
                    offset = offset + l;
                    index = index + 1;
                    q = Ghost(q@ + qs);
                },
            }
        }
        let remaining = text.substring_char(offset, n);
        proof {
            assert(remaining@ =~= tm.skip(offset as int));
            assert forall|rest: Seq<bool>| #![auto] consume_agrees(
                spec_consume(rules_m, tm, 0, 0, Seq::empty(), verdicts(q@) + rest),
                tm,
                Some((Some(results), remaining)),
                rest,
                questions(q@),
            ) by {
                assert(spec_consume(rules_m, tm, 0, 0, Seq::empty(), verdicts(q@) + rest) == consume_after(
                    questions(q@),
                    spec_consume(rules_m, tm, index as nat, offset as nat, results_model(results), rest),
                ));
                assert(questions(q@) + Seq::<Question>::empty() =~= questions(q@));
            }
        }
        (Some((Some(results), remaining)), q)
    }
}

// ---------------------------------------------------------------------------
// Rules that ask Lua nothing
/// Every rule of `rs` is free of `Logic` rules.
pub open spec fn rules_logic_free(rs: Seq<RuleModel>) -> bool
    decreases rs, 0nat,
{
    if rs.len() == 0 {
        true
    } else {
        rules_logic_free(rs.drop_last()) && logic_free(rs[rs.len() - 1])
    }
}

/// Every alternative of `es` is free of `Logic` rules.
pub open spec fn entries_logic_free(es: Seq<(Seq<char>, Seq<RuleModel>)>) -> bool
    decreases es, 0nat,
{
    if es.len() == 0 {
        true
    } else {
        entries_logic_free(es.drop_last()) && rules_logic_free(es[es.len() - 1].1)
    }
}

/// `r` holds no `Logic` rule, at any depth.
pub open spec fn logic_free(r: RuleModel) -> bool
    decreases r, 0nat,
{
    match r {
        RuleModel::Or { rules_list, .. } => entries_logic_free(rules_list),
        RuleModel::Repeat { rules, .. } => rules_logic_free(rules),
        RuleModel::Logic { .. } => false,
        _ => true,
    }
}

/// A sequence is free of `Logic` rules exactly when each of its rules is.
pub proof fn lemma_rules_logic_free(rs: Seq<RuleModel>)
    ensures
        rules_logic_free(rs) <==> forall|i: int| 0 <= i < rs.len() ==> #[trigger] logic_free(rs[i]),
    decreases rs.len(),
{
    if rs.len() > 0 {
        let front = rs.drop_last();
        lemma_rules_logic_free(front);
        assert forall|i: int| 0 <= i < front.len() implies front[i] == rs[i] by {}
        if rules_logic_free(rs) {
            assert forall|i: int| 0 <= i < rs.len() implies #[trigger] logic_free(rs[i]) by {
                if i < rs.len() - 1 {
                    assert(logic_free(front[i]));
                }
            }
        }
        if forall|i: int| 0 <= i < rs.len() ==> #[trigger] logic_free(rs[i]) {
            assert(logic_free(rs[rs.len() - 1]));
            assert forall|i: int| 0 <= i < front.len() implies #[trigger] logic_free(front[i]) by {
                assert(logic_free(rs[i]));
            }
            assert(rules_logic_free(front));
        }
    }
}

/// Alternatives are free of `Logic` rules exactly when each one's rules are.
pub proof fn lemma_entries_logic_free(es: Seq<(Seq<char>, Seq<RuleModel>)>)
    ensures
        entries_logic_free(es) <==> forall|i: int| 0 <= i < es.len() ==> #[trigger] rules_logic_free(es[i].1),
    decreases es.len(),
{
    if es.len() > 0 {
        let front = es.drop_last();
        lemma_entries_logic_free(front);
        assert forall|i: int| 0 <= i < front.len() implies front[i] == es[i] by {}
        if entries_logic_free(es) {
            assert forall|i: int| 0 <= i < es.len() implies #[trigger] rules_logic_free(es[i].1) by {
                if i < es.len() - 1 {
                    assert(rules_logic_free(front[i].1));
                }
            }
        }
        if forall|i: int| 0 <= i < es.len() ==> #[trigger] rules_logic_free(es[i].1) {
            assert(rules_logic_free(es[es.len() - 1].1));
            assert forall|i: int| 0 <= i < front.len() implies #[trigger] rules_logic_free(front[i].1) by {
                assert(rules_logic_free(es[i].1));
            }
            assert(entries_logic_free(front));
        }
    }
}

/// Checking a rule that holds no `Logic` rule asks Lua nothing: whatever
/// the verdicts on the tape, the check reads none of them and has the same
/// outcome.
pub proof fn lemma_check_without_logic(
    rule: RuleModel,
    results: ResultsModel,
    text: Seq<char>,
    tape: Seq<bool>,
)
    requires
        logic_free(rule),
    ensures
        spec_check(rule, results, text, tape) == (CheckRun {
            rest: tape,
            ..spec_check(rule, results, text, Seq::empty())
        }),
        spec_check(rule, results, text, tape).asked == Seq::<Question>::empty(),
    decreases rule, 0nat, 0nat,
{
    match rule {
        RuleModel::Or { rules_list, .. } => {
            lemma_or_without_logic(rules_list, results, text, 0, 0, tape);
        },
        RuleModel::Repeat { rules, max, .. } => {
            if rules.len() > 0 {
                let max_reps = limit_or(max, usize::MAX as nat);
                lemma_repeat_without_logic(rules, results, text, max_reps, rules.len(), 0, 0, Seq::empty(), tape);
            }
        },
        _ => {},
    }
}

/// The alternatives of an `Or` rule without `Logic` rules ask Lua nothing.
pub proof fn lemma_or_without_logic(
    entries: Seq<(Seq<char>, Seq<RuleModel>)>,
    results: ResultsModel,
    text: Seq<char>,
    i: nat,
    j: nat,
    tape: Seq<bool>,
)
    requires
        entries_logic_free(entries),
    ensures
        spec_or(entries, results, text, i, j, tape) == (OrRun {
            rest: tape,
            ..spec_or(entries, results, text, i, j, Seq::empty())
        }),
        spec_or(entries, results, text, i, j, tape).asked == Seq::<Question>::empty(),
    decreases entries, entries.len() - i, if i < entries.len() {
        entries[i as int].1.len() - j
    } else {
        0
    },
{
    if i >= entries.len() {
    } else if j >= entries[i as int].1.len() {
        lemma_or_without_logic(entries, results, text, i + 1, 0, tape);
    } else {
        let sub = entries[i as int].1[j as int];
        lemma_entries_logic_free(entries);
        lemma_rules_logic_free(entries[i as int].1);
        assert(logic_free(sub));
        lemma_check_without_logic(sub, results, text, tape);
        lemma_check_without_logic(sub, results, text, Seq::empty());
        let run = spec_check(sub, results, text, tape);
        if run.ok && !run.result.is_match {
            lemma_or_without_logic(entries, results, text, i, j + 1, tape);
            lemma_or_without_logic(entries, results, text, i, j + 1, Seq::empty());
            let x = spec_or(entries, results, text, i, j + 1, tape);
            let y = spec_or(entries, results, text, i, j + 1, Seq::empty());
            assert(Seq::<Question>::empty() + x.asked =~= x.asked);
            assert(Seq::<Question>::empty() + y.asked =~= y.asked);
        }
    }
}

/// The repetitions of a `Repeat` rule without `Logic` rules ask Lua
/// nothing.
pub proof fn lemma_repeat_without_logic(
    rules: Seq<RuleModel>,
    results: ResultsModel,
    text: Seq<char>,
    max_reps: nat,
    j: nat,
    offset: nat,
    reps: nat,
    subs: Seq<ResultModel>,
    tape: Seq<bool>,
)
    requires
        rules_logic_free(rules),
    ensures
        spec_repeat(rules, results, text, max_reps, j, offset, reps, subs, tape) == (RepeatRun {
            rest: tape,
            ..spec_repeat(rules, results, text, max_reps, j, offset, reps, subs, Seq::empty())
        }),
        spec_repeat(rules, results, text, max_reps, j, offset, reps, subs, tape).asked == Seq::<
            Question,
        >::empty(),
    decreases rules, max_reps + rules.len() - reps, if j >= rules.len() {
        1nat
    } else {
        0nat
    },
{
    if j >= rules.len() {
        if reps < max_reps && rules.len() > 0 {
            lemma_repeat_without_logic(rules, results, text, max_reps, 0, offset, reps, subs, tape);
        }
    } else if reps >= max_reps + rules.len() {
    } else {
        lemma_rules_logic_free(rules);
        lemma_check_without_logic(rules[j as int], results, text.skip(offset as int), tape);
        lemma_check_without_logic(rules[j as int], results, text.skip(offset as int), Seq::empty());
        let run = spec_check(rules[j as int], results, text.skip(offset as int), tape);
        if run.ok && run.result.is_match {
            let next = (offset + run.result.captured.len()) as nat;
            let more = subs.push(run.result);
            lemma_repeat_without_logic(rules, results, text, max_reps, j + 1, next, reps + 1, more, tape);
            lemma_repeat_without_logic(
                rules,
                results,
                text,
                max_reps,
                j + 1,
                next,
                reps + 1,
                more,
                Seq::empty(),
            );
            let x = spec_repeat(rules, results, text, max_reps, j + 1, next, reps + 1, more, tape);
            let y = spec_repeat(rules, results, text, max_reps, j + 1, next, reps + 1, more, Seq::empty());
            assert(Seq::<Question>::empty() + x.asked =~= x.asked);
            assert(Seq::<Question>::empty() + y.asked =~= y.asked);
        }
    }
}

/// Consuming with rules that hold no `Logic` rule asks Lua nothing:
/// whatever the verdicts on the tape, the outcome is the same.
pub proof fn lemma_consume_without_logic(
    rules: Seq<RuleModel>,
    text: Seq<char>,
    idx: nat,
    offset: nat,
    results: ResultsModel,
    tape: Seq<bool>,
)
    requires
        rules_logic_free(rules),
    ensures
        spec_consume(rules, text, idx, offset, results, tape) == (ConsumeRun {
            rest: tape,
            ..spec_consume(rules, text, idx, offset, results, Seq::empty())
        }),
        spec_consume(rules, text, idx, offset, results, tape).asked == Seq::<Question>::empty(),
    decreases rules, rules.len() - idx, 0nat,
{
    if idx < rules.len() {
        lemma_rules_logic_free(rules);
        lemma_check_without_logic(rules[idx as int], results, text.skip(offset as int), tape);
        lemma_check_without_logic(rules[idx as int], results, text.skip(offset as int), Seq::empty());
        let run = spec_check(rules[idx as int], results, text.skip(offset as int), tape);
        if run.ok && run.result.is_match {
            let next = (offset + run.result.captured.len()) as nat;
            let gathered = record_result(results, run.result);
            lemma_consume_without_logic(rules, text, idx + 1, next, gathered, tape);
            lemma_consume_without_logic(rules, text, idx + 1, next, gathered, Seq::empty());
            let x = spec_consume(rules, text, idx + 1, next, gathered, tape);
            let y = spec_consume(rules, text, idx + 1, next, gathered, Seq::empty());
            assert(Seq::<Question>::empty() + x.asked =~= x.asked);
            assert(Seq::<Question>::empty() + y.asked =~= y.asked);
        }
    }
}

} // verus!
