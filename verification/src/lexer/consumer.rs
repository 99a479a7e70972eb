//! Consumers: check text against the rules of a chain.
//!
//! A `Logic` rule asks a Lua function whether it matches.  Such answers come
//! from outside the library, so the contracts here describe the outcome for
//! every sequence of answers: the model of a check reads its answers, in order,
//! from a tape of verdicts, and reports the questions it asked.
use vstd::prelude::*;
use vstd::string::StrSliceExecFns;

use crate::lexer::capture::{
    CaptureResult,
    CaptureResultData,
    CaptureResultsMap,
    ChildDetails,
    DataModel,
    DetailsModel,
    LogicDetails,
    OrDetails,
    RepeatDetails,
    ResultModel,
    Rule,
    RuleDetails,
    RuleModel,
    SingleDetails,
    clone_rules,
    lemma_or_map_model,
    lemma_results_map_model,
    lemma_results_seq_model,
    lemma_rules_model,
    or_model,
    result_model,
    results_map_model,
    results_model,
    results_seq_model,
    rules_model,
};
use crate::pattern::{leading_match, match_at_start, regex_compiles};
use crate::strmap::{assoc_insert, StrMap};

verus! {

/// A chain's rules, ready to be run against text.
pub struct Consumer {
    pub name: String,
    pub rules: Vec<Rule>,
}

// ---------------------------------------------------------------------------
// Questions asked of Lua
/// The model of a map of named results.
pub type ResultsModel = Seq<(Seq<char>, ResultModel)>;

/// A question a `Logic` rule asks: its function, and the named results
/// gathered so far.
pub type Question = (mlua::Function, ResultsModel);

/// A call of the evaluator as it happened: the function, the results handed
/// over, and the verdict that came back.
pub type LogicCall = (mlua::Function, CaptureResultsMap, bool);

/// The verdicts of a sequence of calls.
pub open spec fn verdicts(q: Seq<LogicCall>) -> Seq<bool> {
    q.map_values(|c: LogicCall| c.2)
}

/// The questions of a sequence of calls.
pub open spec fn questions(q: Seq<LogicCall>) -> Seq<Question> {
    q.map_values(|c: LogicCall| (c.0, results_model(c.1)))
}

/// Each verdict is one that `eval` may give for its function and results.
pub open spec fn answered_by<E: Fn(&mlua::Function, &CaptureResultsMap) -> bool>(
    eval: E,
    q: Seq<LogicCall>,
) -> bool {
    forall|i: int| 0 <= i < q.len() ==> call_ensures(eval, (&q[i].0, &q[i].1), #[trigger] q[i].2)
}

/// `eval` can be called on any function and results.
pub open spec fn total_evaluator<E: Fn(&mlua::Function, &CaptureResultsMap) -> bool>(
    eval: E,
) -> bool {
    forall|f: &mlua::Function, m: &CaptureResultsMap| call_requires(eval, (f, m))
}

/// Calls concatenate.
pub proof fn lemma_calls_concat<E: Fn(&mlua::Function, &CaptureResultsMap) -> bool>(
    eval: E,
    q1: Seq<LogicCall>,
    q2: Seq<LogicCall>,
)
    ensures
        verdicts(q1 + q2) == verdicts(q1) + verdicts(q2),
        questions(q1 + q2) == questions(q1) + questions(q2),
        answered_by(eval, q1) && answered_by(eval, q2) ==> answered_by(eval, q1 + q2),
{
    assert(verdicts(q1 + q2) =~= verdicts(q1) + verdicts(q2));
    assert(questions(q1 + q2) =~= questions(q1) + questions(q2));
    if answered_by(eval, q1) && answered_by(eval, q2) {
        assert forall|i: int| 0 <= i < (q1 + q2).len() implies call_ensures(
            eval,
            (&(q1 + q2)[i].0, &(q1 + q2)[i].1),
            #[trigger] (q1 + q2)[i].2,
        ) by {
            if i < q1.len() {
                assert((q1 + q2)[i] == q1[i]);
                assert(call_ensures(eval, (&q1[i].0, &q1[i].1), q1[i].2));
            } else {
                assert((q1 + q2)[i] == q2[i - q1.len()]);
                assert(call_ensures(
                    eval,
                    (&q2[i - q1.len()].0, &q2[i - q1.len()].1),
                    q2[i - q1.len()].2,
                ));
            }
        }
    }
}

// ---------------------------------------------------------------------------
// The model of checking
/// The outcome of checking a rule: whether the check could be carried out,
/// its result, the verdicts left on the tape and the questions asked.
pub struct CheckRun {
    pub ok: bool,
    pub result: ResultModel,
    pub rest: Seq<bool>,
    pub asked: Seq<Question>,
}

/// The state an `Or` rule reaches over its alternatives.
pub struct OrRun {
    pub ok: bool,
    pub offset: nat,
    pub any: bool,
    pub rest: Seq<bool>,
    pub asked: Seq<Question>,
}

/// The state a `Repeat` rule reaches over its repetitions.
pub struct RepeatRun {
    pub ok: bool,
    pub offset: nat,
    pub reps: nat,
    pub subs: Seq<ResultModel>,
    pub rest: Seq<bool>,
    pub asked: Seq<Question>,
}

/// The outcome of consuming text with a list of rules.
pub struct ConsumeRun {
    pub ok: bool,
    pub results: Option<ResultsModel>,
    pub consumed: nat,
    pub rest: Seq<bool>,
    pub asked: Seq<Question>,
}

/// The result a rule starts from before its kind is looked at.
pub open spec fn initial_result(rule: RuleModel) -> ResultModel {
    ResultModel { rule, captured: Seq::empty(), data: None, is_match: !rule.required }
}

/// The verdict at the head of a tape (none left reads as `false`).
pub open spec fn head_verdict(tape: Seq<bool>) -> bool {
    if tape.len() > 0 {
        tape[0]
    } else {
        false
    }
}

/// A tape without its head.
pub open spec fn tail_verdicts(tape: Seq<bool>) -> Seq<bool> {
    if tape.len() > 0 {
        tape.drop_first()
    } else {
        tape
    }
}

/// Checks `rule` against `text`, with `results` the named results gathered so
/// far.  The check cannot be carried out when it reaches a pattern that does
/// not compile, a `Recurse` or `Unknown` rule, or a `Logic` rule without a
/// function.
pub open spec fn spec_check(
    rule: RuleModel,
    results: ResultsModel,
    text: Seq<char>,
    tape: Seq<bool>,
) -> CheckRun
    decreases rule, 0nat, 0nat,
{
    let base = initial_result(rule);
    match rule.details {
        DetailsModel::Single { pattern } => {
            if !regex_compiles(pattern) {
                CheckRun { ok: false, result: base, rest: tape, asked: Seq::empty() }
            } else {
                match match_at_start(pattern, text) {
                    Some(m) => CheckRun {
                        ok: true,
                        result: ResultModel {
                            data: Some(DataModel::Single),
                            captured: m,
                            is_match: true,
                            ..base
                        },
                        rest: tape,
                        asked: Seq::empty(),
                    },
                    None => CheckRun { ok: true, result: base, rest: tape, asked: Seq::empty() },
                }
            }
        },
        DetailsModel::Or { rules_map } => {
            let o = spec_or(rules_map, results, text, 0, 0, 0, false, tape);
            CheckRun {
                ok: o.ok,
                result: ResultModel {
                    captured: text.take(o.offset as int),
                    is_match: if o.any {
                        true
                    } else {
                        base.is_match
                    },
                    ..base
                },
                rest: o.rest,
                asked: o.asked,
            }
        },
        DetailsModel::Repeat { rules, seperator, min, max } => {
            if rules.len() == 0 {
                CheckRun {
                    ok: true,
                    result: ResultModel { is_match: true, ..base },
                    rest: tape,
                    asked: Seq::empty(),
                }
            } else {
                let max_reps: nat = match max {
                    Some(m) => m as nat,
                    None => usize::MAX as nat,
                };
                let min_reps: nat = match min {
                    Some(m) => m as nat,
                    None => 0,
                };
                let p = spec_repeat(
                    rules,
                    results,
                    text,
                    max_reps,
                    rules.len(),
                    0,
                    0,
                    Seq::empty(),
                    tape,
                );
                CheckRun {
                    ok: p.ok,
                    result: if p.reps >= min_reps {
                        ResultModel {
                            data: Some(DataModel::Repeat(p.subs)),
                            is_match: true,
                            captured: text.take(p.offset as int),
                            ..base
                        }
                    } else {
                        base
                    },
                    rest: p.rest,
                    asked: p.asked,
                }
            }
        },
        DetailsModel::Child { child } => {
            let c = spec_consume(child.rules, text, 0, 0, Seq::empty(), tape);
            CheckRun {
                ok: c.ok,
                result: match c.results {
                    Some(m) => ResultModel {
                        captured: text.take(c.consumed as int),
                        is_match: true,
                        data: Some(DataModel::Child(m)),
                        ..base
                    },
                    None => ResultModel { is_match: true, ..base },
                },
                rest: c.rest,
                asked: c.asked,
            }
        },
        DetailsModel::Logic { func } => match func {
            Some(f) => CheckRun {
                ok: true,
                result: ResultModel { is_match: head_verdict(tape), ..base },
                rest: tail_verdicts(tape),
                asked: seq![(f, results)],
            },
            None => CheckRun { ok: false, result: base, rest: tape, asked: Seq::empty() },
        },
        DetailsModel::Recurse => CheckRun {
            ok: false,
            result: base,
            rest: tape,
            asked: Seq::empty(),
        },
        DetailsModel::Unknown => CheckRun {
            ok: false,
            result: base,
            rest: tape,
            asked: Seq::empty(),
        },
    }
}

/// Adds questions asked before an `Or` state was reached.
pub open spec fn or_after(asked: Seq<Question>, o: OrRun) -> OrRun {
    OrRun { asked: asked + o.asked, ..o }
}

/// The alternatives of an `Or` rule from alternative `i`, rule `j` on: each
/// alternative's rules are checked in turn from `offset` on, until one does
/// not match; every match moves `offset` past what it captured.
pub open spec fn spec_or(
    entries: Seq<(Seq<char>, Seq<RuleModel>)>,
    results: ResultsModel,
    text: Seq<char>,
    i: nat,
    j: nat,
    offset: nat,
    any: bool,
    tape: Seq<bool>,
) -> OrRun
    decreases entries, entries.len() - i, if i < entries.len() {
        entries[i as int].1.len() - j
    } else {
        0
    },
{
    if i >= entries.len() {
        OrRun { ok: true, offset, any, rest: tape, asked: Seq::empty() }
    } else if j >= entries[i as int].1.len() {
        spec_or(entries, results, text, i + 1, 0, offset, any, tape)
    } else {
        let run = spec_check(entries[i as int].1[j as int], results, text.skip(offset as int), tape);
        if !run.ok {
            OrRun { ok: false, offset, any, rest: run.rest, asked: run.asked }
        } else if run.result.is_match {
            or_after(
                run.asked,
                spec_or(
                    entries,
                    results,
                    text,
                    i,
                    j + 1,
                    offset + run.result.captured.len(),
                    true,
                    run.rest,
                ),
            )
        } else {
            or_after(run.asked, spec_or(entries, results, text, i + 1, 0, offset, any, run.rest))
        }
    }
}

/// Adds questions asked before a `Repeat` state was reached.
pub open spec fn repeat_after(asked: Seq<Question>, p: RepeatRun) -> RepeatRun {
    RepeatRun { asked: asked + p.asked, ..p }
}

/// The repetitions of a `Repeat` rule from rule `j` on.  At the end of the
/// rules (`j` past the last) a new round starts while fewer than `max_reps`
/// matches were counted; within a round every rule is checked from `offset`
/// on, each match counting one repetition, and the first rule that does not
/// match ends the repetitions.
pub open spec fn spec_repeat(
    rules: Seq<RuleModel>,
    results: ResultsModel,
    text: Seq<char>,
    max_reps: nat,
    j: nat,
    offset: nat,
    reps: nat,
    subs: Seq<ResultModel>,
    tape: Seq<bool>,
) -> RepeatRun
    decreases rules, max_reps + rules.len() - reps, if j >= rules.len() {
        1nat
    } else {
        0nat
    },
{
    if j >= rules.len() {
        if reps < max_reps && rules.len() > 0 {
            spec_repeat(rules, results, text, max_reps, 0, offset, reps, subs, tape)
        } else {
            RepeatRun { ok: true, offset, reps, subs, rest: tape, asked: Seq::empty() }
        }
    } else if reps >= max_reps + rules.len() {
        RepeatRun { ok: true, offset, reps, subs, rest: tape, asked: Seq::empty() }
    } else {
        let run = spec_check(rules[j as int], results, text.skip(offset as int), tape);
        if !run.ok {
            RepeatRun { ok: false, offset, reps, subs, rest: run.rest, asked: run.asked }
        } else if run.result.is_match {
            repeat_after(
                run.asked,
                spec_repeat(
                    rules,
                    results,
                    text,
                    max_reps,
                    j + 1,
                    offset + run.result.captured.len(),
                    reps + 1,
                    subs.push(run.result),
                    run.rest,
                ),
            )
        } else {
            RepeatRun { ok: true, offset, reps, subs, rest: run.rest, asked: run.asked }
        }
    }
}

/// Adds questions asked before a consuming state was reached.
pub open spec fn consume_after(asked: Seq<Question>, c: ConsumeRun) -> ConsumeRun {
    ConsumeRun { asked: asked + c.asked, ..c }
}

/// Results gathered with one more result: named results are recorded under
/// their rule's name.
pub open spec fn record_result(results: ResultsModel, r: ResultModel) -> ResultsModel {
    match r.rule.name {
        Some(n) => assoc_insert(results, n, r),
        None => results,
    }
}

/// Consuming `text` with `rules` from rule `idx` on, `offset` characters
/// being consumed already and `results` gathered: each rule is checked against
/// what is left, and the first that does not match makes the whole fail.
pub open spec fn spec_consume(
    rules: Seq<RuleModel>,
    text: Seq<char>,
    idx: nat,
    offset: nat,
    results: ResultsModel,
    tape: Seq<bool>,
) -> ConsumeRun
    decreases rules, rules.len() - idx, 0nat,
{
    if idx >= rules.len() {
        ConsumeRun {
            ok: true,
            results: Some(results),
            consumed: offset,
            rest: tape,
            asked: Seq::empty(),
        }
    } else {
        let run = spec_check(rules[idx as int], results, text.skip(offset as int), tape);
        if !run.ok {
            ConsumeRun { ok: false, results: None, consumed: 0, rest: run.rest, asked: run.asked }
        } else if !run.result.is_match {
            ConsumeRun { ok: true, results: None, consumed: 0, rest: run.rest, asked: run.asked }
        } else {
            consume_after(
                run.asked,
                spec_consume(
                    rules,
                    text,
                    idx + 1,
                    offset + run.result.captured.len(),
                    record_result(results, run.result),
                    run.rest,
                ),
            )
        }
    }
}

/// The record of one call of the evaluator.
pub open spec fn logic_call(f: &mlua::Function, m: &CaptureResultsMap, verdict: bool) -> LogicCall {
    (*f, *m, verdict)
}

/// The model of optional results.
pub open spec fn opt_results_model(o: &Option<CaptureResultsMap>) -> Option<ResultsModel> {
    match *o {
        Some(m) => Some(results_model(m)),
        None => None,
    }
}

/// `captured` is a prefix of `text`.
pub open spec fn is_prefix(captured: Seq<char>, text: Seq<char>) -> bool {
    captured.len() <= text.len() && captured == text.take(captured.len() as int)
}

/// A run of the model agrees with a computed outcome: it could be carried out
/// exactly when there is an outcome, and then its result is that outcome.
pub open spec fn check_agrees(
    run: CheckRun,
    r: Option<CaptureResult>,
    rest: Seq<bool>,
    asked: Seq<Question>,
) -> bool {
    &&& run.ok == r is Some
    &&& run.rest == rest
    &&& run.asked == asked
    &&& r matches Some(x) ==> run.result == x@
}

/// What a check that made the calls `q` and returned `r` establishes: the
/// verdicts came from `eval`, and the model, reading those verdicts (and
/// whatever follows them on the tape), has the same outcome.
pub open spec fn check_outcome<E: Fn(&mlua::Function, &CaptureResultsMap) -> bool>(
    rule: RuleModel,
    results: ResultsModel,
    text: Seq<char>,
    eval: E,
    r: Option<CaptureResult>,
    q: Seq<LogicCall>,
) -> bool {
    &&& answered_by(eval, q)
    &&& forall|rest: Seq<bool>|
        #![trigger spec_check(rule, results, text, verdicts(q) + rest)]
        check_agrees(spec_check(rule, results, text, verdicts(q) + rest), r, rest, questions(q))
    &&& r matches Some(x) ==> is_prefix(x.captured@, text)
}

/// The outcome of consuming: the named results
/// (if every rule matched), whether every rule matched, and the text left.
pub type Consumed<'s> = (Option<CaptureResultsMap>, bool, &'s str);

/// A run of the model of consuming agrees with a computed outcome.
pub open spec fn consume_agrees(
    run: ConsumeRun,
    text: Seq<char>,
    r: Option<Consumed>,
    rest: Seq<bool>,
    asked: Seq<Question>,
) -> bool {
    &&& run.ok == r is Some
    &&& run.rest == rest
    &&& run.asked == asked
    &&& r matches Some(c) ==> {
        &&& c.1 == c.0 is Some
        &&& c.0 is Some ==> run.results == Some(results_model(c.0->0))
        &&& c.0 is None ==> run.results is None
        &&& run.consumed <= text.len()
        &&& c.2@ == text.skip(run.consumed as int)
    }
}

/// What consuming that made the calls `q` and returned `r` establishes.
pub open spec fn consume_outcome<E: Fn(&mlua::Function, &CaptureResultsMap) -> bool>(
    rules: Seq<RuleModel>,
    text: Seq<char>,
    eval: E,
    r: Option<Consumed>,
    q: Seq<LogicCall>,
) -> bool {
    &&& answered_by(eval, q)
    &&& forall|rest: Seq<bool>|
        #![trigger spec_consume(rules, text, 0, 0, Seq::empty(), verdicts(q) + rest)]
        consume_agrees(
            spec_consume(rules, text, 0, 0, Seq::empty(), verdicts(q) + rest),
            text,
            r,
            rest,
            questions(q),
        )
}

/// Recording a result in a map of results and taking models commute.
pub proof fn lemma_results_model_insert(
    before: CaptureResultsMap,
    after: CaptureResultsMap,
    k: Seq<char>,
    v: CaptureResult,
)
    requires
        crate::strmap::keys_distinct(before.pairs()),
        after.pairs() == assoc_insert(before.pairs(), k, v),
    ensures
        results_model(after) == assoc_insert(results_model(before), k, v@),
{
    let pb = before.pairs();
    let pa = after.pairs();
    let mb = results_model(before);
    lemma_results_map_model(before, pb.len());
    lemma_results_map_model(after, pa.len());
    crate::strmap::lemma_insert_properties(pb, k, v);
    assert(crate::strmap::keys_distinct(mb)) by {
        assert forall|a: int, b: int| 0 <= a < mb.len() && 0 <= b < mb.len() && a != b implies mb[a].0
            != mb[b].0 by {
            assert(mb[a].0 == pb[a].0);
            assert(mb[b].0 == pb[b].0);
        }
    }
    if crate::strmap::has_key(pb, k) {
        let p = crate::strmap::key_position(pb, k);
        assert(mb[p].0 == k);
        crate::strmap::lemma_position_unique(mb, k, p);
        assert(results_model(after) =~= assoc_insert(mb, k, v@));
    } else {
        assert(!crate::strmap::has_key(mb, k)) by {
            if crate::strmap::has_key(mb, k) {
                let p = crate::strmap::key_position(mb, k);
                assert(pb[p].0 == k);
            }
        }
        assert(results_model(after) =~= assoc_insert(mb, k, v@));
    }
}

/// What holds of every result of checking `rule`: the result keeps its
/// rule, it carries data only when it is a match, and one that is not a
/// match captured nothing and carries no data.
pub open spec fn result_shape(rule: RuleModel, r: ResultModel) -> bool {
    &&& r.rule == rule
    &&& r.data is Some ==> r.is_match
    &&& !r.is_match ==> r.captured.len() == 0 && r.data is None
}

/// Once an alternative of an `Or` rule has matched, the state says so; while
/// none has, the offset has not moved.
pub proof fn lemma_or_progress(
    entries: Seq<(Seq<char>, Seq<RuleModel>)>,
    results: ResultsModel,
    text: Seq<char>,
    i: nat,
    j: nat,
    offset: nat,
    any: bool,
    tape: Seq<bool>,
)
    ensures
        any ==> spec_or(entries, results, text, i, j, offset, any, tape).any,
        !spec_or(entries, results, text, i, j, offset, any, tape).any ==> spec_or(
            entries,
            results,
            text,
            i,
            j,
            offset,
            any,
            tape,
        ).offset == offset,
    decreases entries, entries.len() - i, if i < entries.len() {
        entries[i as int].1.len() - j
    } else {
        0
    },
{
    if i >= entries.len() {
    } else if j >= entries[i as int].1.len() {
        lemma_or_progress(entries, results, text, i + 1, 0, offset, any, tape);
    } else {
        let run = spec_check(entries[i as int].1[j as int], results, text.skip(offset as int), tape);
        if run.ok && run.result.is_match {
            lemma_or_progress(
                entries,
                results,
                text,
                i,
                j + 1,
                offset + run.result.captured.len(),
                true,
                run.rest,
            );
        } else if run.ok {
            lemma_or_progress(entries, results, text, i + 1, 0, offset, any, run.rest);
        }
    }
}

/// Every result of a check that can be carried out keeps its rule, carries
/// data only when it is a match, and, when it is not a match, captured
/// nothing and carries no data.
pub proof fn lemma_check_result_shape(
    rule: RuleModel,
    results: ResultsModel,
    text: Seq<char>,
    tape: Seq<bool>,
)
    ensures
        spec_check(rule, results, text, tape).ok ==> result_shape(
            rule,
            spec_check(rule, results, text, tape).result,
        ),
{
    match rule.details {
        DetailsModel::Or { rules_map } => {
            lemma_or_progress(rules_map, results, text, 0, 0, 0, false, tape);
        },
        _ => {},
    }
}

impl Consumer {
    /// A consumer called `name` with `rules`.
    pub fn new(name: String, rules: Vec<Rule>) -> (c: Consumer)
        ensures
            c.name == name,
            c.rules == rules,
    {
        Consumer { name, rules }
    }


    /// Checks `rule` against `text`, `results` being the named results
    /// gathered so far (what `Logic` rules hand to `eval`).
    ///
    /// For some sequence of calls of `eval`, each verdict one that `eval`
    /// may give, the model reading those verdicts has the same outcome; the
    /// outcome is `None` exactly when the check reaches a pattern that does not
    /// compile, a `Recurse` or `Unknown` rule, or a `Logic` rule without a
    /// function.  What a result captures is a prefix of `text`; a result
    /// keeps its rule, carries data only when it is a match, and one that is
    /// not a match captured nothing and carries no data.
    pub fn try_check<E: Fn(&mlua::Function, &CaptureResultsMap) -> bool>(
        &self,
        rule: Rule,
        results: &CaptureResultsMap,
        text: &str,
        eval: &E,
    ) -> (r: Option<CaptureResult>)
        requires
            total_evaluator(*eval),
        ensures
            exists|q: Seq<LogicCall>|
                #[trigger] answered_by(*eval, q) && check_agrees(
                    spec_check(rule@, results_model(*results), text@, verdicts(q)),
                    r,
                    Seq::empty(),
                    questions(q),
                ),
            r matches Some(x) ==> is_prefix(x.captured@, text@),
            r matches Some(x) ==> result_shape(rule@, x@),
    {
        let ghost rule_m = rule@;
        let (r, Ghost(q)) = self.run_check(rule, results, text, eval);
        proof {
            lemma_check_result_shape(rule_m, results_model(*results), text@, verdicts(q));
            assert(verdicts(q) + Seq::<bool>::empty() =~= verdicts(q));
            assert(check_agrees(
                spec_check(rule_m, results_model(*results), text@, verdicts(q) + Seq::<bool>::empty()),
                r,
                Seq::empty(),
                questions(q),
            ));
        }
        r
    }

    /// Checks `rule` against `text` where, whatever the Lua verdicts, the
    /// check never reaches a rule that cannot be checked.  The result is the
    /// model's, for some sequence of verdicts that `eval` may give; it keeps
    /// its rule, carries data only when it is a match, and when it is not a
    /// match it captured nothing and carries no data.
    pub fn check<E: Fn(&mlua::Function, &CaptureResultsMap) -> bool>(
        &self,
        rule: Rule,
        results: &CaptureResultsMap,
        text: &str,
        eval: &E,
    ) -> (r: CaptureResult)
        requires
            total_evaluator(*eval),
            forall|tape: Seq<bool>| #[trigger] spec_check(rule@, results_model(*results), text@, tape).ok,
        ensures
            exists|q: Seq<LogicCall>|
                #[trigger] answered_by(*eval, q) && spec_check(
                    rule@,
                    results_model(*results),
                    text@,
                    verdicts(q),
                ) == (CheckRun { ok: true, result: r@, rest: Seq::empty(), asked: questions(q) }),
            is_prefix(r.captured@, text@),
            result_shape(rule@, r@),
    {
        let ghost rule_m = rule@;
        let (r, Ghost(q)) = self.run_check(rule, results, text, eval);
        proof {
            lemma_check_result_shape(rule_m, results_model(*results), text@, verdicts(q));
            assert(verdicts(q) + Seq::<bool>::empty() =~= verdicts(q));
            assert(check_agrees(
                spec_check(rule_m, results_model(*results), text@, verdicts(q) + Seq::<bool>::empty()),
                r,
                Seq::empty(),
                questions(q),
            ));
        }
        match r {
            Some(x) => x,
            None => {
                proof {
                    assert(spec_check(rule_m, results_model(*results), text@, verdicts(q)).ok);
                }
                CaptureResult::default()
            },
        }
    }

    /// Consumes `text` with the rules in order: each is checked against what
    /// the rules before it left, named results are gathered, and the first
    /// rule that does not match makes the whole fail, leaving all of `text`.
    ///
    /// For some sequence of calls of `eval` the model reading their verdicts
    /// has the same outcome; `None` exactly when a rule that cannot be checked
    /// is reached.
    pub fn try_consume<'s, E: Fn(&mlua::Function, &CaptureResultsMap) -> bool>(
        &mut self,
        text: &'s str,
        eval: &E,
    ) -> (r: Option<Consumed<'s>>)
        requires
            total_evaluator(*eval),
        ensures
            *final(self) == *old(self),
            exists|q: Seq<LogicCall>|
                #[trigger] answered_by(*eval, q) && consume_agrees(
                    spec_consume(rules_model(old(self).rules@), text@, 0, 0, Seq::empty(), verdicts(q)),
                    text@,
                    r,
                    Seq::empty(),
                    questions(q),
                ),
    {
        let (r, Ghost(q)) = self.run_consume(text, eval);
        proof {
            assert(verdicts(q) + Seq::<bool>::empty() =~= verdicts(q));
            assert(consume_agrees(
                spec_consume(rules_model(self.rules@), text@, 0, 0, Seq::empty(), verdicts(q) + Seq::<bool>::empty()),
                text@,
                r,
                Seq::empty(),
                questions(q),
            ));
        }
        r
    }

    /// Consumes `text` where, whatever the Lua verdicts, no rule that cannot
    /// be checked is reached.  Returns the named results when every rule
    /// matched, whether every rule matched, and the text left over (all of
    /// `text` when a rule did not match).
    pub fn consume<'s, E: Fn(&mlua::Function, &CaptureResultsMap) -> bool>(
        &mut self,
        text: &'s str,
        eval: &E,
    ) -> (r: Consumed<'s>)
        requires
            total_evaluator(*eval),
            forall|tape: Seq<bool>|
                #[trigger] spec_consume(rules_model(old(self).rules@), text@, 0, 0, Seq::empty(), tape).ok,
        ensures
            *final(self) == *old(self),
            exists|q: Seq<LogicCall>|
                #[trigger] answered_by(*eval, q) && consume_agrees(
                    spec_consume(rules_model(old(self).rules@), text@, 0, 0, Seq::empty(), verdicts(q)),
                    text@,
                    Some(r),
                    Seq::empty(),
                    questions(q),
                ),
    {
        let (r, Ghost(q)) = self.run_consume(text, eval);
        proof {
            assert(verdicts(q) + Seq::<bool>::empty() =~= verdicts(q));
            assert(consume_agrees(
                spec_consume(rules_model(self.rules@), text@, 0, 0, Seq::empty(), verdicts(q) + Seq::<bool>::empty()),
                text@,
                r,
                Seq::empty(),
                questions(q),
            ));
        }
        match r {
            Some(x) => x,
            None => {
                proof {
                    assert(spec_consume(rules_model(self.rules@), text@, 0, 0, Seq::empty(), verdicts(q)).ok);
                }
                (None, false, text)
            },
        }
    }
    /// Checks `rule` against `text`; `None` when the check reaches a rule
    /// that cannot be checked.  Also returns, as a ghost, the calls made of
    /// `eval`.
    fn run_check<E: Fn(&mlua::Function, &CaptureResultsMap) -> bool>(
        &self,
        rule: Rule,
        results: &CaptureResultsMap,
        text: &str,
        eval: &E,
    ) -> (out: (Option<CaptureResult>, Ghost<Seq<LogicCall>>))
        requires
            total_evaluator(*eval),
        ensures
            check_outcome(rule@, results_model(*results), text@, *eval, out.0, out.1@),
        decreases rule@,
    {
        let ghost rm = results_model(*results);
        let ghost tm = text@;
        let ghost rule_m = rule@;
        let required = rule.required;
        let n = text.unicode_len();
        let ghost base = initial_result(rule_m);
        let mut q: Ghost<Seq<LogicCall>> = Ghost(Seq::empty());
        let ghost mut expected: ResultModel = base;
        let (captured, data, is_match): (String, Option<CaptureResultData>, bool) = match &rule.details {
            RuleDetails::Single(cfg) => {
                if !crate::pattern::pattern_is_valid(cfg.pattern.as_str()) {
                    proof {
                        assert forall|rest: Seq<bool>| #![auto] check_agrees(
                            spec_check(rule_m, rm, tm, verdicts(q@) + rest),
                            None,
                            rest,
                            questions(q@),
                        ) by {
                            assert(verdicts(q@) + rest =~= rest);
                            assert(questions(q@) =~= Seq::<Question>::empty());
                        }
                    }
                    return (None, q);
                }
                let found = leading_match(cfg.pattern.as_str(), text);
                let ghost found_some = found is Some;
                let out = match found {
                    Some(m) => (m, Some(CaptureResultData::Single), true),
                    None => (String::new(), None, !required),
                };
                proof {
                    expected = ResultModel {
                        captured: out.0@,
                        data: if found_some {
                            Some(DataModel::Single)
                        } else {
                            None
                        },
                        is_match: out.2,
                        ..base
                    };
                    assert forall|rest: Seq<bool>| #[trigger] spec_check(
                        rule_m,
                        rm,
                        tm,
                        verdicts(q@) + rest,
                    ) == (CheckRun { ok: true, result: expected, rest, asked: questions(q@) }) by {
                        assert(verdicts(q@) + rest =~= rest);
                        assert(questions(q@) =~= Seq::<Question>::empty());
                        if !found_some {
                            assert(out.0@ =~= Seq::<char>::empty());
                        }
                    }
                }
                out
            },
            RuleDetails::Logic(cfg) => {
                match &cfg.func {
                    Some(f) => {
                        let v = eval(&*f.0, results);
                        proof {
                            q@ = seq![logic_call(&f.0, results, v)];
                            expected = ResultModel { is_match: v, ..base };
                            assert forall|rest: Seq<bool>| #[trigger] spec_check(
                                rule_m,
                                rm,
                                tm,
                                verdicts(q@) + rest,
                            ) == (CheckRun { ok: true, result: expected, rest, asked: questions(q@) }) by {
                                assert(verdicts(q@) + rest =~= seq![v] + rest);
                                assert(tail_verdicts(verdicts(q@) + rest) =~= rest);
                                assert(questions(q@) =~= seq![(q@[0].0, rm)]);
                            }
                        }
                        let empty = String::new();
                        proof {
                            assert(empty@ =~= base.captured);
                        }
                        (empty, None, v)
                    },
                    None => {
                        proof {
                            assert forall|rest: Seq<bool>| #![auto] check_agrees(
                                spec_check(rule_m, rm, tm, verdicts(q@) + rest),
                                None,
                                rest,
                                questions(q@),
                            ) by {
                                assert(verdicts(q@) + rest =~= rest);
                                assert(questions(q@) =~= Seq::<Question>::empty());
                            }
                        }
                        return (None, q);
                    },
                }
            },
            RuleDetails::Recurse() | RuleDetails::Unknown => {
                proof {
                    assert forall|rest: Seq<bool>| #![auto] check_agrees(
                        spec_check(rule_m, rm, tm, verdicts(q@) + rest),
                        None,
                        rest,
                        questions(q@),
                    ) by {
                        assert(verdicts(q@) + rest =~= rest);
                        assert(questions(q@) =~= Seq::<Question>::empty());
                    }
                }
                return (None, q);
            },
            RuleDetails::Or(cfg) => {
                let m = &cfg.rules_map;
                let ghost entries = or_model(*m);
                proof {
                    lemma_or_map_model(*m, m.pairs().len());
                }
                let mut sub_results: CaptureResultsMap = StrMap::new();
                let mut offset: usize = 0;
                let mut i: usize = 0;
                let mut j: usize = 0;
                let ghost mut any = false;
                while i < m.len()
                    invariant
                        total_evaluator(*eval),
                        tm == text@,
                        rm == results_model(*results),
                        base == initial_result(rule_m),
                        rule_m == rule@,
                        rule_m.details == (DetailsModel::Or { rules_map: entries }),
                        entries == or_model(*m),
                        entries.len() == m.pairs().len(),
                        forall|k: int|
                            0 <= k < entries.len() ==> #[trigger] entries[k] == (
                                m.pairs()[k].0,
                                rules_model(m.pairs()[k].1@),
                            ),
                        n == tm.len(),
                        offset <= n,
                        i <= entries.len(),
                        any == (sub_results.pairs().len() > 0),
                        answered_by(*eval, q@),
                        forall|rest: Seq<bool>|
                            #[trigger] spec_or(entries, rm, tm, 0, 0, 0, false, verdicts(q@) + rest)
                                == or_after(
                                questions(q@),
                                spec_or(entries, rm, tm, i as nat, j as nat, offset as nat, any, rest),
                            ),
                    decreases entries.len() - i, if i < entries.len() {
                        entries[i as int].1.len() - j
                    } else {
                        0
                    },
                {
                    let sub_rules = m.value_at(i);
                    proof {
                        lemma_rules_model(sub_rules@);
                    }
                    if j >= sub_rules.len() {
                        proof {
                            assert forall|rest: Seq<bool>| #[trigger] spec_or(
                                entries,
                                rm,
                                tm,
                                0,
                                0,
                                0,
                                false,
                                verdicts(q@) + rest,
                            ) == or_after(
                                questions(q@),
                                spec_or(entries, rm, tm, (i + 1) as nat, 0, offset as nat, any, rest),
                            ) by {
                                assert(spec_or(entries, rm, tm, i as nat, j as nat, offset as nat, any, rest)
                                    == spec_or(entries, rm, tm, (i + 1) as nat, 0, offset as nat, any, rest));
                            }
                        }
                        i = i + 1;
                        j = 0;
                    } else {
                        let sub = sub_rules[j].clone();
                        let rest_text = text.substring_char(offset, n);
                        let ghost sub_m = sub@;
                        let ghost rest_m = rest_text@;
                        proof {
                            assert(rest_m =~= tm.skip(offset as int));
                            assert(sub_m == entries[i as int].1[j as int]);
                            assert(decreases_to!(rule_m => sub_m)) by {
                                assert(decreases_to!(rule_m => rule_m.details));
                                assert(decreases_to!(rule_m.details => rule_m.details->Or_rules_map));
                                assert(decreases_to!(entries => entries[i as int]));
                                assert(decreases_to!(entries[i as int] => entries[i as int].1));
                                assert(decreases_to!(entries[i as int].1 => entries[i as int].1[j as int]));
                            }
                        }
                        let (sr, Ghost(qs)) = self.run_check(sub, results, rest_text, eval);
                        proof {
                            lemma_calls_concat(*eval, q@, qs);
                        }
                        match sr {
                            None => {
                                proof {
                                    assert forall|rest: Seq<bool>| #![auto] check_agrees(
                                        spec_check(rule_m, rm, tm, verdicts(q@ + qs) + rest),
                                        None,
                                        rest,
                                        questions(q@ + qs),
                                    ) by {
                                        assert(verdicts(q@ + qs) + rest =~= verdicts(q@) + (verdicts(qs) + rest));
                                        assert(check_agrees(
                                            spec_check(sub_m, rm, rest_m, verdicts(qs) + rest),
                                            None,
                                            rest,
                                            questions(qs),
                                        ));
                                        assert(spec_or(entries, rm, tm, 0, 0, 0, false, verdicts(q@) + (verdicts(qs) + rest))
                                            == or_after(questions(q@), spec_or(entries, rm, tm, i as nat, j as nat, offset as nat, any, verdicts(qs) + rest)));
                                    }
                                }
                                return (None, Ghost(q@ + qs));
                            },
                            Some(sr) => {
                                let ghost sr_m = sr@;
                                if sr.is_match {
                                    let l = sr.captured.unicode_len();
                                    let key = m.key_at(i).clone();
                                    let ghost before = sub_results.pairs();
                                    proof {
                                        use_type_invariant(&sub_results);
                                        sub_results.lemma_keys_distinct();
                                    }
                                    sub_results.insert(key, sr);
                                    proof {
                                        crate::strmap::lemma_insert_properties(
                                            before,
                                            key@,
                                            sr,
                                        );
                                        assert forall|rest: Seq<bool>| #[trigger] spec_or(
                                            entries,
                                            rm,
                                            tm,
                                            0,
                                            0,
                                            0,
                                            false,
                                            verdicts(q@ + qs) + rest,
                                        ) == or_after(
                                            questions(q@ + qs),
                                            spec_or(
                                                entries,
                                                rm,
                                                tm,
                                                i as nat,
                                                (j + 1) as nat,
                                                (offset + l) as nat,
                                                true,
                                                rest,
                                            ),
                                        ) by {
                                            assert(verdicts(q@ + qs) + rest =~= verdicts(q@) + (verdicts(qs) + rest));
                                            assert(check_agrees(
                                                spec_check(sub_m, rm, rest_m, verdicts(qs) + rest),
                                                Some(sr),
                                                rest,
                                                questions(qs),
                                            ));
                                            assert(spec_or(entries, rm, tm, 0, 0, 0, false, verdicts(q@) + (verdicts(qs) + rest))
                                                == or_after(questions(q@), spec_or(entries, rm, tm, i as nat, j as nat, offset as nat, any, verdicts(qs) + rest)));
                                            assert(questions(q@ + qs) =~= questions(q@) + questions(qs));
                                            let x = spec_or(entries, rm, tm, i as nat, (j + 1) as nat, (offset + l) as nat, true, rest).asked;
                                            assert(questions(q@ + qs) + x =~= questions(q@) + (questions(qs) + x));
                                        }
                                    }
                                    offset = offset + l;
                                    j = j + 1;
                                    proof {
                                        any = true;
                                    }
                                } else {
                                    proof {
                                        assert forall|rest: Seq<bool>| #[trigger] spec_or(
                                            entries,
                                            rm,
                                            tm,
                                            0,
                                            0,
                                            0,
                                            false,
                                            verdicts(q@ + qs) + rest,
                                        ) == or_after(
                                            questions(q@ + qs),
                                            spec_or(entries, rm, tm, (i + 1) as nat, 0, offset as nat, any, rest),
                                        ) by {
                                            assert(verdicts(q@ + qs) + rest =~= verdicts(q@) + (verdicts(qs) + rest));
                                            assert(check_agrees(
                                                spec_check(sub_m, rm, rest_m, verdicts(qs) + rest),
                                                Some(sr),
                                                rest,
                                                questions(qs),
                                            ));
                                            assert(spec_or(entries, rm, tm, 0, 0, 0, false, verdicts(q@) + (verdicts(qs) + rest))
                                                == or_after(questions(q@), spec_or(entries, rm, tm, i as nat, j as nat, offset as nat, any, verdicts(qs) + rest)));
                                            assert(questions(q@ + qs) =~= questions(q@) + questions(qs));
                                            let x = spec_or(entries, rm, tm, (i + 1) as nat, 0, offset as nat, any, rest).asked;
                                            assert(questions(q@ + qs) + x =~= questions(q@) + (questions(qs) + x));
                                        }
                                    }
                                    i = i + 1;
                                    j = 0;
                                }
                                q = Ghost(q@ + qs);
                            },
                        }
                    }
                }
                let is_match = if !sub_results.is_empty() {
                    true
                } else {
                    !required
                };
                let prefix = text.substring_char(0, offset);
                proof {
                    assert(prefix@ =~= tm.take(offset as int));
                    expected = ResultModel { captured: prefix@, is_match, ..base };
                    assert forall|rest: Seq<bool>| #[trigger] spec_check(
                        rule_m,
                        rm,
                        tm,
                        verdicts(q@) + rest,
                    ) == (CheckRun { ok: true, result: expected, rest, asked: questions(q@) }) by {
                        assert(spec_or(entries, rm, tm, 0, 0, 0, false, verdicts(q@) + rest) == or_after(
                            questions(q@),
                            spec_or(entries, rm, tm, i as nat, j as nat, offset as nat, any, rest),
                        ));
                        assert(spec_or(entries, rm, tm, i as nat, j as nat, offset as nat, any, rest)
                            == (OrRun { ok: true, offset: offset as nat, any, rest, asked: Seq::empty() }));
                        assert(questions(q@) + Seq::<Question>::empty() =~= questions(q@));
                    }
                }
                (prefix.to_owned(), None, is_match)
            },
            RuleDetails::Repeat(cfg) => {
                let rules = &cfg.rules;
                let ghost rules_m = rules_model(rules@);
                proof {
                    lemma_rules_model(rules@);
                }
                if rules.len() == 0 {
                    proof {
                        expected = ResultModel { is_match: true, ..base };
                        assert forall|rest: Seq<bool>| #[trigger] spec_check(
                            rule_m,
                            rm,
                            tm,
                            verdicts(q@) + rest,
                        ) == (CheckRun { ok: true, result: expected, rest, asked: questions(q@) }) by {
                            assert(verdicts(q@) + rest =~= rest);
                            assert(questions(q@) =~= Seq::<Question>::empty());
                        }
                    }
                    let empty = String::new();
                    proof {
                        assert(empty@ =~= base.captured);
                    }
                    (empty, None, true)
                } else {
                    let max_reps: usize = match cfg.max {
                        Some(m) => m,
                        None => usize::MAX,
                    };
                    let min_reps: usize = match cfg.min {
                        Some(m) => m,
                        None => 0,
                    };
                    let mut subs: Vec<CaptureResult> = Vec::new();
                    let mut offset: usize = 0;
                    let mut j: usize = rules.len();
                    let mut stopped = false;
                    proof {
                        assert(results_seq_model(subs@) =~= Seq::<ResultModel>::empty());
                        assert forall|rest: Seq<bool>| #[trigger] spec_repeat(
                            rules_m,
                            rm,
                            tm,
                            max_reps as nat,
                            rules_m.len(),
                            0,
                            0,
                            Seq::empty(),
                            verdicts(q@) + rest,
                        ) == repeat_after(
                            questions(q@),
                            spec_repeat(
                                rules_m,
                                rm,
                                tm,
                                max_reps as nat,
                                j as nat,
                                offset as nat,
                                subs@.len(),
                                results_seq_model(subs@),
                                rest,
                            ),
                        ) by {
                            assert(verdicts(q@) + rest =~= rest);
                            assert(questions(q@) =~= Seq::<Question>::empty());
                            let x = spec_repeat(
                                rules_m,
                                rm,
                                tm,
                                max_reps as nat,
                                j as nat,
                                offset as nat,
                                subs@.len(),
                                results_seq_model(subs@),
                                rest,
                            );
                            assert(x.asked =~= Seq::<Question>::empty() + x.asked);
                        }
                    }
                    while !stopped
                        invariant
                            total_evaluator(*eval),
                            tm == text@,
                            rm == results_model(*results),
                            base == initial_result(rule_m),
                            rule_m == rule@,
                            rule_m.details == (DetailsModel::Repeat {
                                rules: rules_m,
                                seperator: rule_m.details->seperator,
                                min: cfg.min,
                                max: cfg.max,
                            }),
                            rules_m == rules_model(rules@),
                            rules_m.len() == rules@.len(),
                            rules@.len() > 0,
                            forall|k: int|
                                0 <= k < rules@.len() ==> #[trigger] rules_m[k] == rules@[k]@,
                            n == tm.len(),
                            offset <= n,
                            j <= rules@.len(),
                            subs@.len() <= max_reps + j,
                            max_reps as nat == (match cfg.max {
                                Some(m) => m as nat,
                                None => usize::MAX as nat,
                            }),
                            answered_by(*eval, q@),
                            forall|rest: Seq<bool>|
                                #[trigger] spec_repeat(
                                    rules_m,
                                    rm,
                                    tm,
                                    max_reps as nat,
                                    rules_m.len(),
                                    0,
                                    0,
                                    Seq::empty(),
                                    verdicts(q@) + rest,
                                ) == repeat_after(
                                    questions(q@),
                                    if stopped {
                                        RepeatRun {
                                            ok: true,
                                            offset: offset as nat,
                                            reps: subs@.len(),
                                            subs: results_seq_model(subs@),
                                            rest,
                                            asked: Seq::empty(),
                                        }
                                    } else {
                                        spec_repeat(
                                            rules_m,
                                            rm,
                                            tm,
                                            max_reps as nat,
                                            j as nat,
                                            offset as nat,
                                            subs@.len(),
                                            results_seq_model(subs@),
                                            rest,
                                        )
                                    },
                                ),
                        decreases (if stopped {
                            0int
                        } else {
                            1int
                        }), max_reps + rules@.len() - subs@.len(), (if j >= rules@.len() {
                            1int
                        } else {
                            0int
                        }),
                    {
                        if j >= rules.len() {
                            if subs.len() < max_reps {
                                j = 0;
                            } else {
                                stopped = true;
                                proof {
                                    assert forall|rest: Seq<bool>| #[trigger] spec_repeat(
                                        rules_m,
                                        rm,
                                        tm,
                                        max_reps as nat,
                                        rules_m.len(),
                                        0,
                                        0,
                                        Seq::empty(),
                                        verdicts(q@) + rest,
                                    ) == repeat_after(
                                        questions(q@),
                                        RepeatRun {
                                            ok: true,
                                            offset: offset as nat,
                                            reps: subs@.len(),
                                            subs: results_seq_model(subs@),
                                            rest,
                                            asked: Seq::empty(),
                                        },
                                    ) by {
                                        assert(spec_repeat(
                                            rules_m,
                                            rm,
                                            tm,
                                            max_reps as nat,
                                            rules_m.len(),
                                            0,
                                            0,
                                            Seq::empty(),
                                            verdicts(q@) + rest,
                                        ) == repeat_after(
                                            questions(q@),
                                            spec_repeat(
                                                rules_m,
                                                rm,
                                                tm,
                                                max_reps as nat,
                                                j as nat,
                                                offset as nat,
                                                subs@.len(),
                                                results_seq_model(subs@),
                                                rest,
                                            ),
                                        ));
                                    }
                                }
                            }
                        } else {
                            let sub = rules[j].clone();
                            let rest_text = text.substring_char(offset, n);
                            let ghost sub_m = sub@;
                            let ghost rest_m = rest_text@;
                            let ghost cur_subs = subs@;
                            proof {
                                assert(rest_m =~= tm.skip(offset as int));
                                assert(sub_m == rules_m[j as int]);
                                assert(decreases_to!(rule_m => sub_m)) by {
                                    assert(decreases_to!(rule_m => rule_m.details));
                                    assert(decreases_to!(rule_m.details => rule_m.details->Repeat_rules));
                                    assert(decreases_to!(rules_m => rules_m[j as int]));
                                }
                            }
                            let (sr, Ghost(qs)) = self.run_check(sub, results, rest_text, eval);
                            proof {
                                lemma_calls_concat(*eval, q@, qs);
                            }
                            match sr {
                                None => {
                                    proof {
                                        assert forall|rest: Seq<bool>| #![auto] check_agrees(
                                            spec_check(rule_m, rm, tm, verdicts(q@ + qs) + rest),
                                            None,
                                            rest,
                                            questions(q@ + qs),
                                        ) by {
                                            assert(verdicts(q@ + qs) + rest =~= verdicts(q@) + (verdicts(qs) + rest));
                                            assert(check_agrees(
                                                spec_check(sub_m, rm, rest_m, verdicts(qs) + rest),
                                                None,
                                                rest,
                                                questions(qs),
                                            ));
                                            assert(spec_repeat(
                                                rules_m,
                                                rm,
                                                tm,
                                                max_reps as nat,
                                                rules_m.len(),
                                                0,
                                                0,
                                                Seq::empty(),
                                                verdicts(q@) + (verdicts(qs) + rest),
                                            ) == repeat_after(
                                                questions(q@),
                                                spec_repeat(
                                                    rules_m,
                                                    rm,
                                                    tm,
                                                    max_reps as nat,
                                                    j as nat,
                                                    offset as nat,
                                                    subs@.len(),
                                                    results_seq_model(subs@),
                                                    verdicts(qs) + rest,
                                                ),
                                            ));
                                        }
                                    }
                                    return (None, Ghost(q@ + qs));
                                },
                                Some(sr) => {
                                    let ghost sr_m = sr@;
                                    if sr.is_match {
                                        let l = sr.captured.unicode_len();
                                        subs.push(sr);
                                        proof {
                                            lemma_results_seq_model(subs@);
                                            lemma_results_seq_model(cur_subs);
                                            assert(results_seq_model(subs@) =~= results_seq_model(cur_subs).push(sr_m));
                                            assert forall|rest: Seq<bool>| #[trigger] spec_repeat(
                                                rules_m,
                                                rm,
                                                tm,
                                                max_reps as nat,
                                                rules_m.len(),
                                                0,
                                                0,
                                                Seq::empty(),
                                                verdicts(q@ + qs) + rest,
                                            ) == repeat_after(
                                                questions(q@ + qs),
                                                spec_repeat(
                                                    rules_m,
                                                    rm,
                                                    tm,
                                                    max_reps as nat,
                                                    (j + 1) as nat,
                                                    (offset + l) as nat,
                                                    subs@.len(),
                                                    results_seq_model(subs@),
                                                    rest,
                                                ),
                                            ) by {
                                                assert(verdicts(q@ + qs) + rest =~= verdicts(q@) + (verdicts(qs) + rest));
                                                assert(check_agrees(
                                                    spec_check(sub_m, rm, rest_m, verdicts(qs) + rest),
                                                    Some(sr),
                                                    rest,
                                                    questions(qs),
                                                ));
                                                assert(spec_repeat(
                                                    rules_m,
                                                    rm,
                                                    tm,
                                                    max_reps as nat,
                                                    rules_m.len(),
                                                    0,
                                                    0,
                                                    Seq::empty(),
                                                    verdicts(q@) + (verdicts(qs) + rest),
                                                ) == repeat_after(
                                                    questions(q@),
                                                    spec_repeat(
                                                        rules_m,
                                                        rm,
                                                        tm,
                                                        max_reps as nat,
                                                        j as nat,
                                                        offset as nat,
                                                        cur_subs.len(),
                                                        results_seq_model(cur_subs),
                                                        verdicts(qs) + rest,
                                                    ),
                                                ));
                                                let x = spec_repeat(
                                                    rules_m,
                                                    rm,
                                                    tm,
                                                    max_reps as nat,
                                                    (j + 1) as nat,
                                                    (offset + l) as nat,
                                                    subs@.len(),
                                                    results_seq_model(subs@),
                                                    rest,
                                                ).asked;
                                                assert(questions(q@ + qs) + x =~= questions(q@) + (questions(qs) + x));
                                            }
                                        }
                                        offset = offset + l;
                                        j = j + 1;
                                    } else {
                                        proof {
                                            assert forall|rest: Seq<bool>| #[trigger] spec_repeat(
                                                rules_m,
                                                rm,
                                                tm,
                                                max_reps as nat,
                                                rules_m.len(),
                                                0,
                                                0,
                                                Seq::empty(),
                                                verdicts(q@ + qs) + rest,
                                            ) == repeat_after(
                                                questions(q@ + qs),
                                                RepeatRun {
                                                    ok: true,
                                                    offset: offset as nat,
                                                    reps: subs@.len(),
                                                    subs: results_seq_model(subs@),
                                                    rest,
                                                    asked: Seq::empty(),
                                                },
                                            ) by {
                                                assert(verdicts(q@ + qs) + rest =~= verdicts(q@) + (verdicts(qs) + rest));
                                                assert(check_agrees(
                                                    spec_check(sub_m, rm, rest_m, verdicts(qs) + rest),
                                                    Some(sr),
                                                    rest,
                                                    questions(qs),
                                                ));
                                                assert(spec_repeat(
                                                    rules_m,
                                                    rm,
                                                    tm,
                                                    max_reps as nat,
                                                    rules_m.len(),
                                                    0,
                                                    0,
                                                    Seq::empty(),
                                                    verdicts(q@) + (verdicts(qs) + rest),
                                                ) == repeat_after(
                                                    questions(q@),
                                                    spec_repeat(
                                                        rules_m,
                                                        rm,
                                                        tm,
                                                        max_reps as nat,
                                                        j as nat,
                                                        offset as nat,
                                                        subs@.len(),
                                                        results_seq_model(subs@),
                                                        verdicts(qs) + rest,
                                                    ),
                                                ));
                                                assert(questions(q@ + qs) + Seq::<Question>::empty() =~= questions(q@) + questions(qs));
                                            }
                                        }
                                        stopped = true;
                                    }
                                    q = Ghost(q@ + qs);
                                },
                            }
                        }
                    }
                    let reps = subs.len();
                    if reps >= min_reps {
                        let prefix = text.substring_char(0, offset);
                        proof {
                            assert(prefix@ =~= tm.take(offset as int));
                            expected = ResultModel {
                                data: Some(DataModel::Repeat(results_seq_model(subs@))),
                                is_match: true,
                                captured: prefix@,
                                ..base
                            };
                            assert forall|rest: Seq<bool>| #[trigger] spec_check(
                                rule_m,
                                rm,
                                tm,
                                verdicts(q@) + rest,
                            ) == (CheckRun { ok: true, result: expected, rest, asked: questions(q@) }) by {
                                assert(spec_repeat(
                                    rules_m,
                                    rm,
                                    tm,
                                    max_reps as nat,
                                    rules_m.len(),
                                    0,
                                    0,
                                    Seq::empty(),
                                    verdicts(q@) + rest,
                                ) == repeat_after(
                                    questions(q@),
                                    RepeatRun {
                                        ok: true,
                                        offset: offset as nat,
                                        reps: subs@.len(),
                                        subs: results_seq_model(subs@),
                                        rest,
                                        asked: Seq::empty(),
                                    },
                                ));
                                assert(questions(q@) + Seq::<Question>::empty() =~= questions(q@));
                            }
                        }
                        (prefix.to_owned(), Some(CaptureResultData::Repeat(subs)), true)
                    } else {
                        proof {
                            expected = base;
                            assert forall|rest: Seq<bool>| #[trigger] spec_check(
                                rule_m,
                                rm,
                                tm,
                                verdicts(q@) + rest,
                            ) == (CheckRun { ok: true, result: expected, rest, asked: questions(q@) }) by {
                                assert(spec_repeat(
                                    rules_m,
                                    rm,
                                    tm,
                                    max_reps as nat,
                                    rules_m.len(),
                                    0,
                                    0,
                                    Seq::empty(),
                                    verdicts(q@) + rest,
                                ) == repeat_after(
                                    questions(q@),
                                    RepeatRun {
                                        ok: true,
                                        offset: offset as nat,
                                        reps: subs@.len(),
                                        subs: results_seq_model(subs@),
                                        rest,
                                        asked: Seq::empty(),
                                    },
                                ));
                                assert(questions(q@) + Seq::<Question>::empty() =~= questions(q@));
                            }
                        }
                        let empty = String::new();
                        proof {
                            assert(empty@ =~= base.captured);
                        }
                        (empty, None, !required)
                    }
                }
            },
            RuleDetails::Child(cfg) => {
                let child_consumer = cfg.child.0.create_consumer();
                let ghost child_rules = rules_model(child_consumer.rules@);
                proof {
                    assert(decreases_to!(rule_m => child_rules)) by {
                        assert(decreases_to!(rule_m => rule_m.details));
                        assert(decreases_to!(rule_m.details => rule_m.details->Child_child));
                        assert(decreases_to!(rule_m.details->Child_child => rule_m.details->Child_child.rules));
                    }
                }
                let (outcome, Ghost(qc)) = child_consumer.run_consume(text, eval);
                proof {
                    q@ = qc;
                    assert(consume_agrees(
                        spec_consume(child_rules, tm, 0, 0, Seq::empty(), verdicts(q@) + Seq::<bool>::empty()),
                        tm,
                        outcome,
                        Seq::<bool>::empty(),
                        questions(q@),
                    ));
                }
                match outcome {
                    None => {
                        proof {
                            assert forall|rest: Seq<bool>| #![auto] check_agrees(
                                spec_check(rule_m, rm, tm, verdicts(q@) + rest),
                                None,
                                rest,
                                questions(q@),
                            ) by {
                                assert(consume_agrees(
                                    spec_consume(child_rules, tm, 0, 0, Seq::empty(), verdicts(q@) + rest),
                                    tm,
                                    None,
                                    rest,
                                    questions(q@),
                                ));
                            }
                        }
                        return (None, q);
                    },
                    Some((found, _all_matched, remaining)) => {
                        let ghost found_model = opt_results_model(&found);
                        let ghost rem_m = remaining@;
                        let out = match found {
                            Some(map) => {
                                let rem_len = remaining.unicode_len();
                                let captured_len = n - rem_len;
                                let prefix = text.substring_char(0, captured_len);
                                proof {
                                    assert(prefix@ =~= tm.take(captured_len as int));
                                }
                                (prefix.to_owned(), Some(CaptureResultData::Child(map)), true)
                            },
                            None => (String::new(), None, true),
                        };
                        proof {
                            expected = ResultModel {
                                captured: out.0@,
                                is_match: true,
                                data: match found_model {
                                    Some(mm) => Some(DataModel::Child(mm)),
                                    None => None,
                                },
                                ..base
                            };
                            if found_model is None {
                                assert(out.0@ =~= Seq::<char>::empty());
                            }
                            assert forall|rest: Seq<bool>| #[trigger] spec_check(
                                rule_m,
                                rm,
                                tm,
                                verdicts(q@) + rest,
                            ) == (CheckRun { ok: true, result: expected, rest, asked: questions(q@) }) by {
                                let c = spec_consume(child_rules, tm, 0, 0, Seq::empty(), verdicts(q@) + rest);
                                assert(consume_agrees(c, tm, outcome, rest, questions(q@)));
                                if found_model is Some {
                                    assert(rem_m.len() == tm.len() - c.consumed);
                                }
                            }
                        }
                        out
                    },
                }
            },
        };
        let r = CaptureResult { rule, captured, data, is_match };
        proof {
            assert(r@ == expected);
            if r.captured@.len() == 0 {
                assert(r.captured@ =~= tm.take(0));
            }
            assert forall|rest: Seq<bool>| #![auto] check_agrees(
                spec_check(rule_m, rm, tm, verdicts(q@) + rest),
                Some(r),
                rest,
                questions(q@),
            ) by {
                assert(spec_check(rule_m, rm, tm, verdicts(q@) + rest) == (CheckRun {
                    ok: true,
                    result: expected,
                    rest,
                    asked: questions(q@),
                }));
            }
        }
        (Some(r), q)
    }

    /// Consumes `text` with this consumer's rules; `None` when a rule that
    /// cannot be checked is reached.  Also returns, as a ghost, the calls made
    /// of `eval`.
    pub(crate) fn run_consume<'s, E: Fn(&mlua::Function, &CaptureResultsMap) -> bool>(
        &self,
        text: &'s str,
        eval: &E,
    ) -> (out: (Option<Consumed<'s>>, Ghost<Seq<LogicCall>>))
        requires
            total_evaluator(*eval),
        ensures
            consume_outcome(rules_model(self.rules@), text@, *eval, out.0, out.1@),
        decreases rules_model(self.rules@),
    {
        let ghost rules_m = rules_model(self.rules@);
        let ghost tm = text@;
        proof {
            lemma_rules_model(self.rules@);
        }
        let n = text.unicode_len();
        let mut offset: usize = 0;
        let mut results: CaptureResultsMap = StrMap::new();
        let mut index: usize = 0;
        let mut q: Ghost<Seq<LogicCall>> = Ghost(Seq::empty());
        proof {
            lemma_results_map_model(results, 0);
            assert(results_model(results) =~= Seq::<(Seq<char>, ResultModel)>::empty());
            assert forall|rest: Seq<bool>| #[trigger] spec_consume(
                rules_m,
                tm,
                0,
                0,
                Seq::empty(),
                verdicts(q@) + rest,
            ) == consume_after(
                questions(q@),
                spec_consume(rules_m, tm, index as nat, offset as nat, results_model(results), rest),
            ) by {
                assert(verdicts(q@) + rest =~= rest);
                assert(questions(q@) =~= Seq::<Question>::empty());
                let x = spec_consume(rules_m, tm, index as nat, offset as nat, results_model(results), rest);
                assert(x.asked =~= Seq::<Question>::empty() + x.asked);
            }
        }
        while index < self.rules.len()
            invariant
                total_evaluator(*eval),
                tm == text@,
                rules_m == rules_model(self.rules@),
                rules_m.len() == self.rules@.len(),
                forall|k: int| 0 <= k < self.rules@.len() ==> #[trigger] rules_m[k] == self.rules@[k]@,
                n == tm.len(),
                offset <= n,
                index <= self.rules@.len(),
                answered_by(*eval, q@),
                forall|rest: Seq<bool>|
                    #[trigger] spec_consume(rules_m, tm, 0, 0, Seq::empty(), verdicts(q@) + rest)
                        == consume_after(
                        questions(q@),
                        spec_consume(rules_m, tm, index as nat, offset as nat, results_model(results), rest),
                    ),
            decreases self.rules@.len() - index,
        {
            let rule = self.rules[index].clone();
            let remaining = text.substring_char(offset, n);
            let ghost rule_m = rule@;
            let ghost rem_m = remaining@;
            let ghost rs_m = results_model(results);
            proof {
                assert(rem_m =~= tm.skip(offset as int));
                assert(decreases_to!(rules_m => rules_m[index as int]));
            }
            let (r, Ghost(qs)) = self.run_check(rule, &results, remaining, eval);
            proof {
                lemma_calls_concat(*eval, q@, qs);
            }
            match r {
                None => {
                    proof {
                        assert forall|rest: Seq<bool>| #![auto] consume_agrees(
                            spec_consume(rules_m, tm, 0, 0, Seq::empty(), verdicts(q@ + qs) + rest),
                            tm,
                            None,
                            rest,
                            questions(q@ + qs),
                        ) by {
                            assert(verdicts(q@ + qs) + rest =~= verdicts(q@) + (verdicts(qs) + rest));
                            assert(check_agrees(
                                spec_check(rule_m, rs_m, rem_m, verdicts(qs) + rest),
                                None,
                                rest,
                                questions(qs),
                            ));
                            assert(spec_consume(rules_m, tm, 0, 0, Seq::empty(), verdicts(q@) + (verdicts(qs) + rest))
                                == consume_after(
                                questions(q@),
                                spec_consume(rules_m, tm, index as nat, offset as nat, rs_m, verdicts(qs) + rest),
                            ));
                        }
                    }
                    return (None, Ghost(q@ + qs));
                },
                Some(result) => {
                    if !result.is_match {
                        proof {
                            assert forall|rest: Seq<bool>| #![auto] consume_agrees(
                                spec_consume(rules_m, tm, 0, 0, Seq::empty(), verdicts(q@ + qs) + rest),
                                tm,
                                Some((None, false, text)),
                                rest,
                                questions(q@ + qs),
                            ) by {
                                assert(verdicts(q@ + qs) + rest =~= verdicts(q@) + (verdicts(qs) + rest));
                                assert(check_agrees(
                                    spec_check(rule_m, rs_m, rem_m, verdicts(qs) + rest),
                                    Some(result),
                                    rest,
                                    questions(qs),
                                ));
                                assert(spec_consume(rules_m, tm, 0, 0, Seq::empty(), verdicts(q@) + (verdicts(qs) + rest))
                                    == consume_after(
                                    questions(q@),
                                    spec_consume(rules_m, tm, index as nat, offset as nat, rs_m, verdicts(qs) + rest),
                                ));
                                assert(tm.skip(0) =~= tm);
                            }
                        }
                        return (Some((None, false, text)), Ghost(q@ + qs));
                    }
                    let ghost res_m = result@;
                    let l = result.captured.unicode_len();
                    let key = crate::lexer::capture::clone_opt_string(&result.rule.name);
                    proof {
                        use_type_invariant(&results);
                        results.lemma_keys_distinct();
                    }
                    let ghost before = results;
                    match key {
                        Some(k) => {
                            results.insert(k, result);
                            proof {
                                lemma_results_model_insert(before, results, k@, result);
                            }
                        },
                        None => {},
                    }
                    proof {
                        assert(results_model(results) == record_result(rs_m, res_m));
                        assert forall|rest: Seq<bool>| #[trigger] spec_consume(
                            rules_m,
                            tm,
                            0,
                            0,
                            Seq::empty(),
                            verdicts(q@ + qs) + rest,
                        ) == consume_after(
                            questions(q@ + qs),
                            spec_consume(
                                rules_m,
                                tm,
                                (index + 1) as nat,
                                (offset + l) as nat,
                                results_model(results),
                                rest,
                            ),
                        ) by {
                            assert(verdicts(q@ + qs) + rest =~= verdicts(q@) + (verdicts(qs) + rest));
                            assert(check_agrees(
                                spec_check(rule_m, rs_m, rem_m, verdicts(qs) + rest),
                                Some(result),
                                rest,
                                questions(qs),
                            ));
                            assert(spec_consume(rules_m, tm, 0, 0, Seq::empty(), verdicts(q@) + (verdicts(qs) + rest))
                                == consume_after(
                                questions(q@),
                                spec_consume(rules_m, tm, index as nat, offset as nat, rs_m, verdicts(qs) + rest),
                            ));
                            let x = spec_consume(
                                rules_m,
                                tm,
                                (index + 1) as nat,
                                (offset + l) as nat,
                                results_model(results),
                                rest,
                            ).asked;
                            assert(questions(q@ + qs) + x =~= questions(q@) + (questions(qs) + x));
                        }
                    }
                    offset = offset + l;
                    index = index + 1;
                    q = Ghost(q@ + qs);
                },
            }
        }
        let remaining = text.substring_char(offset, n);
        proof {
            assert(remaining@ =~= tm.skip(offset as int));
            assert forall|rest: Seq<bool>| #![auto] consume_agrees(
                spec_consume(rules_m, tm, 0, 0, Seq::empty(), verdicts(q@) + rest),
                tm,
                Some((Some(results), true, remaining)),
                rest,
                questions(q@),
            ) by {
                assert(spec_consume(rules_m, tm, 0, 0, Seq::empty(), verdicts(q@) + rest) == consume_after(
                    questions(q@),
                    spec_consume(rules_m, tm, index as nat, offset as nat, results_model(results), rest),
                ));
                assert(questions(q@) + Seq::<Question>::empty() =~= questions(q@));
            }
        }
        (Some((Some(results), true, remaining)), q)
    }

}

// ---------------------------------------------------------------------------
// Rules that ask Lua nothing
/// Every rule of `rs` is free of `Logic` rules.
pub open spec fn rules_logic_free(rs: Seq<RuleModel>) -> bool
    decreases rs, 0nat,
{
    if rs.len() == 0 {
        true
    } else {
        rules_logic_free(rs.drop_last()) && logic_free(rs[rs.len() - 1])
    }
}

/// Every alternative of `es` is free of `Logic` rules.
pub open spec fn entries_logic_free(es: Seq<(Seq<char>, Seq<RuleModel>)>) -> bool
    decreases es, 0nat,
{
    if es.len() == 0 {
        true
    } else {
        entries_logic_free(es.drop_last()) && rules_logic_free(es[es.len() - 1].1)
    }
}

/// `r` holds no `Logic` rule, at any depth (a `Child` rule's chain
/// included).
pub open spec fn logic_free(r: RuleModel) -> bool
    decreases r, 0nat,
{
    match r.details {
        DetailsModel::Or { rules_map } => entries_logic_free(rules_map),
        DetailsModel::Repeat { rules, .. } => rules_logic_free(rules),
        DetailsModel::Child { child } => rules_logic_free(child.rules),
        DetailsModel::Logic { .. } => false,
        _ => true,
    }
}

/// A sequence is free of `Logic` rules exactly when each of its rules is.
pub proof fn lemma_rules_logic_free(rs: Seq<RuleModel>)
    ensures
        rules_logic_free(rs) <==> forall|i: int| 0 <= i < rs.len() ==> #[trigger] logic_free(rs[i]),
    decreases rs.len(),
{
    if rs.len() > 0 {
        let front = rs.drop_last();
        lemma_rules_logic_free(front);
        assert forall|i: int| 0 <= i < front.len() implies front[i] == rs[i] by {}
        if rules_logic_free(rs) {
            assert forall|i: int| 0 <= i < rs.len() implies #[trigger] logic_free(rs[i]) by {
                if i < rs.len() - 1 {
                    assert(logic_free(front[i]));
                }
            }
        }
        if forall|i: int| 0 <= i < rs.len() ==> #[trigger] logic_free(rs[i]) {
            assert(logic_free(rs[rs.len() - 1]));
            assert forall|i: int| 0 <= i < front.len() implies #[trigger] logic_free(front[i]) by {
                assert(logic_free(rs[i]));
            }
            assert(rules_logic_free(front));
        }
    }
}

/// Alternatives are free of `Logic` rules exactly when each one's rules are.
pub proof fn lemma_entries_logic_free(es: Seq<(Seq<char>, Seq<RuleModel>)>)
    ensures
        entries_logic_free(es) <==> forall|i: int| 0 <= i < es.len() ==> #[trigger] rules_logic_free(es[i].1),
    decreases es.len(),
{
    if es.len() > 0 {
        let front = es.drop_last();
        lemma_entries_logic_free(front);
        assert forall|i: int| 0 <= i < front.len() implies front[i] == es[i] by {}
        if entries_logic_free(es) {
            assert forall|i: int| 0 <= i < es.len() implies #[trigger] rules_logic_free(es[i].1) by {
                if i < es.len() - 1 {
                    assert(rules_logic_free(front[i].1));
                }
            }
        }
        if forall|i: int| 0 <= i < es.len() ==> #[trigger] rules_logic_free(es[i].1) {
            assert(rules_logic_free(es[es.len() - 1].1));
            assert forall|i: int| 0 <= i < front.len() implies #[trigger] rules_logic_free(front[i].1) by {
                assert(rules_logic_free(es[i].1));
            }
            assert(entries_logic_free(front));
        }
    }
}

/// Checking a rule that holds no `Logic` rule asks Lua nothing: whatever
/// the verdicts on the tape, the check reads none of them and has the same
/// outcome.
pub proof fn lemma_check_without_logic(
    rule: RuleModel,
    results: ResultsModel,
    text: Seq<char>,
    tape: Seq<bool>,
)
    requires
        logic_free(rule),
    ensures
        spec_check(rule, results, text, tape) == (CheckRun {
            rest: tape,
            ..spec_check(rule, results, text, Seq::empty())
        }),
        spec_check(rule, results, text, tape).asked == Seq::<Question>::empty(),
    decreases rule, 0nat, 0nat,
{
    match rule.details {
        DetailsModel::Or { rules_map } => {
            lemma_or_without_logic(rules_map, results, text, 0, 0, 0, false, tape);
        },
        DetailsModel::Repeat { rules, seperator, min, max } => {
            if rules.len() > 0 {
                let max_reps: nat = match max {
                    Some(m) => m as nat,
                    None => usize::MAX as nat,
                };
                lemma_repeat_without_logic(rules, results, text, max_reps, rules.len(), 0, 0, Seq::empty(), tape);
            }
        },
        DetailsModel::Child { child } => {
            lemma_consume_without_logic(child.rules, text, 0, 0, Seq::empty(), tape);
        },
        _ => {},
    }
}

/// The alternatives of an `Or` rule without `Logic` rules ask Lua nothing.
pub proof fn lemma_or_without_logic(
    entries: Seq<(Seq<char>, Seq<RuleModel>)>,
    results: ResultsModel,
    text: Seq<char>,
    i: nat,
    j: nat,
    offset: nat,
    any: bool,
    tape: Seq<bool>,
)
    requires
        entries_logic_free(entries),
    ensures
        spec_or(entries, results, text, i, j, offset, any, tape) == (OrRun {
            rest: tape,
            ..spec_or(entries, results, text, i, j, offset, any, Seq::empty())
        }),
        spec_or(entries, results, text, i, j, offset, any, tape).asked == Seq::<Question>::empty(),
    decreases entries, entries.len() - i, if i < entries.len() {
        entries[i as int].1.len() - j
    } else {
        0
    },
{
    if i >= entries.len() {
    } else if j >= entries[i as int].1.len() {
        lemma_or_without_logic(entries, results, text, i + 1, 0, offset, any, tape);
    } else {
        let sub = entries[i as int].1[j as int];
        lemma_entries_logic_free(entries);
        lemma_rules_logic_free(entries[i as int].1);
        assert(logic_free(sub));
        lemma_check_without_logic(sub, results, text.skip(offset as int), tape);
        lemma_check_without_logic(sub, results, text.skip(offset as int), Seq::empty());
        let run = spec_check(sub, results, text.skip(offset as int), tape);
        if run.ok && run.result.is_match {
            let next = (offset + run.result.captured.len()) as nat;
            lemma_or_without_logic(entries, results, text, i, j + 1, next, true, tape);
            lemma_or_without_logic(entries, results, text, i, j + 1, next, true, Seq::empty());
            let x = spec_or(entries, results, text, i, j + 1, next, true, tape);
            let y = spec_or(entries, results, text, i, j + 1, next, true, Seq::empty());
            assert(Seq::<Question>::empty() + x.asked =~= x.asked);
            assert(Seq::<Question>::empty() + y.asked =~= y.asked);
        } else if run.ok {
            lemma_or_without_logic(entries, results, text, i + 1, 0, offset, any, tape);
            lemma_or_without_logic(entries, results, text, i + 1, 0, offset, any, Seq::empty());
            let x = spec_or(entries, results, text, i + 1, 0, offset, any, tape);
            let y = spec_or(entries, results, text, i + 1, 0, offset, any, Seq::empty());
            assert(Seq::<Question>::empty() + x.asked =~= x.asked);
            assert(Seq::<Question>::empty() + y.asked =~= y.asked);
        }
    }
}

/// The repetitions of a `Repeat` rule without `Logic` rules ask Lua
/// nothing.
pub proof fn lemma_repeat_without_logic(
    rules: Seq<RuleModel>,
    results: ResultsModel,
    text: Seq<char>,
    max_reps: nat,
    j: nat,
    offset: nat,
    reps: nat,
    subs: Seq<ResultModel>,
    tape: Seq<bool>,
)
    requires
        rules_logic_free(rules),
    ensures
        spec_repeat(rules, results, text, max_reps, j, offset, reps, subs, tape) == (RepeatRun {
            rest: tape,
            ..spec_repeat(rules, results, text, max_reps, j, offset, reps, subs, Seq::empty())
        }),
        spec_repeat(rules, results, text, max_reps, j, offset, reps, subs, tape).asked == Seq::<
            Question,
        >::empty(),
    decreases rules, max_reps + rules.len() - reps, if j >= rules.len() {
        1nat
    } else {
        0nat
    },
{
    if j >= rules.len() {
        if reps < max_reps && rules.len() > 0 {
            lemma_repeat_without_logic(rules, results, text, max_reps, 0, offset, reps, subs, tape);
        }
    } else if reps >= max_reps + rules.len() {
    } else {
        lemma_rules_logic_free(rules);
        lemma_check_without_logic(rules[j as int], results, text.skip(offset as int), tape);
        lemma_check_without_logic(rules[j as int], results, text.skip(offset as int), Seq::empty());
        let run = spec_check(rules[j as int], results, text.skip(offset as int), tape);
        if run.ok && run.result.is_match {
            let next = (offset + run.result.captured.len()) as nat;
            let more = subs.push(run.result);
            lemma_repeat_without_logic(rules, results, text, max_reps, j + 1, next, reps + 1, more, tape);
            lemma_repeat_without_logic(
                rules,
                results,
                text,
                max_reps,
                j + 1,
                next,
                reps + 1,
                more,
                Seq::empty(),
            );
            let x = spec_repeat(rules, results, text, max_reps, j + 1, next, reps + 1, more, tape);
            let y = spec_repeat(rules, results, text, max_reps, j + 1, next, reps + 1, more, Seq::empty());
            assert(Seq::<Question>::empty() + x.asked =~= x.asked);
            assert(Seq::<Question>::empty() + y.asked =~= y.asked);
        }
    }
}

/// Consuming with rules that hold no `Logic` rule asks Lua nothing:
/// whatever the verdicts on the tape, the outcome is the same.
pub proof fn lemma_consume_without_logic(
    rules: Seq<RuleModel>,
    text: Seq<char>,
    idx: nat,
    offset: nat,
    results: ResultsModel,
    tape: Seq<bool>,
)
    requires
        rules_logic_free(rules),
    ensures
        spec_consume(rules, text, idx, offset, results, tape) == (ConsumeRun {
            rest: tape,
            ..spec_consume(rules, text, idx, offset, results, Seq::empty())
        }),
        spec_consume(rules, text, idx, offset, results, tape).asked == Seq::<Question>::empty(),
    decreases rules, rules.len() - idx, 0nat,
{
    if idx < rules.len() {
        lemma_rules_logic_free(rules);
        lemma_check_without_logic(rules[idx as int], results, text.skip(offset as int), tape);
        lemma_check_without_logic(rules[idx as int], results, text.skip(offset as int), Seq::empty());
        let run = spec_check(rules[idx as int], results, text.skip(offset as int), tape);
        if run.ok && run.result.is_match {
            let next = (offset + run.result.captured.len()) as nat;
            let gathered = record_result(results, run.result);
            lemma_consume_without_logic(rules, text, idx + 1, next, gathered, tape);
            lemma_consume_without_logic(rules, text, idx + 1, next, gathered, Seq::empty());
            let x = spec_consume(rules, text, idx + 1, next, gathered, tape);
            let y = spec_consume(rules, text, idx + 1, next, gathered, Seq::empty());
            assert(Seq::<Question>::empty() + x.asked =~= x.asked);
            assert(Seq::<Question>::empty() + y.asked =~= y.asked);
        }
    }
}

// ---------------------------------------------------------------------------
// What checking captures
/// The texts captured by `subs`, joined first to last.
pub open spec fn captured_in_order(subs: Seq<ResultModel>) -> Seq<char>
    decreases subs.len(),
{
    if subs.len() == 0 {
        Seq::empty()
    } else {
        captured_in_order(subs.drop_last()) + subs[subs.len() - 1].captured
    }
}

/// The first `n` characters of a text are a prefix of it.
pub proof fn lemma_take_is_prefix(text: Seq<char>, n: int)
    requires
        0 <= n <= text.len(),
    ensures
        is_prefix(text.take(n), text),
{
    assert(text.take(n).len() == n);
    assert(text.take(n) =~= text.take(text.take(n).len() as int));
}

/// A prefix of what is left after `offset` characters extends the first
/// `offset` characters to a longer prefix.
pub proof fn lemma_prefix_after(text: Seq<char>, offset: int, c: Seq<char>)
    requires
        0 <= offset <= text.len(),
        is_prefix(c, text.skip(offset)),
    ensures
        offset + c.len() <= text.len(),
        text.take(offset) + c == text.take(offset + c.len()),
{
    assert(text.take(offset) + c =~= text.take(offset + c.len()));
}

/// What a check captures is always a prefix of the text it was checked
/// against.
pub proof fn lemma_check_captures_prefix(
    rule: RuleModel,
    results: ResultsModel,
    text: Seq<char>,
    tape: Seq<bool>,
)
    ensures
        is_prefix(spec_check(rule, results, text, tape).result.captured, text),
    decreases rule, 0nat, 0nat,
{
    lemma_take_is_prefix(text, 0);
    assert(text.take(0) =~= Seq::<char>::empty());
    match rule.details {
        DetailsModel::Or { rules_map } => {
            lemma_or_offset_bound(rules_map, results, text, 0, 0, 0, false, tape);
            let o = spec_or(rules_map, results, text, 0, 0, 0, false, tape);
            lemma_take_is_prefix(text, o.offset as int);
        },
        DetailsModel::Repeat { rules, seperator, min, max } => {
            if rules.len() > 0 {
                let max_reps: nat = match max {
                    Some(m) => m as nat,
                    None => usize::MAX as nat,
                };
                assert(captured_in_order(Seq::<ResultModel>::empty()) =~= text.take(0));
                lemma_repeat_in_order(rules, results, text, max_reps, rules.len(), 0, 0, Seq::empty(), tape);
                let p = spec_repeat(rules, results, text, max_reps, rules.len(), 0, 0, Seq::empty(), tape);
                lemma_take_is_prefix(text, p.offset as int);
            }
        },
        DetailsModel::Child { child } => {
            lemma_consume_bound(child.rules, text, 0, 0, Seq::empty(), tape);
            let c = spec_consume(child.rules, text, 0, 0, Seq::empty(), tape);
            lemma_take_is_prefix(text, c.consumed as int);
        },
        _ => {},
    }
}

/// The alternatives of an `Or` rule never move past the end of the text.
pub proof fn lemma_or_offset_bound(
    entries: Seq<(Seq<char>, Seq<RuleModel>)>,
    results: ResultsModel,
    text: Seq<char>,
    i: nat,
    j: nat,
    offset: nat,
    any: bool,
    tape: Seq<bool>,
)
    requires
        offset <= text.len(),
    ensures
        spec_or(entries, results, text, i, j, offset, any, tape).offset <= text.len(),
    decreases entries, entries.len() - i, if i < entries.len() {
        entries[i as int].1.len() - j
    } else {
        0
    },
{
    if i >= entries.len() {
    } else if j >= entries[i as int].1.len() {
        lemma_or_offset_bound(entries, results, text, i + 1, 0, offset, any, tape);
    } else {
        let sub = entries[i as int].1[j as int];
        let run = spec_check(sub, results, text.skip(offset as int), tape);
        if run.ok && run.result.is_match {
            lemma_check_captures_prefix(sub, results, text.skip(offset as int), tape);
            lemma_prefix_after(text, offset as int, run.result.captured);
            lemma_or_offset_bound(
                entries,
                results,
                text,
                i,
                j + 1,
                offset + run.result.captured.len(),
                true,
                run.rest,
            );
        } else if run.ok {
            lemma_or_offset_bound(entries, results, text, i + 1, 0, offset, any, run.rest);
        }
    }
}

/// The repetitions of a `Repeat` rule follow one another in the text: what
/// they captured, joined in the order they are recorded, is exactly the text
/// up to where the repetitions ended.
pub proof fn lemma_repeat_in_order(
    rules: Seq<RuleModel>,
    results: ResultsModel,
    text: Seq<char>,
    max_reps: nat,
    j: nat,
    offset: nat,
    reps: nat,
    subs: Seq<ResultModel>,
    tape: Seq<bool>,
)
    requires
        offset <= text.len(),
        captured_in_order(subs) == text.take(offset as int),
    ensures
        spec_repeat(rules, results, text, max_reps, j, offset, reps, subs, tape).offset <= text.len(),
        captured_in_order(spec_repeat(rules, results, text, max_reps, j, offset, reps, subs, tape).subs)
            == text.take(spec_repeat(rules, results, text, max_reps, j, offset, reps, subs, tape).offset as int),
    decreases rules, max_reps + rules.len() - reps, if j >= rules.len() {
        1nat
    } else {
        0nat
    },
{
    if j >= rules.len() {
        if reps < max_reps && rules.len() > 0 {
            lemma_repeat_in_order(rules, results, text, max_reps, 0, offset, reps, subs, tape);
        }
    } else if reps >= max_reps + rules.len() {
    } else {
        let run = spec_check(rules[j as int], results, text.skip(offset as int), tape);
        if run.ok && run.result.is_match {
            lemma_check_captures_prefix(rules[j as int], results, text.skip(offset as int), tape);
            lemma_prefix_after(text, offset as int, run.result.captured);
            let more = subs.push(run.result);
            assert(more.drop_last() =~= subs);
            lemma_repeat_in_order(
                rules,
                results,
                text,
                max_reps,
                j + 1,
                offset + run.result.captured.len(),
                reps + 1,
                more,
                run.rest,
            );
        }
    }
}

/// Consuming never consumes more than the text.
pub proof fn lemma_consume_bound(
    rules: Seq<RuleModel>,
    text: Seq<char>,
    idx: nat,
    offset: nat,
    results: ResultsModel,
    tape: Seq<bool>,
)
    requires
        offset <= text.len(),
    ensures
        spec_consume(rules, text, idx, offset, results, tape).consumed <= text.len(),
    decreases rules, rules.len() - idx, 0nat,
{
    if idx < rules.len() {
        let run = spec_check(rules[idx as int], results, text.skip(offset as int), tape);
        if run.ok && run.result.is_match {
            lemma_check_captures_prefix(rules[idx as int], results, text.skip(offset as int), tape);
            lemma_prefix_after(text, offset as int, run.result.captured);
            lemma_consume_bound(
                rules,
                text,
                idx + 1,
                offset + run.result.captured.len(),
                record_result(results, run.result),
                run.rest,
            );
        }
    }
}

/// The repetitions a `Repeat` match records are in text order: what they
/// captured, joined first to last, is exactly what the match captured (each
/// repetition starts where the one before it ended).
pub proof fn lemma_repetitions_in_text_order(
    rule: RuleModel,
    results: ResultsModel,
    text: Seq<char>,
    tape: Seq<bool>,
)
    ensures
        spec_check(rule, results, text, tape).result.data matches Some(DataModel::Repeat(subs))
            ==> captured_in_order(subs) == spec_check(rule, results, text, tape).result.captured,
{
    match rule.details {
        DetailsModel::Repeat { rules, seperator, min, max } => {
            if rules.len() > 0 {
                let max_reps: nat = match max {
                    Some(m) => m as nat,
                    None => usize::MAX as nat,
                };
                assert(captured_in_order(Seq::<ResultModel>::empty()) =~= text.take(0));
                lemma_repeat_in_order(rules, results, text, max_reps, rules.len(), 0, 0, Seq::empty(), tape);
            }
        },
        _ => {},
    }
}

// ---------------------------------------------------------------------------
// What each kind of rule does
/// A `Single` rule whose pattern compiles is a match exactly when its pattern
/// matches at the very start of the text, and then it captures exactly that
/// match, even when the match is empty; otherwise it captures nothing and is
/// a match only when it is not required.
pub proof fn lemma_single_takes_the_leading_match(
    rule: RuleModel,
    results: ResultsModel,
    text: Seq<char>,
    tape: Seq<bool>,
)
    requires
        rule.details matches DetailsModel::Single { pattern } && regex_compiles(pattern),
    ensures
        spec_check(rule, results, text, tape).ok,
        spec_check(rule, results, text, tape).rest == tape,
        match match_at_start(rule.details->Single_pattern, text) {
            Some(m) => {
                &&& spec_check(rule, results, text, tape).result.is_match
                &&& spec_check(rule, results, text, tape).result.captured == m
                &&& spec_check(rule, results, text, tape).result.data == Some(DataModel::Single)
            },
            None => {
                &&& spec_check(rule, results, text, tape).result.is_match == !rule.required
                &&& spec_check(rule, results, text, tape).result.captured.len() == 0
                &&& spec_check(rule, results, text, tape).result.data is None
            },
        },
{
}

/// A `Logic` rule that has a function is a match exactly when the verdict it
/// reads is true, whether it is required or not: it asks its function once,
/// with the results gathered so far, and reads one verdict.
pub proof fn lemma_logic_takes_the_verdict(
    rule: RuleModel,
    results: ResultsModel,
    text: Seq<char>,
    tape: Seq<bool>,
)
    requires
        rule.details matches DetailsModel::Logic { func } && func is Some,
        tape.len() > 0,
    ensures
        spec_check(rule, results, text, tape).ok,
        spec_check(rule, results, text, tape).result.is_match == tape[0],
        spec_check(rule, results, text, tape).result.captured.len() == 0,
        spec_check(rule, results, text, tape).rest == tape.drop_first(),
        spec_check(rule, results, text, tape).asked == seq![(rule.details->Logic_func->0, results)],
{
}

/// The `Or` alternatives from `i + 1` on behave as the alternatives without
/// the first one from `i` on.
pub proof fn lemma_or_shift(
    entries: Seq<(Seq<char>, Seq<RuleModel>)>,
    results: ResultsModel,
    text: Seq<char>,
    i: nat,
    j: nat,
    offset: nat,
    any: bool,
    tape: Seq<bool>,
)
    requires
        entries.len() > 0,
    ensures
        spec_or(entries, results, text, i + 1, j, offset, any, tape) == spec_or(
            entries.drop_first(),
            results,
            text,
            i,
            j,
            offset,
            any,
            tape,
        ),
    decreases entries.len() - i, if i + 1 < entries.len() {
        entries[i + 1int].1.len() - j
    } else {
        0
    },
{
    let rest = entries.drop_first();
    if i + 1 >= entries.len() {
    } else {
        assert(rest[i as int] == entries[i + 1int]);
        if j >= entries[i + 1int].1.len() {
            lemma_or_shift(entries, results, text, i + 1, 0, offset, any, tape);
        } else {
            let run = spec_check(entries[i + 1int].1[j as int], results, text.skip(offset as int), tape);
            if run.ok && run.result.is_match {
                lemma_or_shift(
                    entries,
                    results,
                    text,
                    i,
                    j + 1,
                    offset + run.result.captured.len(),
                    true,
                    run.rest,
                );
            } else if run.ok {
                lemma_or_shift(entries, results, text, i + 1, 0, offset, any, run.rest);
            }
        }
    }
}

/// An `Or` alternative whose first rule does not match is abandoned and the
/// later alternatives are tried: checking the `Or` rule gives what checking
/// it without that alternative gives, on the verdicts left after the failed
/// rule.
pub proof fn lemma_or_skips_failing_alternative(
    rule: RuleModel,
    results: ResultsModel,
    text: Seq<char>,
    tape: Seq<bool>,
)
    requires
        rule.details is Or,
        rule.details->Or_rules_map.len() > 0,
        rule.details->Or_rules_map[0].1.len() > 0,
        spec_check(rule.details->Or_rules_map[0].1[0], results, text, tape).ok,
        !spec_check(rule.details->Or_rules_map[0].1[0], results, text, tape).result.is_match,
    ensures
        ({
            let first = spec_check(rule.details->Or_rules_map[0].1[0], results, text, tape);
            let without = RuleModel {
                details: DetailsModel::Or { rules_map: rule.details->Or_rules_map.drop_first() },
                ..rule
            };
            let a = spec_check(rule, results, text, tape);
            let b = spec_check(without, results, text, first.rest);
            &&& a.ok == b.ok
            &&& a.result.is_match == b.result.is_match
            &&& a.result.captured == b.result.captured
            &&& a.result.data == b.result.data
            &&& a.rest == b.rest
            &&& a.asked == first.asked + b.asked
        }),
{
    let entries = rule.details->Or_rules_map;
    assert(text.skip(0) =~= text);
    let first = spec_check(entries[0].1[0], results, text, tape);
    lemma_or_shift(entries, results, text, 0, 0, 0, false, first.rest);
}

/// An `Or` rule with two alternatives, the first of one rule that does not
/// match and the second of one rule that does, is a match that captures
/// what the second alternative's rule captured.
pub proof fn lemma_or_later_alternative_matches(
    name: Option<Seq<char>>,
    required: bool,
    first_key: Seq<char>,
    second_key: Seq<char>,
    a: RuleModel,
    b: RuleModel,
    results: ResultsModel,
    text: Seq<char>,
    tape: Seq<bool>,
)
    requires
        spec_check(a, results, text, tape).ok,
        !spec_check(a, results, text, tape).result.is_match,
        spec_check(b, results, text, spec_check(a, results, text, tape).rest).ok,
        spec_check(b, results, text, spec_check(a, results, text, tape).rest).result.is_match,
    ensures
        ({
            let rule = RuleModel {
                name,
                required,
                details: DetailsModel::Or { rules_map: seq![(first_key, seq![a]), (second_key, seq![b])] },
            };
            let r = spec_check(rule, results, text, tape);
            let rb = spec_check(b, results, text, spec_check(a, results, text, tape).rest);
            &&& r.ok
            &&& r.result.is_match
            &&& r.result.captured == rb.result.captured
        }),
{
    let entries = seq![(first_key, seq![a]), (second_key, seq![b])];
    let ra = spec_check(a, results, text, tape);
    let rb = spec_check(b, results, text, ra.rest);
    assert(text.skip(0) =~= text);
    assert(entries[0].1[0] == a);
    assert(entries[1].1[0] == b);
    let l = rb.result.captured.len();
    lemma_check_captures_prefix(b, results, text, ra.rest);
    let end = spec_or(entries, results, text, 2, 0, l, true, rb.rest);
    assert(spec_or(entries, results, text, 1, 1, l, true, rb.rest) == end);
    assert(spec_or(entries, results, text, 1, 0, 0, false, ra.rest) == or_after(rb.asked, end));
    assert(spec_or(entries, results, text, 0, 0, 0, false, tape) == or_after(
        ra.asked,
        spec_or(entries, results, text, 1, 0, 0, false, ra.rest),
    ));
    assert(text.take(l as int) =~= rb.result.captured);
}

} // verus!
