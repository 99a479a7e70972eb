//! The intermediate stage of a build: the consumers of every registered
//! chain, the sources they run on, and the resolvers that find sources.
//!
//! Reading a modification's registered chains out of its Lua environment and
//! waiting for resolvers are done by the caller; this stage decides what
//! follows from what they hand back.
use vstd::prelude::*;
use vstd::string::StrSliceExecFns;

use crate::build::error::Error;
use crate::build::source::Position;
use crate::build::Config;
use crate::lexer::capture::{rules_model, CaptureResultsMap, Chain, RuleModel};
use crate::lexer::consumer::{
    Consumer,
    LogicCall,
    Question,
    answered_by,
    consume_agrees,
    lemma_calls_concat,
    lemma_consume_without_logic,
    questions,
    rules_logic_free,
    spec_consume,
    total_evaluator,
    verdicts,
};
use crate::modification::Modification;
use crate::strmap::{assoc_insert, StrMap};

verus! {

/// The consumers of a build, the sources they run on, and the resolvers of
/// further sources (of type `R`).
pub struct Intermediate<'config, R> {
    pub config: &'config Config,
    consumers: Vec<Consumer>,
    pub sources: StrMap<String>,
    pub source_resolvers: Vec<R>,
}

/// A consumer as its name and the models of its rules.
pub type ConsumerModel = (Seq<char>, Seq<RuleModel>);

/// The models of a sequence of consumers.
pub open spec fn consumers_model(cs: Seq<Consumer>) -> Seq<ConsumerModel> {
    cs.map_values(|c: Consumer| (c.name@, rules_model(c.rules@)))
}

/// The models of the consumers made from a sequence of chains.
pub open spec fn chains_consumers(cs: Seq<Chain>) -> Seq<ConsumerModel> {
    cs.map_values(|c: Chain| (c@.name, c@.rules))
}

/// What the registries read one after another hold: the consumers of their
/// chains, in order (a registry that could not be read holds none).
pub open spec fn registered(outs: Seq<Result<Vec<Chain>, mlua::Error>>) -> Seq<ConsumerModel>
    decreases outs.len(),
{
    if outs.len() == 0 {
        Seq::empty()
    } else {
        registered(outs.drop_last()) + match outs.last() {
            Ok(v) => chains_consumers(v@),
            Err(_) => Seq::empty(),
        }
    }
}

/// Reading registries one after another gathers their consumers in turn:
/// what two runs of registries hold together is what the first holds
/// followed by what the second holds.
pub proof fn lemma_registered_concat(
    a: Seq<Result<Vec<Chain>, mlua::Error>>,
    b: Seq<Result<Vec<Chain>, mlua::Error>>,
)
    ensures
        registered(a + b) == registered(a) + registered(b),
    decreases b.len(),
{
    if b.len() == 0 {
        assert(a + b =~= a);
        assert(registered(a) + registered(b) =~= registered(a));
    } else {
        lemma_registered_concat(a, b.drop_last());
        assert((a + b).drop_last() =~= a + b.drop_last());
        assert((a + b).last() == b.last());
        let tail = match b.last() {
            Ok(v) => chains_consumers(v@),
            Err(_) => Seq::<ConsumerModel>::empty(),
        };
        assert(registered(a) + registered(b.drop_last()) + tail =~= registered(a) + (registered(
            b.drop_last(),
        ) + tail));
    }
}

/// A single registry that was read holds the consumers of its chains, in
/// order; one that could not be read holds none.
pub proof fn lemma_registered_one(out: Result<Vec<Chain>, mlua::Error>)
    ensures
        registered(seq![out]) == match out {
            Ok(v) => chains_consumers(v@),
            Err(_) => Seq::<ConsumerModel>::empty(),
        },
{
    assert(seq![out].drop_last() =~= Seq::<Result<Vec<Chain>, mlua::Error>>::empty());
    assert(registered(Seq::<Result<Vec<Chain>, mlua::Error>>::empty()) + match out {
        Ok(v) => chains_consumers(v@),
        Err(_) => Seq::<ConsumerModel>::empty(),
    } =~= match out {
        Ok(v) => chains_consumers(v@),
        Err(_) => Seq::<ConsumerModel>::empty(),
    });
}

/// Every chain of every registry that was read has its consumer among those
/// gathered: chain `k` of registry `i` stands right after the consumers of
/// the registries before `i` and of the chains before `k`.
pub proof fn lemma_registered_every_chain(outs: Seq<Result<Vec<Chain>, mlua::Error>>, i: int, k: int)
    requires
        0 <= i < outs.len(),
        outs[i] is Ok,
        0 <= k < outs[i]->Ok_0@.len(),
    ensures
        registered(outs)[registered(outs.take(i)).len() + k] == (
            outs[i]->Ok_0@[k]@.name,
            outs[i]->Ok_0@[k]@.rules,
        ),
        registered(outs).contains((outs[i]->Ok_0@[k]@.name, outs[i]->Ok_0@[k]@.rules)),
{
    let before = outs.take(i);
    let this = seq![outs[i]];
    let after = outs.skip(i + 1);
    assert(outs =~= before + this + after);
    lemma_registered_concat(before + this, after);
    lemma_registered_concat(before, this);
    lemma_registered_one(outs[i]);
    let p = registered(before).len() + k;
    assert(registered(outs)[p] == (outs[i]->Ok_0@[k]@.name, outs[i]->Ok_0@[k]@.rules));
}

/// `outs` are answers that `fetch` may give for the first `outs.len()`
/// modifications, read in order.
pub open spec fn fetched_by<F: Fn(&Modification) -> Result<Vec<Chain>, mlua::Error>>(
    fetch: F,
    mods: Seq<Modification>,
    outs: Seq<Result<Vec<Chain>, mlua::Error>>,
) -> bool {
    &&& outs.len() <= mods.len()
    &&& forall|i: int| 0 <= i < outs.len() ==> call_ensures(fetch, (&mods[i],), #[trigger] outs[i])
}

/// Every registry in `outs` was read.
pub open spec fn all_read(outs: Seq<Result<Vec<Chain>, mlua::Error>>) -> bool {
    forall|i: int| 0 <= i < outs.len() ==> #[trigger] outs[i] is Ok
}

// ---------------------------------------------------------------------------
// The model of interpreting
/// The outcome of trying the consumers in turn on a text.
pub struct FirstRun {
    pub ok: bool,
    pub consumed: Option<nat>,
    pub rest: Seq<bool>,
    pub asked: Seq<Question>,
}

/// The outcome of interpreting a text: whether it could be carried out to
/// an end, whether all of the text was consumed (else no consumer matched
/// what was left), the verdicts left and the questions asked.
pub struct InterpretRun {
    pub ok: bool,
    pub finished: bool,
    pub rest: Seq<bool>,
    pub asked: Seq<Question>,
}

/// Adds questions asked before a state was reached.
pub open spec fn first_after(asked: Seq<Question>, f: FirstRun) -> FirstRun {
    FirstRun { asked: asked + f.asked, ..f }
}

/// Adds questions asked before a state was reached.
pub open spec fn interpret_after(asked: Seq<Question>, r: InterpretRun) -> InterpretRun {
    InterpretRun { asked: asked + r.asked, ..r }
}

/// The consumers from `k` on are tried on `text` in order; the first whose
/// rules all match is taken, with the length of text it consumed.
pub open spec fn spec_first_match(
    consumers: Seq<ConsumerModel>,
    k: nat,
    text: Seq<char>,
    tape: Seq<bool>,
) -> FirstRun
    decreases consumers.len() - k,
{
    if k >= consumers.len() {
        FirstRun { ok: true, consumed: None, rest: tape, asked: Seq::empty() }
    } else {
        let c = spec_consume(consumers[k as int].1, text, 0, 0, Seq::empty(), tape);
        if !c.ok {
            FirstRun { ok: false, consumed: None, rest: c.rest, asked: c.asked }
        } else if c.results is Some {
            FirstRun { ok: true, consumed: Some(c.consumed), rest: c.rest, asked: c.asked }
        } else {
            first_after(c.asked, spec_first_match(consumers, k + 1, text, c.rest))
        }
    }
}

/// Interpreting `text`: while text is left, the first consumer that matches
/// consumes from it; when none matches, or the one that matches consumes
/// nothing, no progress is made and interpreting ends there.  It cannot be
/// carried out when a consumer reaches a rule that cannot be checked.
pub open spec fn spec_interpret(consumers: Seq<ConsumerModel>, text: Seq<char>, tape: Seq<bool>) -> InterpretRun
    decreases text.len(),
{
    if text.len() == 0 {
        InterpretRun { ok: true, finished: true, rest: tape, asked: Seq::empty() }
    } else {
        let f = spec_first_match(consumers, 0, text, tape);
        if !f.ok {
            InterpretRun { ok: false, finished: false, rest: f.rest, asked: f.asked }
        } else {
            match f.consumed {
                None => InterpretRun { ok: true, finished: false, rest: f.rest, asked: f.asked },
                Some(n) => if n == 0 || n > text.len() {
                    InterpretRun { ok: true, finished: false, rest: f.rest, asked: f.asked }
                } else {
                    interpret_after(f.asked, spec_interpret(consumers, text.skip(n as int), f.rest))
                },
            }
        }
    }
}

/// The result of interpreting, as it is returned: `Ok` when all of the text
/// was consumed, else no progress was made at some position (which is
/// reported as the default position).
pub open spec fn interpret_result(finished: bool, r: Result<(), Error>) -> bool {
    if finished {
        r is Ok
    } else {
        r matches Err(Error::NoMatches(p)) && p.line == 0 && p.column == 0
    }
}

/// A run of the model of interpreting agrees with a computed outcome.
pub open spec fn interpret_agrees(
    run: InterpretRun,
    r: Option<Result<(), Error>>,
    rest: Seq<bool>,
    asked: Seq<Question>,
) -> bool {
    &&& run.ok == r is Some
    &&& run.rest == rest
    &&& run.asked == asked
    &&& r matches Some(x) ==> interpret_result(run.finished, x)
}

/// A run of the model of trying the consumers agrees with a computed
/// outcome: `Some(t)` is the text a consumer left after matching.
pub open spec fn first_agrees(
    run: FirstRun,
    text: Seq<char>,
    r: Option<Option<&str>>,
    rest: Seq<bool>,
    asked: Seq<Question>,
) -> bool {
    &&& run.ok == r is Some
    &&& run.rest == rest
    &&& run.asked == asked
    &&& r matches Some(o) ==> match o {
        Some(t) => {
            &&& t@.len() <= text.len()
            &&& run.consumed == Some((text.len() - t@.len()) as nat)
            &&& t@ == text.skip(text.len() - t@.len())
        },
        None => run.consumed is None,
    }
}

/// No consumer holds a `Logic` rule.
pub open spec fn consumers_logic_free(cs: Seq<ConsumerModel>) -> bool {
    forall|i: int| 0 <= i < cs.len() ==> #[trigger] rules_logic_free(cs[i].1)
}

/// Trying consumers that hold no `Logic` rule asks Lua nothing.
pub proof fn lemma_first_match_without_logic(
    consumers: Seq<ConsumerModel>,
    k: nat,
    text: Seq<char>,
    tape: Seq<bool>,
)
    requires
        consumers_logic_free(consumers),
    ensures
        spec_first_match(consumers, k, text, tape) == (FirstRun {
            rest: tape,
            ..spec_first_match(consumers, k, text, Seq::empty())
        }),
        spec_first_match(consumers, k, text, tape).asked == Seq::<Question>::empty(),
    decreases consumers.len() - k,
{
    if k < consumers.len() {
        assert(rules_logic_free(consumers[k as int].1));
        lemma_consume_without_logic(consumers[k as int].1, text, 0, 0, Seq::empty(), tape);
        lemma_consume_without_logic(consumers[k as int].1, text, 0, 0, Seq::empty(), Seq::empty());
        let c = spec_consume(consumers[k as int].1, text, 0, 0, Seq::empty(), tape);
        if c.ok && c.results is None {
            lemma_first_match_without_logic(consumers, k + 1, text, tape);
            lemma_first_match_without_logic(consumers, k + 1, text, Seq::empty());
            let x = spec_first_match(consumers, k + 1, text, tape);
            let y = spec_first_match(consumers, k + 1, text, Seq::empty());
            assert(Seq::<Question>::empty() + x.asked =~= x.asked);
            assert(Seq::<Question>::empty() + y.asked =~= y.asked);
        }
    }
}

/// Interpreting with consumers that hold no `Logic` rule asks Lua nothing:
/// whatever the verdicts on the tape, the outcome is the same.  So for such
/// consumers it is enough to know that interpreting can be carried out
/// without any verdict.
pub proof fn lemma_interpret_without_logic(consumers: Seq<ConsumerModel>, text: Seq<char>, tape: Seq<bool>)
    requires
        consumers_logic_free(consumers),
    ensures
        spec_interpret(consumers, text, tape) == (InterpretRun {
            rest: tape,
            ..spec_interpret(consumers, text, Seq::empty())
        }),
        spec_interpret(consumers, text, tape).asked == Seq::<Question>::empty(),
    decreases text.len(),
{
    if text.len() > 0 {
        lemma_first_match_without_logic(consumers, 0, text, tape);
        lemma_first_match_without_logic(consumers, 0, text, Seq::empty());
        let f = spec_first_match(consumers, 0, text, tape);
        if f.ok {
            if let Some(n) = f.consumed {
                if !(n == 0 || n > text.len()) {
                    lemma_interpret_without_logic(consumers, text.skip(n as int), tape);
                    lemma_interpret_without_logic(consumers, text.skip(n as int), Seq::empty());
                    let x = spec_interpret(consumers, text.skip(n as int), tape);
                    let y = spec_interpret(consumers, text.skip(n as int), Seq::empty());
                    assert(Seq::<Question>::empty() + x.asked =~= x.asked);
                    assert(Seq::<Question>::empty() + y.asked =~= y.asked);
                }
            }
        }
    }
}

impl<'config, R> Intermediate<'config, R> {
    /// The consumers, as names and rules.
    pub closed spec fn consumers_view(&self) -> Seq<ConsumerModel> {
        consumers_model(self.consumers@)
    }

    /// The configuration the stage was made for.
    pub closed spec fn config_view(&self) -> Config {
        *self.config
    }

    /// The sources found so far, by name.
    pub closed spec fn sources_view(&self) -> Seq<(Seq<char>, String)> {
        self.sources.pairs()
    }

    /// The registered source resolvers, in order.
    pub closed spec fn resolvers_view(&self) -> Seq<R> {
        self.source_resolvers@
    }

    /// A fresh stage for `config`: the chains each modification registered,
    /// read in order with `fetch`, become consumers.  The first registry
    /// that cannot be read ends it with a `ProxyFailure`.
    pub fn new<F: Fn(&Modification) -> Result<Vec<Chain>, mlua::Error>>(
        config: &'config Config,
        fetch: &F,
    ) -> (r: Result<Self, Error>)
        requires
            forall|m: &Modification| call_requires(*fetch, (m,)),
        ensures
            exists|outs: Seq<Result<Vec<Chain>, mlua::Error>>|
                #[trigger] fetched_by(*fetch, config.mods@, outs) && (if outs.len() > 0
                    && outs.last() is Err {
                    &&& all_read(outs.drop_last())
                    &&& r matches Err(Error::ProxyFailure(e)) && e == outs.last()->Err_0
                } else {
                    &&& all_read(outs)
                    &&& outs.len() == config.mods@.len()
                    &&& r matches Ok(im) && im.config_view() == *config && im.consumers_view() == registered(
                        outs,
                    ) && im.sources_view().len() == 0 && im.resolvers_view().len() == 0
                }),
    {
        let mut consumers: Vec<Consumer> = Vec::new();
        let mut i: usize = 0;
        let ghost mut outs: Seq<Result<Vec<Chain>, mlua::Error>> = Seq::empty();
        while i < config.mods.len()
            invariant
                forall|m: &Modification| call_requires(*fetch, (m,)),
                i <= config.mods@.len(),
                outs.len() == i,
                fetched_by(*fetch, config.mods@, outs),
                all_read(outs),
                consumers_model(consumers@) == registered(outs),
            decreases config.mods@.len() - i,
        {
            let got = fetch(&config.mods[i]);
            let ghost got_m = got;
            let ghost before = outs;
            proof {
                outs = outs.push(got_m);
                assert(outs.drop_last() =~= before);
                assert(fetched_by(*fetch, config.mods@, outs)) by {
                    assert forall|k: int| 0 <= k < outs.len() implies call_ensures(
                        *fetch,
                        (&config.mods@[k],),
                        #[trigger] outs[k],
                    ) by {
                        if k < before.len() {
                            assert(outs[k] == before[k]);
                        }
                    }
                }
            }
            match got {
                Ok(chains) => {
                    let ghost start = consumers@;
                    let mut j: usize = 0;
                    while j < chains.len()
                        invariant
                            j <= chains@.len(),
                            consumers@.len() == start.len() + j,
                            consumers_model(consumers@) == consumers_model(start) + chains_consumers(
                                chains@.take(j as int),
                            ),
                        decreases chains@.len() - j,
                    {
                        let c = chains[j].create_consumer();
                        let ghost prev = consumers@;
                        consumers.push(c);
                        proof {
                            assert(consumers@ =~= prev.push(c));
                            assert(chains@.take(j + 1) =~= chains@.take(j as int).push(chains@[j as int]));
                            assert(consumers_model(consumers@) =~= consumers_model(prev).push(
                                (c.name@, rules_model(c.rules@)),
                            ));
                            assert(chains_consumers(chains@.take(j + 1)) =~= chains_consumers(
                                chains@.take(j as int),
                            ).push((chains@[j as int]@.name, chains@[j as int]@.rules)));
                        }
                        j = j + 1;
                    }
                    proof {
                        assert(chains@.take(chains@.len() as int) =~= chains@);
                        assert(all_read(outs));
                    }
                },
                Err(e) => {
                    proof {
                        assert(outs.last() is Err);
                    }
                    return Err(Error::ProxyFailure(e));
                },
            }
            i = i + 1;
        }
        let r = Intermediate { config, consumers, sources: StrMap::new(), source_resolvers: Vec::new() };
        proof {
            if outs.len() > 0 {
                assert(outs.last() is Ok);
            }
        }
        Ok(r)
    }

    /// Registers `source_resolver`, after those registered before.
    pub fn add_source_resolvers(&mut self, source_resolver: R)
        ensures
            final(self).resolvers_view() == old(self).resolvers_view().push(source_resolver),
            final(self).config_view() == old(self).config_view(),
            final(self).sources_view() == old(self).sources_view(),
            final(self).consumers_view() == old(self).consumers_view(),
    {
        self.source_resolvers.push(source_resolver);
    }

    /// Ends the request for the source `name` when a resolver failed to
    /// answer at all (its task did not finish): the request fails, naming
    /// the source, and no source is recorded.
    pub fn resolver_failed(&self, name: &str) -> (r: Result<(), Error>)
        ensures
            r matches Err(Error::NoSourceResolversAvailableFor(s)) && s@ == name@,
    {
        Err(Error::NoSourceResolversAvailableFor(name.to_owned()))
    }

    /// How many resolvers to ask for the source `name`: all registered ones;
    /// with none registered the request fails at once.
    pub fn resolvers_for(&self, name: &str) -> (r: Result<usize, Error>)
        ensures
            match r {
                Ok(n) => n == self.resolvers_view().len() && n > 0,
                Err(e) => self.resolvers_view().len() == 0 && (e matches Error::NoSourceResolversAvailableFor(
                    s,
                ) && s@ == name@),
            },
    {
        let n = self.source_resolvers.len();
        if n == 0 {
            Err(Error::NoSourceResolversAvailableFor(name.to_owned()))
        } else {
            Ok(n)
        }
    }

    /// Takes what one resolver of the source `name` found, `waiting` being
    /// how many resolvers have yet to answer.  A found text is recorded as
    /// that source and ends the request; when nothing was found and no
    /// resolver is left to answer, the request fails; otherwise it goes on
    /// (`None`).
    pub fn accept_source(&mut self, name: &str, found: Option<String>, waiting: usize) -> (r: Option<
        Result<(), Error>,
    >)
        ensures
            final(self).config_view() == old(self).config_view(),
            final(self).resolvers_view() == old(self).resolvers_view(),
            final(self).consumers_view() == old(self).consumers_view(),
            match found {
                Some(text) => {
                    &&& r matches Some(Ok(()))
                    &&& final(self).sources_view() == assoc_insert(old(self).sources_view(), name@, text)
                },
                None => {
                    &&& final(self).sources_view() == old(self).sources_view()
                    &&& waiting == 0 ==> (r matches Some(Err(Error::NoSourceResolversAvailableFor(s))) && s@
                        == name@)
                    &&& waiting > 0 ==> r is None
                },
            },
    {
        match found {
            Some(text) => {
                self.sources.insert(name.to_owned(), text);
                Some(Ok(()))
            },
            None => {
                if waiting == 0 {
                    Some(Err(Error::NoSourceResolversAvailableFor(name.to_owned())))
                } else {
                    None
                }
            },
        }
    }

    /// Tries the consumers in order on `text`; `Some(Some(t))` when one
    /// matched and left `t`, `Some(None)` when none did, `None` when a rule
    /// that cannot be checked was reached.  Also returns, as a ghost, the
    /// calls made of `eval`.
    fn run_first_match<'s, E: Fn(&mlua::Function, &CaptureResultsMap) -> bool>(
        &self,
        text: &'s str,
        eval: &E,
    ) -> (out: (Option<Option<&'s str>>, Ghost<Seq<LogicCall>>))
        requires
            total_evaluator(*eval),
        ensures
            answered_by(*eval, out.1@),
            forall|rest: Seq<bool>|
                #![trigger spec_first_match(self.consumers_view(), 0, text@, verdicts(out.1@) + rest)]
                first_agrees(
                    spec_first_match(self.consumers_view(), 0, text@, verdicts(out.1@) + rest),
                    text@,
                    out.0,
                    rest,
                    questions(out.1@),
                ),
    {
        let ghost cm = self.consumers_view();
        let ghost tm = text@;
        let mut q: Ghost<Seq<LogicCall>> = Ghost(Seq::empty());
        let mut k: usize = 0;
        proof {
            assert forall|rest: Seq<bool>| #[trigger] spec_first_match(cm, 0, tm, verdicts(q@) + rest)
                == first_after(questions(q@), spec_first_match(cm, k as nat, tm, rest)) by {
                assert(verdicts(q@) + rest =~= rest);
                let x = spec_first_match(cm, k as nat, tm, rest);
                assert(questions(q@) + x.asked =~= x.asked);
            }
        }
        while k < self.consumers.len()
            invariant
                total_evaluator(*eval),
                cm == self.consumers_view(),
                cm == consumers_model(self.consumers@),
                cm.len() == self.consumers@.len(),
                tm == text@,
                k <= cm.len(),
                answered_by(*eval, q@),
                forall|rest: Seq<bool>|
                    #[trigger] spec_first_match(cm, 0, tm, verdicts(q@) + rest) == first_after(
                        questions(q@),
                        spec_first_match(cm, k as nat, tm, rest),
                    ),
            decreases cm.len() - k,
        {
            let consumer = &self.consumers[k];
            let ghost rules_k = cm[k as int].1;
            proof {
                assert(rules_k == rules_model(consumer.rules@));
            }
            let (c, Ghost(qs)) = consumer.run_consume(text, eval);
            proof {
                lemma_calls_concat(*eval, q@, qs);
            }
            match c {
                None => {
                    proof {
                        assert forall|rest: Seq<bool>| #![auto] first_agrees(
                            spec_first_match(cm, 0, tm, verdicts(q@ + qs) + rest),
                            tm,
                            None,
                            rest,
                            questions(q@ + qs),
                        ) by {
                            assert(verdicts(q@ + qs) + rest =~= verdicts(q@) + (verdicts(qs) + rest));
                            assert(consume_agrees(
                                spec_consume(rules_k, tm, 0, 0, Seq::empty(), verdicts(qs) + rest),
                                tm,
                                None,
                                rest,
                                questions(qs),
                            ));
                            assert(spec_first_match(cm, 0, tm, verdicts(q@) + (verdicts(qs) + rest))
                                == first_after(questions(q@), spec_first_match(cm, k as nat, tm, verdicts(qs) + rest)));
                        }
                    }
                    return (None, Ghost(q@ + qs));
                },
                Some((found, all_matched, left)) => {
                    let ghost found_some = found is Some;
                    if all_matched {
                        proof {
                            assert forall|rest: Seq<bool>| #![auto] first_agrees(
                                spec_first_match(cm, 0, tm, verdicts(q@ + qs) + rest),
                                tm,
                                Some(Some(left)),
                                rest,
                                questions(q@ + qs),
                            ) by {
                                assert(verdicts(q@ + qs) + rest =~= verdicts(q@) + (verdicts(qs) + rest));
                                let c = spec_consume(rules_k, tm, 0, 0, Seq::empty(), verdicts(qs) + rest);
                                assert(consume_agrees(c, tm, Some((found, all_matched, left)), rest, questions(qs)));
                                assert(spec_first_match(cm, 0, tm, verdicts(q@) + (verdicts(qs) + rest))
                                    == first_after(questions(q@), spec_first_match(cm, k as nat, tm, verdicts(qs) + rest)));
                                assert(left@.len() == tm.len() - c.consumed);
                                assert(questions(q@ + qs) =~= questions(q@) + questions(qs));
                            }
                        }
                        return (Some(Some(left)), Ghost(q@ + qs));
                    }
                    proof {
                        assert forall|rest: Seq<bool>| #[trigger] spec_first_match(
                            cm,
                            0,
                            tm,
                            verdicts(q@ + qs) + rest,
                        ) == first_after(questions(q@ + qs), spec_first_match(cm, (k + 1) as nat, tm, rest)) by {
                            assert(verdicts(q@ + qs) + rest =~= verdicts(q@) + (verdicts(qs) + rest));
                            let c = spec_consume(rules_k, tm, 0, 0, Seq::empty(), verdicts(qs) + rest);
                            assert(consume_agrees(c, tm, Some((found, all_matched, left)), rest, questions(qs)));
                            assert(spec_first_match(cm, 0, tm, verdicts(q@) + (verdicts(qs) + rest))
                                == first_after(questions(q@), spec_first_match(cm, k as nat, tm, verdicts(qs) + rest)));
                            let x = spec_first_match(cm, (k + 1) as nat, tm, rest).asked;
                            assert(questions(q@ + qs) + x =~= questions(q@) + (questions(qs) + x));
                        }
                    }
                    k = k + 1;
                    q = Ghost(q@ + qs);
                },
            }
        }
        proof {
            assert forall|rest: Seq<bool>| #![auto] first_agrees(
                spec_first_match(cm, 0, tm, verdicts(q@) + rest),
                tm,
                Some(None),
                rest,
                questions(q@),
            ) by {
                assert(spec_first_match(cm, 0, tm, verdicts(q@) + rest) == first_after(
                    questions(q@),
                    spec_first_match(cm, k as nat, tm, rest),
                ));
                assert(questions(q@) + Seq::<Question>::empty() =~= questions(q@));
            }
        }
        (Some(None), q)
    }

    /// Interprets `text` with the consumers; `None` when interpreting cannot
    /// be carried out.  Also returns, as a ghost, the calls made of `eval`.
    fn run_interpret<'s, E: Fn(&mlua::Function, &CaptureResultsMap) -> bool>(
        &self,
        text: &'s str,
        eval: &E,
    ) -> (out: (Option<Result<(), Error>>, Ghost<Seq<LogicCall>>))
        requires
            total_evaluator(*eval),
        ensures
            answered_by(*eval, out.1@),
            forall|rest: Seq<bool>|
                #![trigger spec_interpret(self.consumers_view(), text@, verdicts(out.1@) + rest)]
                interpret_agrees(
                    spec_interpret(self.consumers_view(), text@, verdicts(out.1@) + rest),
                    out.0,
                    rest,
                    questions(out.1@),
                ),
    {
        let ghost cm = self.consumers_view();
        let ghost tm = text@;
        let mut q: Ghost<Seq<LogicCall>> = Ghost(Seq::empty());
        let mut remaining: &'s str = text;
        proof {
            assert forall|rest: Seq<bool>| #[trigger] spec_interpret(cm, tm, verdicts(q@) + rest)
                == interpret_after(questions(q@), spec_interpret(cm, remaining@, rest)) by {
                assert(verdicts(q@) + rest =~= rest);
                let x = spec_interpret(cm, remaining@, rest);
                assert(questions(q@) + x.asked =~= x.asked);
            }
        }
        while !remaining.is_empty()
            invariant
                total_evaluator(*eval),
                cm == self.consumers_view(),
                tm == text@,
                answered_by(*eval, q@),
                forall|rest: Seq<bool>|
                    #[trigger] spec_interpret(cm, tm, verdicts(q@) + rest) == interpret_after(
                        questions(q@),
                        spec_interpret(cm, remaining@, rest),
                    ),
            decreases remaining@.len(),
        {
            let ghost rem = remaining@;
            let (f, Ghost(qs)) = self.run_first_match(remaining, eval);
            proof {
                lemma_calls_concat(*eval, q@, qs);
            }
            match f {
                None => {
                    proof {
                        assert forall|rest: Seq<bool>| #![auto] interpret_agrees(
                            spec_interpret(cm, tm, verdicts(q@ + qs) + rest),
                            None,
                            rest,
                            questions(q@ + qs),
                        ) by {
                            assert(verdicts(q@ + qs) + rest =~= verdicts(q@) + (verdicts(qs) + rest));
                            assert(first_agrees(
                                spec_first_match(cm, 0, rem, verdicts(qs) + rest),
                                rem,
                                None,
                                rest,
                                questions(qs),
                            ));
                            assert(spec_interpret(cm, tm, verdicts(q@) + (verdicts(qs) + rest)) == interpret_after(
                                questions(q@),
                                spec_interpret(cm, rem, verdicts(qs) + rest),
                            ));
                        }
                    }
                    return (None, Ghost(q@ + qs));
                },
                Some(None) => {
                    let r = Err(Error::NoMatches(Position::default()));
                    proof {
                        assert forall|rest: Seq<bool>| #![auto] interpret_agrees(
                            spec_interpret(cm, tm, verdicts(q@ + qs) + rest),
                            Some(r),
                            rest,
                            questions(q@ + qs),
                        ) by {
                            assert(verdicts(q@ + qs) + rest =~= verdicts(q@) + (verdicts(qs) + rest));
                            assert(first_agrees(
                                spec_first_match(cm, 0, rem, verdicts(qs) + rest),
                                rem,
                                Some(None),
                                rest,
                                questions(qs),
                            ));
                            assert(spec_interpret(cm, tm, verdicts(q@) + (verdicts(qs) + rest)) == interpret_after(
                                questions(q@),
                                spec_interpret(cm, rem, verdicts(qs) + rest),
                            ));
                            assert(questions(q@ + qs) =~= questions(q@) + questions(qs));
                        }
                    }
                    return (Some(r), Ghost(q@ + qs));
                },
                Some(Some(left)) => {
                    if left.unicode_len() == remaining.unicode_len() {
                        let r = Err(Error::NoMatches(Position::default()));
                        proof {
                            assert forall|rest: Seq<bool>| #![auto] interpret_agrees(
                                spec_interpret(cm, tm, verdicts(q@ + qs) + rest),
                                Some(r),
                                rest,
                                questions(q@ + qs),
                            ) by {
                                assert(verdicts(q@ + qs) + rest =~= verdicts(q@) + (verdicts(qs) + rest));
                                assert(first_agrees(
                                    spec_first_match(cm, 0, rem, verdicts(qs) + rest),
                                    rem,
                                    Some(Some(left)),
                                    rest,
                                    questions(qs),
                                ));
                                assert(spec_interpret(cm, tm, verdicts(q@) + (verdicts(qs) + rest)) == interpret_after(
                                    questions(q@),
                                    spec_interpret(cm, rem, verdicts(qs) + rest),
                                ));
                                assert(questions(q@ + qs) =~= questions(q@) + questions(qs));
                            }
                        }
                        return (Some(r), Ghost(q@ + qs));
                    }
                    proof {
                        assert forall|rest: Seq<bool>| #[trigger] spec_interpret(cm, tm, verdicts(q@ + qs) + rest)
                            == interpret_after(questions(q@ + qs), spec_interpret(cm, left@, rest)) by {
                            assert(verdicts(q@ + qs) + rest =~= verdicts(q@) + (verdicts(qs) + rest));
                            assert(first_agrees(
                                spec_first_match(cm, 0, rem, verdicts(qs) + rest),
                                rem,
                                Some(Some(left)),
                                rest,
                                questions(qs),
                            ));
                            assert(spec_interpret(cm, tm, verdicts(q@) + (verdicts(qs) + rest)) == interpret_after(
                                questions(q@),
                                spec_interpret(cm, rem, verdicts(qs) + rest),
                            ));
                            let x = spec_interpret(cm, left@, rest).asked;
                            assert(questions(q@ + qs) + x =~= questions(q@) + (questions(qs) + x));
                        }
                    }
                    proof {
                        assert(first_agrees(
                            spec_first_match(cm, 0, rem, verdicts(qs) + Seq::<bool>::empty()),
                            rem,
                            Some(Some(left)),
                            Seq::<bool>::empty(),
                            questions(qs),
                        ));
                        assert(left@.len() < rem.len());
                    }
                    remaining = left;
                    q = Ghost(q@ + qs);
                },
            }
        }
        proof {
            assert forall|rest: Seq<bool>| #![auto] interpret_agrees(
                spec_interpret(cm, tm, verdicts(q@) + rest),
                Some(Ok(())),
                rest,
                questions(q@),
            ) by {
                assert(spec_interpret(cm, tm, verdicts(q@) + rest) == interpret_after(
                    questions(q@),
                    spec_interpret(cm, remaining@, rest),
                ));
                assert(questions(q@) + Seq::<Question>::empty() =~= questions(q@));
            }
        }
        (Some(Ok(())), q)
    }

    /// Interprets the source `entry` (which must have been found): while text
    /// is left, the first consumer whose rules all match consumes from it.
    /// With no consumers the result is `NoConsumers`; when no progress is
    /// made on what is left (no consumer matches it, or the one that matches
    /// consumes nothing), `NoMatches` at the default position.
    ///
    /// Whatever the Lua verdicts, interpreting must never reach a rule that
    /// cannot be checked.  The result is the model's, for some sequence of
    /// verdicts that `eval` may give.
    pub fn interpret<E: Fn(&mlua::Function, &CaptureResultsMap) -> bool>(
        &mut self,
        entry: &str,
        eval: &E,
    ) -> (r: Result<(), Error>)
        requires
            total_evaluator(*eval),
            crate::strmap::has_key(old(self).sources_view(), entry@),
            old(self).consumers_view().len() > 0 ==> forall|tape: Seq<bool>|
                #[trigger] spec_interpret(
                    old(self).consumers_view(),
                    crate::strmap::value_of(old(self).sources_view(), entry@)@,
                    tape,
                ).ok,
        ensures
            *final(self) == *old(self),
            old(self).consumers_view().len() == 0 ==> r matches Err(Error::NoConsumers),
            old(self).consumers_view().len() > 0 ==> exists|q: Seq<LogicCall>|
                #[trigger] answered_by(*eval, q) && interpret_agrees(
                    spec_interpret(
                        old(self).consumers_view(),
                        crate::strmap::value_of(old(self).sources_view(), entry@)@,
                        verdicts(q),
                    ),
                    Some(r),
                    Seq::empty(),
                    questions(q),
                ),
    {
        let key = entry.to_owned();
        let source: &str = match self.sources.get(&key) {
            Some(s) => s.as_str(),
            None => {
                proof {
                    assert(false);
                }
                return Err(Error::NoConsumers);
            },
        };
        if self.consumers.len() == 0 {
            return Err(Error::NoConsumers);
        }
        let (r, Ghost(q)) = self.run_interpret(source, eval);
        proof {
            assert(verdicts(q) + Seq::<bool>::empty() =~= verdicts(q));
            assert(interpret_agrees(
                spec_interpret(self.consumers_view(), source@, verdicts(q) + Seq::<bool>::empty()),
                r,
                Seq::empty(),
                questions(q),
            ));
        }
        match r {
            Some(x) => x,
            None => {
                proof {
                    assert(spec_interpret(self.consumers_view(), source@, verdicts(q)).ok);
                    assert(false);
                }
                Err(Error::NoConsumers)
            },
        }
    }

    /// Interprets the source `entry` as [`Intermediate::interpret`] does, for
    /// any input: `None` when `entry` was never found, or when a rule that
    /// cannot be checked is reached.
    pub fn try_interpret<E: Fn(&mlua::Function, &CaptureResultsMap) -> bool>(
        &mut self,
        entry: &str,
        eval: &E,
    ) -> (r: Option<Result<(), Error>>)
        requires
            total_evaluator(*eval),
        ensures
            *final(self) == *old(self),
            !crate::strmap::has_key(old(self).sources_view(), entry@) ==> r is None,
            crate::strmap::has_key(old(self).sources_view(), entry@) && old(self).consumers_view().len()
                == 0 ==> r matches Some(Err(Error::NoConsumers)),
            crate::strmap::has_key(old(self).sources_view(), entry@) && old(self).consumers_view().len()
                > 0 ==> exists|q: Seq<LogicCall>|
                #[trigger] answered_by(*eval, q) && interpret_agrees(
                    spec_interpret(
                        old(self).consumers_view(),
                        crate::strmap::value_of(old(self).sources_view(), entry@)@,
                        verdicts(q),
                    ),
                    r,
                    Seq::empty(),
                    questions(q),
                ),
    {
        let key = entry.to_owned();
        let source: &str = match self.sources.get(&key) {
            Some(s) => s.as_str(),
            None => {
                return None;
            },
        };
        if self.consumers.len() == 0 {
            return Some(Err(Error::NoConsumers));
        }
        let (r, Ghost(q)) = self.run_interpret(source, eval);
        proof {
            assert(verdicts(q) + Seq::<bool>::empty() =~= verdicts(q));
            assert(interpret_agrees(
                spec_interpret(self.consumers_view(), source@, verdicts(q) + Seq::<bool>::empty()),
                r,
                Seq::empty(),
                questions(q),
            ));
        }
        r
    }
}

} // verus!
