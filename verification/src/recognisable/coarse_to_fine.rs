//! The cascading coarse-to-fine recognizer.
//!
//! One level composes a fine automaton, a coarser sub-recognizer, and the
//! `ApproximationInstance` that connects them.  Recognition searches the
//! coarse level first and lazily lifts promising coarse items back down,
//! validating each lift against the fine automaton; by the weight-grouping
//! invariant a coarse item's weight bounds every fine item it can yield, so
//! the level emits its items in non-increasing order of weight without ever
//! materializing the fine search space.

use vstd::prelude::*;

use crate::approximation::{
    instance_ok, lifted_at, lifts_to, AnyStrategy, ApproximationInstance, StrategyModel,
};
use crate::recognisable::automaton::{
    is_accepting_run, item_sound, recognition_bound, AutomatonModel, PushDownAutomaton,
    PushDownParseForest,
};
use crate::recognisable::{
    buf_max, items_view, lemma_buf_max_le, lemma_buf_max_upper_bound, pop_max_item, run_view,
    run_weight, run_word, Item, TransitionModel,
};
use crate::weight::lemma_w_mul_mono;

verus! {

/// A lifted run is as sound as its coarse original: it uses only fine
/// transitions, consumes the same word, and weighs no more.
pub proof fn lemma_lift_sound(
    m: Seq<(TransitionModel, Seq<TransitionModel>)>,
    fine_trans: Seq<TransitionModel>,
    coarse_trans: Seq<TransitionModel>,
    run2: Seq<TransitionModel>,
    run1: Seq<TransitionModel>,
)
    requires
        instance_ok(m, fine_trans, coarse_trans),
        crate::recognisable::run_in(coarse_trans, run2),
        lifts_to(m, run2, run1),
    ensures
        crate::recognisable::run_in(fine_trans, run1),
        run_word(run1) == run_word(run2),
        run_weight(run1) <= run_weight(run2),
    decreases run2.len(),
{
    if run2.len() > 0 {
        let r2p = run2.drop_last();
        let r1p = run1.drop_last();
        assert forall|i: int| 0 <= i < r2p.len() implies #[trigger] lifted_at(
            m,
            r2p[i],
            r1p[i],
        ) by {
            assert(lifted_at(m, run2[i], run1[i]));
        }
        assert(crate::recognisable::run_in(coarse_trans, r2p)) by {
            assert(forall|i: int| 0 <= i < r2p.len() ==> coarse_trans.contains(#[trigger] r2p[i]));
        }
        lemma_lift_sound(m, fine_trans, coarse_trans, r2p, r1p);
        assert(lifted_at(m, run2[run2.len() - 1], run1[run2.len() - 1]));
        assert(coarse_trans.contains(run2.last()));
        assert(fine_trans.contains(run1.last()) && run1.last().word == run2.last().word
            && run1.last().weight <= run2.last().weight);
        assert forall|i: int| 0 <= i < run1.len() implies fine_trans.contains(
            #[trigger] run1[i],
        ) by {
            if i < run1.len() - 1 {
                assert(fine_trans.contains(r1p[i]));
            }
        }
        assert(run_word(run1) =~= run_word(run2));
        lemma_w_mul_mono(
            run_weight(r1p),
            run_weight(r2p),
            run1.last().weight,
            run2.last().weight,
        );
    }
}

/// The greatest weight among the buffered items, or `0` where there are
/// none.
pub fn buf_max_weight(items: &Vec<Item>) -> (r: u64)
    ensures
        r == buf_max(items_view(items@)),
{
    let mut r: u64 = 0;
    let mut i: usize = 0;
    while i < items.len()
        invariant
            i <= items@.len(),
            r == buf_max(items_view(items@).take(i as int)),
        decreases items.len() - i,
    {
        proof {
            let iv = items_view(items@);
            assert(iv.take(i + 1).drop_last() =~= iv.take(i as int));
            assert(iv.take(i + 1).last() == iv[i as int]);
            assert(iv[i as int] == items@[i as int]@);
        }
        if items[i].weight > r {
            r = items[i].weight;
        }
        i = i + 1;
    }
    proof {
        let iv = items_view(items@);
        assert(iv.take(iv.len() as int) =~= iv);
    }
    r
}

/// The recognizers below one cascade level: either the literal coarsest
/// automaton, or another level.
pub enum SubRecogniser {
    /// The innermost, coarsest level: the approximated automaton itself.
    Automaton(PushDownAutomaton),
    /// A further cascade level.
    Recogniser(Box<CoarseToFineRecogniser>),
}

/// One level of the cascade: a fine automaton, the recognizer of the next
/// coarser level, and the approximation instance connecting the two.
pub struct CoarseToFineRecogniser {
    /// The fine automaton that validates lifted candidates at this level.
    pub recogniser: PushDownAutomaton,
    /// The next coarser level.
    pub sublevel: Box<SubRecogniser>,
    /// The bookkeeping of the approximation between the two levels.
    pub approximation_instance: ApproximationInstance,
}

/// The automaton whose items a sub-recognizer emits.
pub open spec fn sub_automaton(s: SubRecogniser) -> AutomatonModel {
    match s {
        SubRecogniser::Automaton(a) => a@,
        SubRecogniser::Recogniser(c) => c.recogniser@,
    }
}

/// The conditions of one level, apart from those of the levels below: the
/// instance is well formed and fits the two automata it stands between.
pub open spec fn level_ok(c: CoarseToFineRecogniser) -> bool {
    &&& c.approximation_instance.wf()
    &&& instance_ok(
        c.approximation_instance.map_model(),
        c.recogniser@.transitions,
        sub_automaton(*c.sublevel).transitions,
    )
}

/// The whole tower below, this level included, is well formed.
pub open spec fn sub_wf(s: SubRecogniser) -> bool
    decreases s,
{
    match s {
        SubRecogniser::Automaton(_) => true,
        SubRecogniser::Recogniser(c) => sub_wf(*c.sublevel) && level_ok(*c),
    }
}

/// The recogniser and every level below it are well formed.
pub open spec fn recogniser_wf(c: CoarseToFineRecogniser) -> bool {
    sub_wf(*c.sublevel) && level_ok(c)
}

/// The pair of coarse automaton and instance is the approximation result
/// of the strategy on the fine automaton: the two-pass contract for the
/// top-k restriction, the default-algorithm contract for relabeling.
pub open spec fn level_built(
    st: StrategyModel,
    fine: AutomatonModel,
    coarse: AutomatonModel,
    inst: ApproximationInstance,
) -> bool {
    match st {
        StrategyModel::TopK { size } => crate::approximation::ptk::ptk_result_ok(
            size,
            fine,
            coarse,
            inst,
        ),
        StrategyModel::Relabel { .. } => crate::approximation::approximation_result_ok(
            st,
            fine,
            coarse,
            inst,
        ),
    }
}

/// The tower was built from `base` by applying the strategies from `idx`
/// on, in order: each level holds the automaton it refines, its instance
/// and sub-automaton are that strategy's approximation result, and the
/// innermost level is the coarsest automaton itself.
pub open spec fn tower_matches(
    s: SubRecogniser,
    base: AutomatonModel,
    strategies: Seq<AnyStrategy>,
    idx: int,
) -> bool
    decreases strategies.len() - idx,
{
    if idx == strategies.len() {
        s matches SubRecogniser::Automaton(a) && a@ == base
    } else if 0 <= idx < strategies.len() {
        s matches SubRecogniser::Recogniser(l) && {
            &&& l.recogniser@ == base
            &&& level_built(
                strategies[idx]@,
                base,
                sub_automaton(*l.sublevel),
                l.approximation_instance,
            )
            &&& tower_matches(*l.sublevel, sub_automaton(*l.sublevel), strategies, idx + 1)
        }
    } else {
        false
    }
}

/// The recogniser was built from `base` by applying the whole strategy
/// list in order.
pub open spec fn recogniser_matches(
    c: CoarseToFineRecogniser,
    base: AutomatonModel,
    strategies: Seq<AnyStrategy>,
) -> bool {
    &&& strategies.len() >= 1
    &&& c.recogniser@ == base
    &&& level_built(
        strategies[0]@,
        base,
        sub_automaton(*c.sublevel),
        c.approximation_instance,
    )
    &&& tower_matches(*c.sublevel, sub_automaton(*c.sublevel), strategies, 1)
}

/// Every transition's instruction is a plain replacement.
pub open spec fn all_replace(ts: Seq<TransitionModel>) -> bool {
    forall|j: int| 0 <= j < ts.len() ==> (#[trigger] ts[j]).instruction is Replace
}

/// The side conditions under which every level of the tower preserves
/// acceptance upward: a top-k level needs a positive bound, a storage with
/// its sentinel, and an exact automaton of plain replacements; a
/// relabeling level needs nothing.
pub open spec fn tower_liftable(s: SubRecogniser) -> bool
    decreases s,
{
    match s {
        SubRecogniser::Automaton(_) => true,
        SubRecogniser::Recogniser(l) => {
            &&& (match l.approximation_instance.strategy_model() {
                StrategyModel::TopK { size } => 1 <= size && 1 <= l.recogniser@.initial.len()
                    && all_replace(l.recogniser@.transitions),
                StrategyModel::Relabel { .. } => true,
            })
            &&& tower_liftable(*l.sublevel)
        },
    }
}

/// `runs` connects the tower's levels, finest first: each run is accepted
/// by its level's automaton, each is among the recorded lifts of the next
/// coarser one, and the last is accepted by the coarsest automaton.
pub open spec fn chain_ok(
    s: SubRecogniser,
    word: Seq<u64>,
    runs: Seq<Seq<TransitionModel>>,
) -> bool
    decreases s,
{
    match s {
        SubRecogniser::Automaton(a) => runs.len() == 1 && is_accepting_run(a@, word, runs[0]),
        SubRecogniser::Recogniser(l) => {
            &&& runs.len() >= 2
            &&& is_accepting_run(l.recogniser@, word, runs[0])
            &&& lifts_to(l.approximation_instance.map_model(), runs[1], runs[0])
            &&& chain_ok(*l.sublevel, word, runs.drop_first())
        },
    }
}

/// Round-trip soundness over the whole cascade: every run accepted by the
/// finest automaton of a tower built from a strategy list is connected by
/// recorded lifts, through every level, to an accepting run of the
/// coarsest automaton.  Composed with `unapproximate_run`, which returns
/// every lift, and `check_run`, which confirms every replayable accepting
/// run, unapproximating all the way down therefore recovers the original
/// run from what the coarse search reaches.
pub proof fn lemma_cascade_round_trip(
    s: SubRecogniser,
    base: AutomatonModel,
    strategies: Seq<AnyStrategy>,
    idx: int,
    word: Seq<u64>,
    r: Seq<TransitionModel>,
)
    requires
        tower_matches(s, base, strategies, idx),
        tower_liftable(s),
        is_accepting_run(base, word, r),
    ensures
        exists|runs: Seq<Seq<TransitionModel>>|
            runs.len() >= 1 && runs[0] == r && #[trigger] chain_ok(s, word, runs),
    decreases s,
{
    match s {
        SubRecogniser::Automaton(a) => {
            if idx == strategies.len() {
                assert(a@ == base);
            } else {
                assert(!tower_matches(s, base, strategies, idx));
            }
            let runs = seq![r];
            assert(chain_ok(s, word, runs));
        },
        SubRecogniser::Recogniser(l) => {
            let coarse = sub_automaton(*l.sublevel);
            let inst = l.approximation_instance;
            assert(level_built(strategies[idx]@, base, coarse, inst));
            match strategies[idx]@ {
                StrategyModel::TopK { size } => {
                    assert(inst.strategy_model() == StrategyModel::TopK { size });
                    assert forall|i: int|
                        (#[trigger] r[i]).instruction is Replace || !(0 <= i < r.len()) by {
                        if 0 <= i < r.len() {
                            assert(l.recogniser@.transitions.contains(r[i]));
                            let w = choose|w: int|
                                0 <= w < l.recogniser@.transitions.len()
                                    && #[trigger] l.recogniser@.transitions[w] == r[i];
                        }
                    }
                    crate::approximation::ptk::lemma_topk_round_trip(
                        size,
                        base,
                        coarse,
                        inst,
                        word,
                        r,
                    );
                    let r2 = choose|r2: Seq<TransitionModel>|
                        is_accepting_run(coarse, word, r2) && #[trigger] lifts_to(
                            inst.map_model(),
                            r2,
                            r,
                        );
                    lemma_cascade_round_trip(*l.sublevel, coarse, strategies, idx + 1, word, r2);
                    let runs_sub = choose|rs: Seq<Seq<TransitionModel>>|
                        rs.len() >= 1 && rs[0] == r2 && #[trigger] chain_ok(*l.sublevel, word, rs);
                    let runs = seq![r] + runs_sub;
                    assert(runs.drop_first() =~= runs_sub);
                    assert(l.recogniser@ == base);
                    assert(runs[0] == r && runs[1] == r2);
                    assert(chain_ok(s, word, runs));
                },
                StrategyModel::Relabel { mapping, wildcard } => {
                    assert(inst.strategy_model() == StrategyModel::Relabel { mapping, wildcard });
                    crate::approximation::relabel::lemma_relabel_round_trip(
                        mapping,
                        wildcard,
                        base,
                        coarse,
                        inst,
                        word,
                        r,
                    );
                    let r2 = choose|r2: Seq<TransitionModel>|
                        is_accepting_run(coarse, word, r2) && #[trigger] lifts_to(
                            inst.map_model(),
                            r2,
                            r,
                        );
                    lemma_cascade_round_trip(*l.sublevel, coarse, strategies, idx + 1, word, r2);
                    let runs_sub = choose|rs: Seq<Seq<TransitionModel>>|
                        rs.len() >= 1 && rs[0] == r2 && #[trigger] chain_ok(*l.sublevel, word, rs);
                    let runs = seq![r] + runs_sub;
                    assert(runs.drop_first() =~= runs_sub);
                    assert(l.recogniser@ == base);
                    assert(runs[0] == r && runs[1] == r2);
                    assert(chain_ok(s, word, runs));
                },
            }
        },
    }
}

/// The state of one active recognition at one cascade level: the coarse
/// level's lazy item sequence, a one-slot lookahead over it, and a
/// max-priority buffer of already lifted and validated fine items pending
/// emission.
pub struct CoarseToFineParseForest {
    recogniser: PushDownAutomaton,
    approximation_instance: ApproximationInstance,
    sublevel_parses: Box<ParseForest>,
    input_buffer: Vec<Item>,
    input_done: bool,
    output_buffer: Vec<Item>,
    fuel: usize,
    input: Ghost<Seq<u64>>,
}

/// A lazy, weight-descending sequence of recognition items: either the
/// base automaton's own sequence, or one cascade level over another such
/// sequence.
pub enum ParseForest {
    /// Items of the coarsest automaton.
    Automaton(PushDownParseForest),
    /// Items of one cascade level.
    Recogniser(Box<CoarseToFineParseForest>),
}

/// The automaton whose items this sequence yields.
pub closed spec fn pf_automaton(f: ParseForest) -> AutomatonModel {
    match f {
        ParseForest::Automaton(b) => b.automaton_model(),
        ParseForest::Recogniser(c) => c.recogniser@,
    }
}

/// The word the sequence was asked for.
pub closed spec fn pf_input(f: ParseForest) -> Seq<u64> {
    match f {
        ParseForest::Automaton(b) => b.input_model(),
        ParseForest::Recogniser(c) => c.input@,
    }
}

/// The height of the tower of levels under this sequence.
pub closed spec fn pf_height(f: ParseForest) -> nat
    decreases f,
{
    match f {
        ParseForest::Automaton(_) => 0,
        ParseForest::Recogniser(c) => pf_height(*c.sublevel_parses) + 1,
    }
}

/// An upper bound on the weight of every item the sequence will still
/// emit: for a cascade level, the best pending item or whatever the
/// coarse side can still provide.
pub closed spec fn pf_cap(f: ParseForest) -> u64
    decreases f,
{
    match f {
        ParseForest::Automaton(b) => b.cap(),
        ParseForest::Recogniser(c) => {
            let pending = buf_max(items_view(c.output_buffer@));
            let la = if c.input_buffer@.len() > 0 {
                c.input_buffer@[0]@.weight
            } else if c.input_done {
                0u64
            } else {
                pf_cap(*c.sublevel_parses)
            };
            if pending > la {
                pending
            } else {
                la
            }
        },
    }
}

/// The bound on the coarse side of one level alone: the buffered
/// lookahead item's weight, nothing after exhaustion, or the
/// sub-sequence's own bound.
pub closed spec fn lift_la_cap(c: CoarseToFineParseForest) -> u64 {
    if c.input_buffer@.len() > 0 {
        c.input_buffer@[0]@.weight
    } else if c.input_done {
        0u64
    } else {
        pf_cap(*c.sublevel_parses)
    }
}

/// The bound on what one cascade level will still emit.
pub closed spec fn lift_cap(c: CoarseToFineParseForest) -> u64 {
    let pending = buf_max(items_view(c.output_buffer@));
    let la = lift_la_cap(c);
    if pending > la {
        pending
    } else {
        la
    }
}

/// The conditions of one level's recognition state, apart from those of
/// the sequence below it.
pub closed spec fn lift_state_ok(c: CoarseToFineParseForest) -> bool {
    &&& c.approximation_instance.wf()
    &&& instance_ok(
        c.approximation_instance.map_model(),
        c.recogniser@.transitions,
        pf_automaton(*c.sublevel_parses).transitions,
    )
    &&& pf_input(*c.sublevel_parses) == c.input@
    &&& c.input_buffer@.len() <= 1
    &&& (c.input_buffer@.len() == 1 ==> item_sound(
        pf_automaton(*c.sublevel_parses),
        c.input@,
        c.input_buffer@[0]@,
    ) && pf_cap(*c.sublevel_parses) <= c.input_buffer@[0]@.weight)
    &&& forall|i: int|
        0 <= i < c.output_buffer@.len() ==> item_sound(
            c.recogniser@,
            c.input@,
            #[trigger] c.output_buffer@[i]@,
        )
    &&& (c.input_done ==> pf_stopped(*c.sublevel_parses))
}

/// The whole recognition state is well formed, every level included.
pub closed spec fn pf_wf(f: ParseForest) -> bool
    decreases f,
{
    match f {
        ParseForest::Automaton(b) => b.wf(),
        ParseForest::Recogniser(c) => pf_wf(*c.sublevel_parses) && lift_state_ok(*c),
    }
}

/// The level can produce nothing more by itself: no pending item, no
/// buffered lookahead, and the coarse side has reported exhaustion.
pub closed spec fn lift_drained(c: CoarseToFineParseForest) -> bool {
    c.output_buffer@.len() == 0 && c.input_buffer@.len() == 0 && c.input_done
}

/// The sequence has stopped: the base level has no items left, and a
/// cascade level has either spent its termination fuel or is drained with
/// the whole tower below it stopped.  `next` returns `None` only in this
/// state, so exhaustion is meaningful: unless some level ran out of fuel,
/// `None` means every level is drained down to an empty base sequence.
pub closed spec fn pf_stopped(f: ParseForest) -> bool
    decreases f,
{
    match f {
        ParseForest::Automaton(b) => b.remaining() == 0,
        ParseForest::Recogniser(c) => c.fuel == 0 || (lift_drained(*c) && pf_stopped(
            *c.sublevel_parses,
        )),
    }
}

/// A freshly started recognition state: every cascade level has an empty
/// pending buffer, an empty and unexhausted lookahead and full termination
/// fuel, and the base level holds every accepting run of the coarsest
/// automaton within the search bound.
pub closed spec fn pf_fresh(f: ParseForest, word: Seq<u64>) -> bool
    decreases f,
{
    match f {
        ParseForest::Automaton(b) => forall|r: Seq<TransitionModel>|
            #[trigger] is_accepting_run(b.automaton_model(), word, r) && r.len()
                <= recognition_bound(word) ==> b.has_run(r),
        ParseForest::Recogniser(c) => {
            &&& c.output_buffer@.len() == 0
            &&& c.input_buffer@.len() == 0
            &&& !c.input_done
            &&& c.fuel == usize::MAX
            &&& pf_fresh(*c.sublevel_parses, word)
        },
    }
}

/// The recognition state mirrors the recognizer it was started from:
/// level by level the same fine automaton and the same reverse map, down
/// to the same coarsest automaton.
pub closed spec fn pf_mirrors(f: ParseForest, s: SubRecogniser) -> bool
    decreases f, 1int,
{
    match (f, s) {
        (ParseForest::Automaton(b), SubRecogniser::Automaton(a)) => b.automaton_model() == a@,
        (ParseForest::Recogniser(_), SubRecogniser::Recogniser(l)) => forest_mirrors_level(
            f,
            *l,
        ),
        _ => false,
    }
}

/// One cascade level of the recognition state mirrors one recognizer
/// level.
pub closed spec fn forest_mirrors_level(f: ParseForest, l: CoarseToFineRecogniser) -> bool
    decreases f, 0int,
{
    match f {
        ParseForest::Recogniser(c) => {
            &&& c.recogniser@ == l.recogniser@
            &&& c.approximation_instance.map_model() == l.approximation_instance.map_model()
            &&& c.approximation_instance.strategy_model()
                == l.approximation_instance.strategy_model()
            &&& pf_mirrors(*c.sublevel_parses, *l.sublevel)
        },
        _ => false,
    }
}

/// The whole recognition state of one cascade level is well formed.
pub closed spec fn lift_wf(c: CoarseToFineParseForest) -> bool {
    pf_wf(*c.sublevel_parses) && lift_state_ok(c)
}

impl CoarseToFineParseForest {
    /// One step of the cascading best-first search; see `ParseForest::next`.
    fn next_item(&mut self) -> (r: Option<Item>)
        requires
            lift_wf(*old(self)),
        ensures
            lift_wf(*final(self)),
            final(self).recogniser@ == old(self).recogniser@,
            final(self).input@ == old(self).input@,
            pf_height(*final(self).sublevel_parses) == pf_height(*old(self).sublevel_parses),
            lift_cap(*final(self)) <= lift_cap(*old(self)),
            (r matches Some(it) ==> {
                &&& item_sound(old(self).recogniser@, old(self).input@, it@)
                &&& it@.weight <= lift_cap(*old(self))
                &&& lift_cap(*final(self)) <= it@.weight
            }),
            (r is None ==> final(self).fuel == 0 || (lift_drained(*final(self)) && pf_stopped(
                *final(self).sublevel_parses,
            ))),
        decreases pf_height(*old(self).sublevel_parses), 2int,
    {
        let ghost o = *old(self);
        let ghost capb = lift_cap(o);
        loop
            invariant
                o == *old(self),
                capb == lift_cap(o),
                pf_wf(*self.sublevel_parses),
                lift_state_ok(*self),
                self.recogniser@ == o.recogniser@,
                self.input@ == o.input@,
                pf_height(*self.sublevel_parses) == pf_height(*o.sublevel_parses),
                lift_cap(*self) <= capb,
            decreases self.fuel,
        {
            if self.fuel == 0 {
                return None;
            }
            self.fuel = self.fuel - 1;
            let ghost c_start = *self;
            proof {
                assert(lift_cap(c_start) <= capb);
            }
            if self.input_buffer.len() == 0 && !self.input_done {
                let x = self.sublevel_parses.next();
                match x {
                    Some(it) => {
                        proof {
                            assert(item_sound(
                                pf_automaton(*self.sublevel_parses),
                                self.input@,
                                it@,
                            ));
                            assert(it@.weight <= pf_cap(*c_start.sublevel_parses));
                            assert(pf_cap(*c_start.sublevel_parses) == lift_la_cap(c_start));
                        }
                        self.input_buffer.push(it);
                        proof {
                            assert(self.input_buffer@[0] == it);
                            assert(lift_la_cap(*self) == it@.weight);
                            assert(self.output_buffer@ == c_start.output_buffer@);
                            assert(lift_cap(*self) <= capb);
                        }
                    },
                    None => {
                        self.input_done = true;
                        proof {
                            assert(lift_la_cap(*self) == 0u64);
                            assert(self.output_buffer@ == c_start.output_buffer@);
                            assert(lift_cap(*self) <= capb);
                        }
                    },
                }
            }
            proof {
                assert(self.input_buffer@.len() > 0 || self.input_done);
                assert(lift_cap(*self) <= capb);
            }
            let out_max = buf_max_weight(&self.output_buffer);
            let pull = if self.output_buffer.len() == 0 {
                true
            } else if self.input_buffer.len() > 0 && self.input_buffer[0].weight > out_max {
                true
            } else {
                false
            };
            if !pull {
                let ghost out0 = self.output_buffer@;
                let ghost pending0 = items_view(out0);
                let r = pop_max_item(&mut self.output_buffer);
                proof {
                    let it = r.unwrap();
                    let i0 = choose|i: int| 0 <= i < out0.len() && it@ == #[trigger] out0[i]@;
                    lemma_buf_max_upper_bound(pending0);
                    assert(pending0[i0] == out0[i0]@);
                    assert(pending0[i0].weight <= buf_max(pending0));
                    assert(it@.weight <= buf_max(pending0));
                    assert forall|j: int|
                        0 <= j < self.output_buffer@.len() implies #[trigger] items_view(
                        self.output_buffer@,
                    )[j].weight <= it@.weight by {
                        assert(items_view(self.output_buffer@)[j] == self.output_buffer@[j]@);
                    }
                    lemma_buf_max_le(items_view(self.output_buffer@), it@.weight);
                    assert forall|j: int| 0 <= j < pending0.len() implies #[trigger] pending0[j].weight
                        <= it@.weight by {
                        assert(pending0[j] == out0[j]@);
                    }
                    lemma_buf_max_le(pending0, it@.weight);
                    assert(lift_la_cap(*self) <= it@.weight);
                    assert(item_sound(o.recogniser@, o.input@, it@));
                    assert(pf_wf(*self.sublevel_parses));
                    assert(self.input_done ==> pf_stopped(*self.sublevel_parses));
                    assert forall|i: int| 0 <= i < self.output_buffer@.len() implies item_sound(
                        self.recogniser@,
                        self.input@,
                        #[trigger] self.output_buffer@[i]@,
                    ) by {
                        let i0 = choose|i0: int|
                            0 <= i0 < out0.len() && #[trigger] self.output_buffer@[i]@ == out0[i0]@;
                    }
                    assert(lift_state_ok(*self));
                }
                return r;
            }
            if self.input_buffer.len() > 0 {
                let ghost c_pull = *self;
                let item2 = self.input_buffer.swap_remove(0);
                let ghost w2 = item2@.weight;
                let ghost r2v = run_view(item2.run@);
                let ghost m = self.approximation_instance.map_model();
                let ghost fine_trans = self.recogniser@.transitions;
                let ghost coarse_trans = pf_automaton(*self.sublevel_parses).transitions;
                proof {
                    assert(crate::recognisable::run_in(coarse_trans, r2v));
                    assert(run_word(r2v) == self.input@);
                    assert(w2 == run_weight(r2v));
                    assert(lift_la_cap(c_pull) == w2);
                    assert(w2 <= capb);
                    assert(lift_la_cap(*self) <= w2);
                }
                let r1s = self.approximation_instance.unapproximate_run(&item2.run);
                let ghost fuel_now = self.fuel;
                proof {
                    lemma_buf_max_upper_bound(items_view(self.output_buffer@));
                    assert forall|j: int|
                        0 <= j < self.output_buffer@.len() implies (
                    #[trigger] self.output_buffer@[j]@).weight <= capb by {
                        assert(items_view(self.output_buffer@)[j] == self.output_buffer@[j]@);
                        assert(items_view(self.output_buffer@)[j].weight <= buf_max(
                            items_view(self.output_buffer@),
                        ));
                    }
                }
                let mut x: usize = 0;
                while x < r1s.len()
                    invariant
                        o == *old(self),
                        capb == lift_cap(o),
                        self.fuel == fuel_now,
                        x <= r1s@.len(),
                        pf_wf(*self.sublevel_parses),
                        lift_state_ok(*self),
                        self.recogniser@ == o.recogniser@,
                        self.input@ == o.input@,
                        pf_height(*self.sublevel_parses) == pf_height(*o.sublevel_parses),
                        m == self.approximation_instance.map_model(),
                        fine_trans == self.recogniser@.transitions,
                        coarse_trans == pf_automaton(*self.sublevel_parses).transitions,
                        crate::recognisable::run_in(coarse_trans, r2v),
                        run_word(r2v) == self.input@,
                        w2 == run_weight(r2v),
                        w2 <= capb,
                        lift_la_cap(*self) <= w2,
                        forall|i: int|
                            0 <= i < r1s@.len() ==> lifts_to(m, r2v, run_view(#[trigger] r1s@[i]@)),
                        forall|j: int|
                            0 <= j < self.output_buffer@.len() ==> (
                            #[trigger] self.output_buffer@[j]@).weight <= capb,
                    decreases r1s.len() - x,
                {
                    let mut items1 = self.recogniser.check_run(&r1s[x]);
                    if items1.len() > 0 {
                        let it1 = items1.swap_remove(0);
                        proof {
                            let rv1 = run_view(r1s@[x as int]@);
                            assert(lifts_to(m, r2v, rv1));
                            lemma_lift_sound(m, fine_trans, coarse_trans, r2v, rv1);
                            assert(it1@.run == rv1);
                            assert(it1@.weight == run_weight(rv1));
                            assert(item_sound(self.recogniser@, self.input@, it1@));
                            assert(it1@.weight <= w2);
                        }
                        let ghost out0 = self.output_buffer@;
                        self.output_buffer.push(it1);
                        proof {
                            assert forall|j: int|
                                0 <= j < self.output_buffer@.len() implies item_sound(
                                self.recogniser@,
                                self.input@,
                                #[trigger] self.output_buffer@[j]@,
                            ) && (self.output_buffer@[j]@).weight <= capb by {
                                if j < out0.len() {
                                    assert(self.output_buffer@[j] == out0[j]);
                                }
                            }
                        }
                    }
                    x = x + 1;
                }
                proof {
                    assert forall|j: int|
                        0 <= j < self.output_buffer@.len() implies #[trigger] items_view(
                        self.output_buffer@,
                    )[j].weight <= capb by {
                        assert(items_view(self.output_buffer@)[j] == self.output_buffer@[j]@);
                    }
                    lemma_buf_max_le(items_view(self.output_buffer@), capb);
                    assert(lift_cap(*self) <= capb);
                }
            } else {
                proof {
                    assert(self.output_buffer@.len() == 0);
                    assert(lift_drained(*self));
                    assert(self.input_done ==> pf_stopped(*self.sublevel_parses));
                    assert(lift_state_ok(*self));
                    assert(pf_wf(*self.sublevel_parses));
                }
                return None;
            }
        }
    }
}

impl SubRecogniser {
    /// Starts a recognition of `word` at this level and below.
    pub fn recognise(&self, word: &Vec<u64>) -> (f: ParseForest)
        requires
            sub_wf(*self),
        ensures
            pf_wf(f),
            pf_automaton(f) == sub_automaton(*self),
            pf_input(f) == word@,
            pf_fresh(f, word@),
            pf_mirrors(f, *self),
        decreases *self, 1int,
    {
        match self {
            SubRecogniser::Automaton(a) => {
                let b = a.recognise(word);
                ParseForest::Automaton(b)
            },
            SubRecogniser::Recogniser(c) => {
                let f = c.recognise(word);
                f
            },
        }
    }
}

impl CoarseToFineRecogniser {
    /// Starts a lazy, weight-descending recognition of `word`: the coarse
    /// sub-level is searched first and promising coarse items are lifted
    /// and validated against this level's automaton on demand.
    pub fn recognise(&self, word: &Vec<u64>) -> (f: ParseForest)
        requires
            recogniser_wf(*self),
        ensures
            pf_wf(f),
            pf_automaton(f) == self.recogniser@,
            pf_input(f) == word@,
            pf_fresh(f, word@),
            forest_mirrors_level(f, *self),
        decreases *self.sublevel, 2int,
    {
        let sub = self.sublevel.recognise(word);
        let forest = CoarseToFineParseForest {
            recogniser: self.recogniser.clone(),
            approximation_instance: self.approximation_instance.clone(),
            sublevel_parses: Box::new(sub),
            input_buffer: Vec::new(),
            input_done: false,
            output_buffer: Vec::new(),
            fuel: usize::MAX,
            input: Ghost(word@),
        };
        proof {
            assert(lift_state_ok(forest));
        }
        ParseForest::Recogniser(Box::new(forest))
    }
}

/// Builds the innermost levels of a cascade: the strategies from `idx` on
/// are applied in order, each level wrapping the approximation of the one
/// above, and the innermost level is the literal coarsest automaton.
fn build_tower(automaton: PushDownAutomaton, strategies: &Vec<AnyStrategy>, idx: usize) -> (r:
    SubRecogniser)
    requires
        idx <= strategies@.len(),
    ensures
        sub_wf(r),
        sub_automaton(r) == automaton@,
        tower_matches(r, automaton@, strategies@, idx as int),
    decreases strategies@.len() - idx,
{
    if idx == strategies.len() {
        SubRecogniser::Automaton(automaton)
    } else {
        let strategy = strategies[idx].clone();
        let (coarse, instance) = strategy.approximate_automaton(&automaton);
        let sub = build_tower(coarse, strategies, idx + 1);
        let level = CoarseToFineRecogniser {
            recogniser: automaton,
            sublevel: Box::new(sub),
            approximation_instance: instance,
        };
        proof {
            assert(level_ok(level));
        }
        SubRecogniser::Recogniser(Box::new(level))
    }
}

impl CoarseToFineRecogniser {
    /// Builds a cascade tower from a base automaton and a list of
    /// strategies, folded in order: the first strategy approximates the
    /// base automaton, each following one approximates the result of the
    /// one before it, and the innermost level is the coarsest automaton.
    pub fn from_strategies(automaton: PushDownAutomaton, strategies: Vec<AnyStrategy>) -> (r:
        CoarseToFineRecogniser)
        requires
            strategies@.len() >= 1,
        ensures
            recogniser_wf(r),
            r.recogniser@ == automaton@,
            recogniser_matches(r, automaton@, strategies@),
    {
        let first = strategies[0].clone();
        let (coarse, instance) = first.approximate_automaton(&automaton);
        let sub = build_tower(coarse, &strategies, 1);
        let r = CoarseToFineRecogniser {
            recogniser: automaton,
            sublevel: Box::new(sub),
            approximation_instance: instance,
        };
        proof {
            assert(level_ok(r));
        }
        r
    }
}

impl ParseForest {
    /// Produces the next item, or signals exhaustion.
    ///
    /// At a cascade level: while the pending buffer is empty, or a coarse
    /// item remains available and its weight strictly exceeds the pending
    /// buffer's best candidate, pull the next coarse item, lift its run,
    /// validate every candidate against the fine automaton, and push the
    /// validated items into the pending buffer; then emit the best pending
    /// item.  By the weight-grouping invariant the weight of any
    /// not-yet-consumed coarse item bounds the weight of every fine item
    /// it can still produce, so the emitted sequence is non-increasing in
    /// weight: each result weighs at most `pf_cap` of the state before the
    /// call, and leaves `pf_cap` at most its own weight.
    pub fn next(&mut self) -> (r: Option<Item>)
        requires
            pf_wf(*old(self)),
        ensures
            pf_wf(*final(self)),
            pf_automaton(*final(self)) == pf_automaton(*old(self)),
            pf_input(*final(self)) == pf_input(*old(self)),
            pf_height(*final(self)) == pf_height(*old(self)),
            pf_cap(*final(self)) <= pf_cap(*old(self)),
            (r matches Some(it) ==> {
                &&& item_sound(pf_automaton(*old(self)), pf_input(*old(self)), it@)
                &&& it@.weight <= pf_cap(*old(self))
                &&& pf_cap(*final(self)) <= it@.weight
            }),
            (r is None ==> pf_stopped(*final(self))),
        decreases pf_height(*old(self)), 1int,
    {
        match self {
            ParseForest::Automaton(b) => {
                let r = b.next();
                r
            },
            ParseForest::Recogniser(c) => {
                let r = c.next_item();
                r
            },
        }
    }
}

} // verus!