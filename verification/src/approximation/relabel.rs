//! The relabeling strategy.
//!
//! `RlbElement` quotients the storage symbols by an equivalence relation:
//! every symbol is projected to the class it belongs to, and symbols in no
//! listed class fall into a wildcard class.

use vstd::prelude::*;

use crate::approximation::{ApproximationStrategy, StrategyModel};
use crate::recognisable::{InstructionModel, PushDownInstruction, TransitionModel};

verus! {

/// The class of `x` under the relation: the second component of the first
/// pair whose first component is `x`, or the wildcard class where no pair
/// matches.
pub open spec fn project_model(pairs: Seq<(u64, u64)>, wildcard: u64, x: u64) -> u64
    decreases pairs.len(),
{
    if pairs.len() == 0 {
        wildcard
    } else if pairs[0].0 == x {
        pairs[0].1
    } else {
        project_model(pairs.drop_first(), wildcard, x)
    }
}

/// Every symbol of `s`, projected.
pub open spec fn project_all(pairs: Seq<(u64, u64)>, wildcard: u64, s: Seq<u64>) -> Seq<u64> {
    s.map_values(|x: u64| project_model(pairs, wildcard, x))
}

/// Relabeling by an equivalence relation on symbols, given as pairs of
/// symbol and class, with a wildcard class for everything unlisted.
#[derive(Debug)]
pub struct RlbElement {
    /// Pairs of a symbol and the class it is projected to.
    pub mapping: Vec<(u64, u64)>,
    /// The class of every symbol not named in `mapping`.
    pub wildcard: u64,
}

impl View for RlbElement {
    type V = StrategyModel;

    open spec fn view(&self) -> StrategyModel {
        StrategyModel::Relabel { mapping: self.mapping@, wildcard: self.wildcard }
    }
}

impl Clone for RlbElement {
    /// Cloning preserves the relation.
    fn clone(&self) -> (r: Self)
        ensures
            r@ == self@,
    {
        let mut mapping: Vec<(u64, u64)> = Vec::new();
        let mut i: usize = 0;
        while i < self.mapping.len()
            invariant
                i <= self.mapping@.len(),
                mapping@ =~= self.mapping@.take(i as int),
            decreases self.mapping.len() - i,
        {
            mapping.push(self.mapping[i]);
            proof {
                assert(mapping@ =~= self.mapping@.take(i + 1));
            }
            i = i + 1;
        }
        proof {
            assert(self.mapping@.take(self.mapping@.len() as int) =~= self.mapping@);
        }
        RlbElement { mapping, wildcard: self.wildcard }
    }
}

impl RlbElement {
    /// Creates the strategy from the relation.
    pub fn new(mapping: Vec<(u64, u64)>, wildcard: u64) -> (r: Self)
        ensures
            r.mapping@ == mapping@,
            r.wildcard == wildcard,
    {
        RlbElement { mapping, wildcard }
    }

    /// Projects one symbol to its class.
    pub fn project(&self, x: u64) -> (r: u64)
        ensures
            r == project_model(self.mapping@, self.wildcard, x),
    {
        proof {
            assert(self.mapping@.skip(0) =~= self.mapping@);
        }
        let mut i: usize = 0;
        while i < self.mapping.len()
            invariant
                i <= self.mapping@.len(),
                project_model(self.mapping@, self.wildcard, x) == project_model(
                    self.mapping@.skip(i as int),
                    self.wildcard,
                    x,
                ),
            decreases self.mapping.len() - i,
        {
            proof {
                assert(self.mapping@.skip(i as int).drop_first() =~= self.mapping@.skip(i + 1));
                assert(self.mapping@.skip(i as int)[0] == self.mapping@[i as int]);
            }
            if self.mapping[i].0 == x {
                return self.mapping[i].1;
            }
            i = i + 1;
        }
        proof {
            assert(self.mapping@.skip(self.mapping@.len() as int).len() == 0);
        }
        self.wildcard
    }

    /// Projects every symbol of a vector.
    fn project_symbols(&self, s: &Vec<u64>) -> (r: Vec<u64>)
        ensures
            r@ == project_all(self.mapping@, self.wildcard, s@),
    {
        let mut r: Vec<u64> = Vec::new();
        let mut i: usize = 0;
        while i < s.len()
            invariant
                i <= s@.len(),
                r@ =~= project_all(self.mapping@, self.wildcard, s@).take(i as int),
            decreases s.len() - i,
        {
            let c = self.project(s[i]);
            r.push(c);
            proof {
                assert(project_all(self.mapping@, self.wildcard, s@)[i as int] == project_model(
                    self.mapping@,
                    self.wildcard,
                    s@[i as int],
                ));
                assert(r@ =~= project_all(self.mapping@, self.wildcard, s@).take(i + 1));
            }
            i = i + 1;
        }
        proof {
            let pa = project_all(self.mapping@, self.wildcard, s@);
            assert(pa.take(pa.len() as int) =~= pa);
        }
        r
    }
}

impl ApproximationStrategy for RlbElement {
    /// Every storage symbol is projected to its class; every symbol named
    /// by an instruction likewise, keeping the shape and, for bounded
    /// instructions, the limit.
    fn approximate_storage(&self, s: &Vec<u64>) -> (r: Vec<u64>) {
        self.project_symbols(s)
    }

    fn approximate_instruction(&self, i: &PushDownInstruction) -> (r: PushDownInstruction) {
        match i {
            PushDownInstruction::Replace { current_val, new_val } => {
                let r = PushDownInstruction::Replace {
                    current_val: self.project_symbols(current_val),
                    new_val: self.project_symbols(new_val),
                };
                proof {
                    assert(r@ =~= crate::approximation::instruction_model_of(self@, i@));
                }
                r
            },
            PushDownInstruction::ReplaceK { current_val, new_val, limit, possible_values } => {
                let r = PushDownInstruction::ReplaceK {
                    current_val: self.project_symbols(current_val),
                    new_val: self.project_symbols(new_val),
                    limit: *limit,
                    possible_values: self.project_symbols(possible_values),
                };
                proof {
                    assert(r@ =~= crate::approximation::instruction_model_of(self@, i@));
                }
                r
            },
        }
    }
}

/// Projection commutes with one instruction step: where an instruction
/// applies to a storage, its projected image applies to the projected
/// storage and yields the projected result.  This is the relabeling
/// strategy's half of the over-approximation argument: every fine step
/// can be replayed coarsely.
pub proof fn lemma_project_apply(
    pairs: Seq<(u64, u64)>,
    wildcard: u64,
    i: crate::recognisable::InstructionModel,
    s: Seq<u64>,
    s2: Seq<u64>,
)
    requires
        crate::recognisable::automaton::apply_instruction_model(i, s) == Some(s2),
    ensures
        crate::recognisable::automaton::apply_instruction_model(
            crate::approximation::instruction_model_of(
                StrategyModel::Relabel { mapping: pairs, wildcard },
                i,
            ),
            project_all(pairs, wildcard, s),
        ) == Some(project_all(pairs, wildcard, s2)),
{
    let ps = project_all(pairs, wildcard, s);
    match i {
        InstructionModel::Replace { current_val, new_val } => {
            let pc = project_all(pairs, wildcard, current_val);
            let pn = project_all(pairs, wildcard, new_val);
            assert(crate::recognisable::automaton::tops_match(
                s,
                current_val,
                current_val.len() as int,
            ));
            assert forall|q: int| 0 <= q < pc.len() implies ps[ps.len() - 1 - q] == pc[q] by {
                assert(s[s.len() - 1 - q] == current_val[q]);
            }
            assert(crate::recognisable::automaton::tops_match(ps, pc, pc.len() as int));
            let popped = crate::recognisable::automaton::pop_push(
                s,
                current_val.len() as int,
                new_val,
            );
            let ppopped = crate::recognisable::automaton::pop_push(ps, pc.len() as int, pn);
            assert(ppopped =~= project_all(pairs, wildcard, popped)) by {
                assert forall|q: int|
                    0 <= q < ppopped.len() implies ppopped[q] == project_all(
                    pairs,
                    wildcard,
                    popped,
                )[q] by {
                    if q < s.len() - current_val.len() {
                        assert(popped[q] == s[q]);
                    } else {
                        let b = q - (s.len() - current_val.len());
                        assert(popped[q] == new_val.reverse()[b]);
                        assert(new_val.reverse()[b] == new_val[new_val.len() - 1 - b]);
                        assert(pn.reverse()[b] == pn[pn.len() - 1 - b]);
                    }
                }
            }
        },
        InstructionModel::ReplaceK { current_val, new_val, limit, possible_values } => {
            let pc = project_all(pairs, wildcard, current_val);
            let pn = project_all(pairs, wildcard, new_val);
            let pp = project_all(pairs, wildcard, possible_values);
            let avail = s.len() - 1;
            let j: int = if current_val.len() <= avail {
                current_val.len() as int
            } else {
                avail
            };
            assert(crate::recognisable::automaton::tops_match(s, current_val, j));
            assert forall|q: int| 0 <= q < j implies ps[ps.len() - 1 - q] == pc[q] by {
                assert(s[s.len() - 1 - q] == current_val[q]);
            }
            assert(crate::recognisable::automaton::tops_match(ps, pc, j));
            assert forall|q: int| j <= q < pc.len() implies pp.contains(pc[q]) by {
                assert(possible_values.contains(current_val[q]));
                let w = choose|w: int|
                    0 <= w < possible_values.len() && possible_values[w] == current_val[q];
                assert(pp[w] == project_model(pairs, wildcard, current_val[q]));
            }
            let popped = crate::recognisable::automaton::pop_push(s, j, new_val);
            let ppopped = crate::recognisable::automaton::pop_push(ps, j, pn);
            assert(ppopped =~= project_all(pairs, wildcard, popped)) by {
                assert forall|q: int|
                    0 <= q < ppopped.len() implies ppopped[q] == project_all(
                    pairs,
                    wildcard,
                    popped,
                )[q] by {
                    if q < s.len() - j {
                        assert(popped[q] == s[q]);
                    } else {
                        let b = q - (s.len() - j);
                        assert(popped[q] == new_val.reverse()[b]);
                        assert(new_val.reverse()[b] == new_val[new_val.len() - 1 - b]);
                        assert(pn.reverse()[b] == pn[pn.len() - 1 - b]);
                    }
                }
            }
            let t1 = crate::recognisable::automaton::truncate_to(popped, limit);
            let t2 = crate::recognisable::automaton::truncate_to(ppopped, limit);
            assert(t2 =~= project_all(pairs, wildcard, t1)) by {
                if popped.len() <= limit {
                } else if limit == 0 {
                    assert(t2[0] == project_all(pairs, wildcard, popped)[0]);
                    assert(t1[0] == popped[0]);
                } else {
                    assert forall|q: int|
                        0 <= q < t2.len() implies t2[q] == project_all(
                        pairs,
                        wildcard,
                        t1,
                    )[q] by {
                        if q == 0 {
                            assert(t1[0] == popped[0]);
                        } else {
                            let b = q - 1;
                            assert(t1[q] == popped.skip(popped.len() - (limit - 1))[b]);
                            assert(t2[q] == ppopped.skip(ppopped.len() - (limit - 1))[b]);
                        }
                    }
                }
            }
        },
    }
}

/// Projection commutes with replaying a whole run: a run that replays in
/// the fine automaton replays, instruction by projected instruction, from
/// the projected initial storage to the projected final storage.
pub proof fn lemma_project_run(
    pairs: Seq<(u64, u64)>,
    wildcard: u64,
    init: Seq<u64>,
    run1: Seq<TransitionModel>,
    run2: Seq<TransitionModel>,
    st: Seq<u64>,
)
    requires
        crate::recognisable::automaton::run_result(init, run1) == Some(st),
        run1.len() == run2.len(),
        forall|i: int|
            0 <= i < run1.len() ==> (#[trigger] run2[i]).instruction
                == crate::approximation::instruction_model_of(
                StrategyModel::Relabel { mapping: pairs, wildcard },
                run1[i].instruction,
            ),
    ensures
        crate::recognisable::automaton::run_result(
            project_all(pairs, wildcard, init),
            run2,
        ) == Some(project_all(pairs, wildcard, st)),
    decreases run1.len(),
{
    if run1.len() == 0 {
        assert(st == init);
    } else {
        let prev1 = run1.drop_last();
        let prev2 = run2.drop_last();
        let mid = crate::recognisable::automaton::run_result(init, prev1);
        assert(mid is Some) by {
            if mid is None {
                assert(crate::recognisable::automaton::run_result(init, run1) is None);
            }
        }
        assert(forall|i: int|
            0 <= i < prev1.len() ==> (#[trigger] prev2[i]).instruction
                == crate::approximation::instruction_model_of(
                StrategyModel::Relabel { mapping: pairs, wildcard },
                prev1[i].instruction,
            ));
        lemma_project_run(pairs, wildcard, init, prev1, prev2, mid.unwrap());
        lemma_project_apply(pairs, wildcard, run1.last().instruction, mid.unwrap(), st);
        assert(run2.last().instruction == crate::approximation::instruction_model_of(
            StrategyModel::Relabel { mapping: pairs, wildcard },
            run1.last().instruction,
        ));
    }
}

/// The coarse transition carrying the reverse-map key of `t1`.
pub open spec fn coarse_image(
    coarse_trans: Seq<TransitionModel>,
    st: StrategyModel,
    t1: TransitionModel,
) -> TransitionModel {
    choose|t2: TransitionModel|
        coarse_trans.contains(t2) && crate::approximation::normalize(t2)
            == crate::approximation::approx_key(st, t1)
}

/// Round-trip soundness through one relabeling level: every accepting run
/// of the fine automaton has an accepting coarse run — its member-by-member
/// image — among whose lifts it is.  The coarse search therefore reaches a
/// run from which unapproximation recovers the fine run, and the run
/// validator confirms it.
pub proof fn lemma_relabel_round_trip(
    pairs: Seq<(u64, u64)>,
    wildcard: u64,
    fine: crate::recognisable::automaton::AutomatonModel,
    coarse: crate::recognisable::automaton::AutomatonModel,
    inst: crate::approximation::ApproximationInstance,
    word: Seq<u64>,
    run1: Seq<TransitionModel>,
)
    requires
        crate::approximation::approximation_result_ok(
            StrategyModel::Relabel { mapping: pairs, wildcard },
            fine,
            coarse,
            inst,
        ),
        crate::recognisable::automaton::is_accepting_run(fine, word, run1),
    ensures
        exists|run2: Seq<TransitionModel>|
            crate::recognisable::automaton::is_accepting_run(coarse, word, run2)
                && #[trigger] crate::approximation::lifts_to(inst.map_model(), run2, run1),
{
    let st = StrategyModel::Relabel { mapping: pairs, wildcard };
    let run2 = Seq::new(run1.len(), |i: int| coarse_image(coarse.transitions, st, run1[i]));
    assert forall|i: int| 0 <= i < run1.len() implies coarse.transitions.contains(
        #[trigger] run2[i],
    ) && crate::approximation::normalize(run2[i]) == crate::approximation::approx_key(
        st,
        run1[i],
    ) by {
        assert(fine.transitions.contains(run1[i]));
        let a = choose|a: int|
            0 <= a < fine.transitions.len() && #[trigger] fine.transitions[a] == run1[i];
        assert(crate::approximation::has_normkey(
            coarse.transitions,
            crate::approximation::approx_key(st, fine.transitions[a]),
        ));
        let w = choose|w: int|
            0 <= w < coarse.transitions.len() && crate::approximation::normalize(
                #[trigger] coarse.transitions[w],
            ) == crate::approximation::approx_key(st, run1[i]);
        assert(coarse.transitions.contains(coarse.transitions[w]));
        assert(run2[i] == coarse_image(coarse.transitions, st, run1[i]));
    }
    assert forall|i: int| 0 <= i < run1.len() implies (#[trigger] run2[i]).instruction
        == crate::approximation::instruction_model_of(st, run1[i].instruction) && run2[i].word
        == run1[i].word by {
        assert(crate::approximation::normalize(run2[i]) == crate::approximation::approx_key(
            st,
            run1[i],
        ));
    }
    let final_st = crate::recognisable::automaton::run_result(fine.initial, run1).unwrap();
    lemma_project_run(pairs, wildcard, fine.initial, run1, run2, final_st);
    assert(coarse.initial == project_all(pairs, wildcard, fine.initial));
    assert(crate::recognisable::automaton::run_result(coarse.initial, run2) == Some(
        project_all(pairs, wildcard, final_st),
    ));
    assert(crate::recognisable::automaton::accepting(project_all(pairs, wildcard, final_st)));
    assert forall|i: int| 0 <= i < run2.len() implies (#[trigger] run2[i]).word
        == run1[i].word by {}
    crate::recognisable::lemma_run_word_eq(run2, run1);
    crate::approximation::lemma_round_trip(st, fine, coarse, inst, run1, run2);
    assert(crate::recognisable::automaton::is_accepting_run(coarse, word, run2)
        && crate::approximation::lifts_to(inst.map_model(), run2, run1));
}

} // verus!
