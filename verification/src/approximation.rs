//! Approximation strategies and their bookkeeping.
//!
//! An approximation strategy maps storages and instructions of a fine
//! automaton to coarser ones.  Approximating a whole automaton yields the
//! coarse automaton together with an `ApproximationInstance`, which
//! remembers, for every coarse transition produced, which fine transitions
//! collapsed onto it, and can reconstruct fine candidates from coarse
//! transitions and runs.

use vstd::prelude::*;

use crate::recognisable::automaton::{truncate_to, PushDownAutomaton};
use crate::recognisable::{
    clone_run, instructions_eq, run_view, symbols_eq, transitions_eq, InstructionModel,
    PushDownInstruction, Transition, TransitionModel,
};
use crate::weight::{w_add, weight_add};

pub mod ptk;
pub mod relabel;

use crate::approximation::ptk::PDTopKElement;
use crate::approximation::relabel::RlbElement;

verus! {

/// The mathematical value of an approximation strategy.
#[verifier::ext_equal]
pub enum StrategyModel {
    /// The top-k pushdown restriction with its bound.
    TopK { size: nat },
    /// Relabeling with its relation and wildcard class.
    Relabel { mapping: Seq<(u64, u64)>, wildcard: u64 },
}

/// The value of `approximate_storage` for a strategy.
pub open spec fn storage_model_of(m: StrategyModel, s: Seq<u64>) -> Seq<u64> {
    match m {
        StrategyModel::TopK { size } => truncate_to(s, size),
        StrategyModel::Relabel { mapping, wildcard } => crate::approximation::relabel::project_all(
            mapping,
            wildcard,
            s,
        ),
    }
}

/// The value of `approximate_instruction` for a strategy.
pub open spec fn instruction_model_of(m: StrategyModel, i: InstructionModel) -> InstructionModel {
    match m {
        StrategyModel::TopK { size } => match i {
            InstructionModel::Replace { current_val, new_val } => InstructionModel::ReplaceK {
                current_val,
                new_val,
                limit: size,
                possible_values: Seq::<u64>::empty(),
            },
            InstructionModel::ReplaceK { current_val, new_val, .. } => InstructionModel::ReplaceK {
                current_val,
                new_val,
                limit: size,
                possible_values: Seq::<u64>::empty(),
            },
        },
        StrategyModel::Relabel { mapping, wildcard } => match i {
            InstructionModel::Replace { current_val, new_val } => InstructionModel::Replace {
                current_val: crate::approximation::relabel::project_all(
                    mapping,
                    wildcard,
                    current_val,
                ),
                new_val: crate::approximation::relabel::project_all(mapping, wildcard, new_val),
            },
            InstructionModel::ReplaceK { current_val, new_val, limit, possible_values } =>
                InstructionModel::ReplaceK {
                current_val: crate::approximation::relabel::project_all(
                    mapping,
                    wildcard,
                    current_val,
                ),
                new_val: crate::approximation::relabel::project_all(mapping, wildcard, new_val),
                limit,
                possible_values: crate::approximation::relabel::project_all(
                    mapping,
                    wildcard,
                    possible_values,
                ),
            },
        },
    }
}

/// A policy mapping one storage and instruction kind to a coarser one.
///
/// Both transforms are pure functions of their argument, determined by the
/// strategy's mathematical value.
pub trait ApproximationStrategy: View<V = StrategyModel> + Sized {
    /// Maps a storage of the fine automaton to a coarse one.
    fn approximate_storage(&self, s: &Vec<u64>) -> (r: Vec<u64>)
        ensures
            r@ == storage_model_of(self@, s@),
    ;

    /// Maps an instruction of the fine automaton to a coarse one.
    fn approximate_instruction(&self, i: &PushDownInstruction) -> (r: PushDownInstruction)
        ensures
            r@ == instruction_model_of(self@, i@),
    ;
}

/// One of the concrete strategies, behind a single type, so that towers of
/// distinct strategies can be built from a list.
pub enum AnyStrategy {
    /// The top-k pushdown restriction.
    TopK(PDTopKElement),
    /// Relabeling by an equivalence relation on symbols.
    Relabel(RlbElement),
}

impl View for AnyStrategy {
    type V = StrategyModel;

    open spec fn view(&self) -> StrategyModel {
        match self {
            AnyStrategy::TopK(p) => p@,
            AnyStrategy::Relabel(r) => r@,
        }
    }
}

impl ApproximationStrategy for AnyStrategy {
    fn approximate_storage(&self, s: &Vec<u64>) -> (r: Vec<u64>) {
        match self {
            AnyStrategy::TopK(p) => p.approximate_storage(s),
            AnyStrategy::Relabel(r) => r.approximate_storage(s),
        }
    }

    fn approximate_instruction(&self, i: &PushDownInstruction) -> (r: PushDownInstruction) {
        match self {
            AnyStrategy::TopK(p) => p.approximate_instruction(i),
            AnyStrategy::Relabel(r) => r.approximate_instruction(i),
        }
    }
}

impl Clone for AnyStrategy {
    /// Cloning preserves the strategy's value.
    fn clone(&self) -> (r: Self)
        ensures
            r@ == self@,
    {
        match self {
            AnyStrategy::TopK(p) => AnyStrategy::TopK(p.clone()),
            AnyStrategy::Relabel(r) => AnyStrategy::Relabel(r.clone()),
        }
    }
}

/// The transition with its weight forced to the multiplicative identity:
/// the key under which the reverse map stores it.
pub open spec fn normalize(t: TransitionModel) -> TransitionModel {
    TransitionModel { word: t.word, weight: 1u64, instruction: t.instruction }
}

/// The reverse-map key of a fine transition: its word, a neutral weight,
/// and its coarse instruction.
pub open spec fn approx_key(st: StrategyModel, t1: TransitionModel) -> TransitionModel {
    TransitionModel {
        word: t1.word,
        weight: 1u64,
        instruction: instruction_model_of(st, t1.instruction),
    }
}

/// The value of the reverse map: its entries as pairs of key and recorded
/// fine transitions.
pub open spec fn entries_view(entries: Seq<(Transition, Vec<Transition>)>) -> Seq<
    (TransitionModel, Seq<TransitionModel>),
> {
    entries.map_values(|p: (Transition, Vec<Transition>)| (p.0@, run_view(p.1@)))
}

/// First-match lookup in the reverse map.
pub open spec fn lookup_model(
    m: Seq<(TransitionModel, Seq<TransitionModel>)>,
    k: TransitionModel,
) -> Option<Seq<TransitionModel>>
    decreases m.len(),
{
    if m.len() == 0 {
        None
    } else if m[0].0 == k {
        Some(m[0].1)
    } else {
        lookup_model(m.drop_first(), k)
    }
}

/// The reverse map is well formed: its keys are pairwise distinct and every
/// key carries the neutral weight.
pub open spec fn entries_wf(m: Seq<(TransitionModel, Seq<TransitionModel>)>) -> bool {
    &&& forall|i: int, j: int| 0 <= i < j < m.len() ==> (#[trigger] m[i]).0 != (#[trigger] m[j]).0
    &&& forall|i: int| 0 <= i < m.len() ==> (#[trigger] m[i]).0.weight == 1u64
}

/// On a well-formed map, lookup succeeds exactly on the stored keys and
/// yields the stored list.
pub proof fn lemma_lookup_char(m: Seq<(TransitionModel, Seq<TransitionModel>)>, k: TransitionModel)
    ensures
        (lookup_model(m, k) is None <==> forall|i: int| 0 <= i < m.len() ==> (#[trigger] m[i]).0
            != k),
        (lookup_model(m, k) matches Some(v) ==> exists|i: int|
            0 <= i < m.len() && (#[trigger] m[i]).0 == k && m[i].1 == v),
        entries_wf(m) ==> (forall|i: int|
            0 <= i < m.len() && (#[trigger] m[i]).0 == k ==> lookup_model(m, k) == Some(m[i].1)),
    decreases m.len(),
{
    if m.len() > 0 {
        let df = m.drop_first();
        assert(forall|i: int| 0 <= i < df.len() ==> #[trigger] df[i] == m[i + 1]);
        if entries_wf(m) {
            assert(forall|i: int, j: int|
                0 <= i < j < df.len() ==> (#[trigger] df[i]).0 != (#[trigger] df[j]).0);
            assert(entries_wf(df));
        }
        lemma_lookup_char(df, k);
        if m[0].0 == k {
            assert(lookup_model(m, k) == Some(m[0].1));
            if entries_wf(m) {
                assert forall|i: int|
                    0 <= i < m.len() && (#[trigger] m[i]).0 == k implies lookup_model(m, k)
                    == Some(m[i].1) by {
                    if i != 0 {
                        assert(m[0].0 != m[i].0);
                    }
                }
            }
        } else {
            assert(lookup_model(m, k) == lookup_model(df, k));
            if lookup_model(m, k) is None {
                assert forall|i: int| 0 <= i < m.len() implies (#[trigger] m[i]).0 != k by {
                    if i > 0 {
                        assert(df[i - 1] == m[i]);
                    }
                }
            }
            if forall|i: int| 0 <= i < m.len() ==> (#[trigger] m[i]).0 != k {
                assert(forall|i: int| 0 <= i < df.len() ==> (#[trigger] df[i]).0 != k);
            }
            if lookup_model(m, k) is Some {
                let v = lookup_model(m, k).unwrap();
                let i = choose|i: int|
                    0 <= i < df.len() && (#[trigger] df[i]).0 == k && df[i].1 == v;
                assert(m[i + 1].0 == k && m[i + 1].1 == v);
            }
            if entries_wf(m) {
                assert forall|i: int|
                    0 <= i < m.len() && (#[trigger] m[i]).0 == k implies lookup_model(m, k)
                    == Some(m[i].1) by {
                    assert(i != 0);
                    assert(df[i - 1] == m[i]);
                }
            }
        }
    }
}

/// Lookup finds the first entry whose key matches.
pub proof fn lemma_lookup_first(
    m: Seq<(TransitionModel, Seq<TransitionModel>)>,
    k: TransitionModel,
    i: int,
)
    requires
        0 <= i < m.len(),
        m[i].0 == k,
        forall|j: int| 0 <= j < i ==> (#[trigger] m[j]).0 != k,
    ensures
        lookup_model(m, k) == Some(m[i].1),
    decreases i,
{
    if i > 0 {
        let df = m.drop_first();
        assert(forall|j: int| 0 <= j < df.len() ==> #[trigger] df[j] == m[j + 1]);
        assert(m[0].0 != k);
        lemma_lookup_first(df, k, i - 1);
    }
}

/// The fine transitions of `fines` that collapse onto the reverse-map key
/// `k`, in their original order.
pub open spec fn group_list(
    fines: Seq<TransitionModel>,
    st: StrategyModel,
    k: TransitionModel,
) -> Seq<TransitionModel>
    decreases fines.len(),
{
    if fines.len() == 0 {
        Seq::<TransitionModel>::empty()
    } else {
        let prev = group_list(fines.drop_last(), st, k);
        if approx_key(st, fines.last()) == k {
            prev.push(fines.last())
        } else {
            prev
        }
    }
}

/// The summed weight of the fine transitions of `fines` that collapse onto
/// `k`: the weight-grouping invariant demands exactly this weight of the
/// coarse transition at `k`.
pub open spec fn group_sum(fines: Seq<TransitionModel>, st: StrategyModel, k: TransitionModel) -> u64
    decreases fines.len(),
{
    if fines.len() == 0 {
        0u64
    } else {
        let prev = group_sum(fines.drop_last(), st, k);
        if approx_key(st, fines.last()) == k {
            w_add(prev, fines.last().weight)
        } else {
            prev
        }
    }
}

/// Every member of a group comes from `fines`, collapses onto the group's
/// key, and weighs at most the group's sum.
pub proof fn lemma_group_props(fines: Seq<TransitionModel>, st: StrategyModel, k: TransitionModel)
    ensures
        forall|x: TransitionModel|
            group_list(fines, st, k).contains(x) ==> fines.contains(x) && approx_key(st, x) == k
                && x.weight <= group_sum(fines, st, k),
    decreases fines.len(),
{
    if fines.len() > 0 {
        lemma_group_props(fines.drop_last(), st, k);
        let prev = group_list(fines.drop_last(), st, k);
        let prev_sum = group_sum(fines.drop_last(), st, k);
        assert forall|x: TransitionModel| group_list(fines, st, k).contains(x) implies
            fines.contains(x) && approx_key(st, x) == k && x.weight <= group_sum(
            fines,
            st,
            k,
        ) by {
            if approx_key(st, fines.last()) == k {
                assert(group_list(fines, st, k) == prev.push(fines.last()));
                crate::weight::lemma_w_add_upper_bound(prev_sum, fines.last().weight);
                if x == fines.last() {
                    assert(fines.contains(x)) by {
                        assert(fines[fines.len() - 1] == x);
                    }
                } else {
                    let j = choose|j: int|
                        0 <= j < prev.push(fines.last()).len() && prev.push(fines.last())[j] == x;
                    assert(prev[j] == x);
                    assert(prev.contains(x));
                    assert(fines.drop_last().contains(x));
                    let j2 = choose|j2: int|
                        0 <= j2 < fines.drop_last().len() && fines.drop_last()[j2] == x;
                    assert(fines[j2] == x);
                }
            } else {
                assert(group_list(fines, st, k) == prev);
                assert(prev.contains(x));
                assert(fines.drop_last().contains(x));
                let j2 = choose|j2: int|
                    0 <= j2 < fines.drop_last().len() && fines.drop_last()[j2] == x;
                assert(fines[j2] == x);
            }
        }
    }
}

/// Each fine transition stands in its own group.
pub proof fn lemma_group_contains_self(fines: Seq<TransitionModel>, st: StrategyModel, a: int)
    requires
        0 <= a < fines.len(),
    ensures
        group_list(fines, st, approx_key(st, fines[a])).contains(fines[a]),
    decreases fines.len(),
{
    let k = approx_key(st, fines[a]);
    if a == fines.len() - 1 {
        let prev = group_list(fines.drop_last(), st, k);
        assert(group_list(fines, st, k) == prev.push(fines.last()));
        assert(group_list(fines, st, k)[prev.len() as int] == fines[a]);
    } else {
        assert(fines.drop_last()[a] == fines[a]);
        lemma_group_contains_self(fines.drop_last(), st, a);
        let prev = group_list(fines.drop_last(), st, k);
        let j = choose|j: int| 0 <= j < prev.len() && prev[j] == fines[a];
        if approx_key(st, fines.last()) == k {
            assert(group_list(fines, st, k) == prev.push(fines.last()));
            assert(group_list(fines, st, k)[j] == fines[a]);
        }
        assert(group_list(fines, st, k).contains(fines[a])) by {
            assert(group_list(fines, st, k)[j] == fines[a]);
        }
    }
}

/// Extending the processed prefix by one fine transition extends exactly
/// the group it collapses onto.
pub proof fn lemma_group_take_extend(
    fines: Seq<TransitionModel>,
    st: StrategyModel,
    k: TransitionModel,
    i: int,
)
    requires
        0 <= i < fines.len(),
    ensures
        group_list(fines.take(i + 1), st, k) == (if approx_key(st, fines[i]) == k {
            group_list(fines.take(i), st, k).push(fines[i])
        } else {
            group_list(fines.take(i), st, k)
        }),
        group_sum(fines.take(i + 1), st, k) == (if approx_key(st, fines[i]) == k {
            w_add(group_sum(fines.take(i), st, k), fines[i].weight)
        } else {
            group_sum(fines.take(i), st, k)
        }),
{
    assert(fines.take(i + 1).drop_last() =~= fines.take(i));
    assert(fines.take(i + 1).last() == fines[i]);
}

/// An empty group has the zero sum.
pub proof fn lemma_group_empty(fines: Seq<TransitionModel>, st: StrategyModel, k: TransitionModel)
    requires
        group_list(fines, st, k).len() == 0,
    ensures
        group_sum(fines, st, k) == 0u64,
    decreases fines.len(),
{
    if fines.len() > 0 {
        lemma_group_empty(fines.drop_last(), st, k);
    }
}

/// Some member of `s` normalizes to the key `k`.
pub open spec fn has_normkey(s: Seq<TransitionModel>, k: TransitionModel) -> bool {
    exists|j: int| 0 <= j < s.len() && normalize(#[trigger] s[j]) == k
}

/// The instance fits the pair of automata it was built between: everything
/// it records for a coarse transition is a fine transition with the same
/// word and at most the coarse weight.  This is what makes lifting sound
/// and the lazy search admissible.
pub open spec fn instance_ok(
    m: Seq<(TransitionModel, Seq<TransitionModel>)>,
    fine_trans: Seq<TransitionModel>,
    coarse_trans: Seq<TransitionModel>,
) -> bool {
    forall|t2: TransitionModel, t1: TransitionModel|
        coarse_trans.contains(t2) && #[trigger] lifted_at(m, t2, t1) ==> fine_trans.contains(t1)
            && t1.word == t2.word && t1.weight <= t2.weight
}

/// Some member of `s` is the run `x`.
pub open spec fn holds_run(s: Seq<Vec<Transition>>, x: Seq<TransitionModel>) -> bool {
    exists|i: int| 0 <= i < s.len() && run_view(#[trigger] s[i]@) == x
}

/// Membership among the held runs survives appending another run.
pub proof fn lemma_holds_run_push(s: Seq<Vec<Transition>>, v: Vec<Transition>, x: Seq<
    TransitionModel,
>)
    requires
        holds_run(s, x),
    ensures
        holds_run(s.push(v), x),
{
    let i = choose|i: int| 0 <= i < s.len() && run_view(#[trigger] s[i]@) == x;
    assert(s.push(v)[i] == s[i]);
}

/// `t1` is one of the fine transitions recorded for the coarse transition
/// `t2` (looked up with the weight forced neutral).
pub open spec fn lifted_at(
    m: Seq<(TransitionModel, Seq<TransitionModel>)>,
    t2: TransitionModel,
    t1: TransitionModel,
) -> bool {
    match lookup_model(m, normalize(t2)) {
        Some(v) => v.contains(t1),
        None => false,
    }
}

/// The number of candidate fine runs of a coarse run: the product, over
/// its members, of the number of fine transitions recorded for each.
pub open spec fn lift_count(
    m: Seq<(TransitionModel, Seq<TransitionModel>)>,
    run2: Seq<TransitionModel>,
) -> nat
    decreases run2.len(),
{
    if run2.len() == 0 {
        1nat
    } else {
        lift_count(m, run2.drop_last()) * (match lookup_model(m, normalize(run2.last())) {
            Some(v) => v.len(),
            None => 0nat,
        })
    }
}

/// `run1` lifts the coarse run `run2`: it has the same length and each of
/// its members is recorded for the corresponding coarse member.
pub open spec fn lifts_to(
    m: Seq<(TransitionModel, Seq<TransitionModel>)>,
    run2: Seq<TransitionModel>,
    run1: Seq<TransitionModel>,
) -> bool {
    &&& run1.len() == run2.len()
    &&& forall|i: int| 0 <= i < run2.len() ==> #[trigger] lifted_at(m, run2[i], run1[i])
}

/// Extending a lift of a prefix by a recorded fine transition lifts the
/// longer prefix.
pub proof fn lemma_lifts_push(
    m: Seq<(TransitionModel, Seq<TransitionModel>)>,
    run2: Seq<TransitionModel>,
    si: int,
    c: Seq<TransitionModel>,
    t1: TransitionModel,
)
    requires
        0 <= si < run2.len(),
        lifts_to(m, run2.take(si), c),
        lifted_at(m, run2[si], t1),
    ensures
        lifts_to(m, run2.take(si + 1), c.push(t1)),
{
    assert forall|i: int| 0 <= i < run2.take(si + 1).len() implies #[trigger] lifted_at(
        m,
        run2.take(si + 1)[i],
        c.push(t1)[i],
    ) by {
        if i < si {
            assert(lifted_at(m, run2.take(si)[i], c[i]));
        }
    }
}

/// A lift of a prefix splits into a lift of the shorter prefix and a
/// recorded fine transition for the last coarse member.
pub proof fn lemma_lifts_unpush(
    m: Seq<(TransitionModel, Seq<TransitionModel>)>,
    run2: Seq<TransitionModel>,
    si: int,
    c: Seq<TransitionModel>,
)
    requires
        0 <= si < run2.len(),
        lifts_to(m, run2.take(si + 1), c),
    ensures
        c.len() == si + 1,
        lifts_to(m, run2.take(si), c.drop_last()),
        lifted_at(m, run2[si], c.last()),
    {
    assert forall|i: int| 0 <= i < run2.take(si).len() implies #[trigger] lifted_at(
        m,
        run2.take(si)[i],
        c.drop_last()[i],
    ) by {
        assert(lifted_at(m, run2.take(si + 1)[i], c[i]));
    }
    assert(lifted_at(m, run2.take(si + 1)[si], c[si]));
}

/// The stateful bookkeeping of one approximation run: remembers, for every
/// coarse transition produced, the fine transitions that collapsed onto it,
/// keyed with the weight forced neutral.
pub struct ApproximationInstance {
    reverse_transition_map: Vec<(Transition, Vec<Transition>)>,
    strategy: AnyStrategy,
}

impl ApproximationInstance {
    /// The value of the reverse map.
    pub closed spec fn map_model(&self) -> Seq<(TransitionModel, Seq<TransitionModel>)> {
        entries_view(self.reverse_transition_map@)
    }

    /// The strategy this instance was created from.
    pub closed spec fn strategy_model(&self) -> StrategyModel {
        self.strategy@
    }

    /// The reverse map is well formed.
    pub open spec fn wf(&self) -> bool {
        entries_wf(self.map_model())
    }

    /// Creates an instance with an empty reverse map.
    pub fn new(strategy: AnyStrategy) -> (r: Self)
        ensures
            r.map_model().len() == 0,
            r.strategy_model() == strategy@,
            r.wf(),
    {
        let r = ApproximationInstance { reverse_transition_map: Vec::new(), strategy };
        proof {
            assert(r.map_model() =~= Seq::<(TransitionModel, Seq<TransitionModel>)>::empty());
        }
        r
    }

    /// Maps a storage through the instance's strategy.
    pub fn approximate_storage(&self, s: &Vec<u64>) -> (r: Vec<u64>)
        ensures
            r@ == storage_model_of(self.strategy_model(), s@),
    {
        self.strategy.approximate_storage(s)
    }

    /// Maps an instruction through the instance's strategy.
    pub fn approximate_instruction(&self, i: &PushDownInstruction) -> (r: PushDownInstruction)
        ensures
            r@ == instruction_model_of(self.strategy_model(), i@),
    {
        self.strategy.approximate_instruction(i)
    }

    /// Finds the index of the entry stored under the value of `key`.
    fn find_key(&self, key: &Transition) -> (r: Option<usize>)
        ensures
            (r matches Some(i) ==> i < self.map_model().len() && self.map_model()[i as int].0
                == key@ && (forall|j: int|
                0 <= j < i ==> (#[trigger] self.map_model()[j]).0 != key@)),
            (r is None ==> forall|i: int|
                0 <= i < self.map_model().len() ==> (#[trigger] self.map_model()[i]).0 != key@),
    {
        let mut i: usize = 0;
        while i < self.reverse_transition_map.len()
            invariant
                i <= self.reverse_transition_map@.len(),
                self.map_model().len() == self.reverse_transition_map@.len(),
                forall|j: int| 0 <= j < i ==> (#[trigger] self.map_model()[j]).0 != key@,
            decreases self.reverse_transition_map.len() - i,
        {
            proof {
                assert(self.map_model()[i as int] == (
                    self.reverse_transition_map@[i as int].0@,
                    run_view(self.reverse_transition_map@[i as int].1@),
                ));
            }
            if transitions_eq(&self.reverse_transition_map[i].0, key) {
                return Some(i);
            }
            i = i + 1;
        }
        None
    }

    /// Records the correspondence between a fine transition and its coarse
    /// image, and returns the coarse transition, carrying the fine weight.
    ///
    /// The reverse map gains `t1` at the key of the coarse transition with
    /// its weight forced neutral; all other keys are untouched.
    pub fn approximate_transition(&mut self, t1: &Transition) -> (t2: Transition)
        requires
            old(self).wf(),
        ensures
            final(self).wf(),
            final(self).strategy_model() == old(self).strategy_model(),
            t2@ == (TransitionModel {
                word: t1@.word,
                weight: t1@.weight,
                instruction: instruction_model_of(old(self).strategy_model(), t1@.instruction),
            }),
            ({
                let k = approx_key(old(self).strategy_model(), t1@);
                &&& lookup_model(final(self).map_model(), k) == Some(
                    (match lookup_model(old(self).map_model(), k) {
                        Some(v) => v,
                        None => Seq::<TransitionModel>::empty(),
                    }).push(t1@),
                )
                &&& forall|k2: TransitionModel|
                    k2 != k ==> #[trigger] lookup_model(final(self).map_model(), k2)
                        == lookup_model(old(self).map_model(), k2)
            }),
    {
        let ghost k = approx_key(self.strategy@, t1@);
        let instr2 = self.strategy.approximate_instruction(&t1.instruction);
        let key = Transition { word: t1.word.clone(), weight: 1u64, instruction: instr2.clone() };
        proof {
            assert(key@ =~= k);
            lemma_lookup_char(self.map_model(), k);
        }
        match self.find_key(&key) {
            Some(i) => {
                let ghost m0 = self.map_model();
                let mut pair = self.reverse_transition_map.swap_remove(i);
                pair.1.push(t1.clone());
                proof {
                    crate::recognisable::lemma_run_view_push(
                        old(self).reverse_transition_map@[i as int].1@,
                        *t1,
                    );
                }
                self.reverse_transition_map.push(pair);
                proof {
                    let m1 = self.map_model();
                    assert(m1.len() == m0.len());
                    assert forall|j: int| 0 <= j < m1.len() implies #[trigger] m1[j] == (if j
                        == m1.len() - 1 {
                        (k, m0[i as int].1.push(t1@))
                    } else if j == i && i < m1.len() - 1 {
                        m0[m0.len() - 1]
                    } else {
                        m0[j]
                    }) by {
                        assert(m1[j] == (
                            self.reverse_transition_map@[j].0@,
                            run_view(self.reverse_transition_map@[j].1@),
                        ));
                        if j < m1.len() - 1 {
                            assert(m0[j] == (
                                old(self).reverse_transition_map@[j].0@,
                                run_view(old(self).reverse_transition_map@[j].1@),
                            ));
                            assert(m0[m0.len() - 1] == (
                                old(self).reverse_transition_map@[m0.len() - 1].0@,
                                run_view(old(self).reverse_transition_map@[m0.len() - 1].1@),
                            ));
                        }
                    }
                    let last = m1.len() - 1;
                    assert(m0[i as int].0 == k);
                    assert(m1[last] == (k, m0[i as int].1.push(t1@)));
                    assert forall|a: int, b: int| 0 <= a < b < m1.len() implies (
                    #[trigger] m1[a]).0 != (#[trigger] m1[b]).0 by {
                        let ia = if a == last {
                            i as int
                        } else if a == i && i < last {
                            m0.len() - 1
                        } else {
                            a
                        };
                        let ib = if b == last {
                            i as int
                        } else if b == i && i < last {
                            m0.len() - 1
                        } else {
                            b
                        };
                        assert(m1[a].0 == m0[ia].0);
                        assert(m1[b].0 == m0[ib].0);
                        assert(ia != ib);
                        if ia < ib {
                            assert(m0[ia].0 != m0[ib].0);
                        } else {
                            assert(m0[ib].0 != m0[ia].0);
                        }
                    }
                    assert forall|a: int| 0 <= a < m1.len() implies (#[trigger] m1[a]).0.weight
                        == 1u64 by {
                        let ia = if a == last {
                            i as int
                        } else if a == i && i < last {
                            m0.len() - 1
                        } else {
                            a
                        };
                        assert(m1[a].0 == m0[ia].0);
                        assert(m0[ia].0.weight == 1u64);
                    }
                    assert(entries_wf(m1));
                    assert forall|j: int| 0 <= j < last implies (#[trigger] m1[j]).0 != k by {
                        let ij = if j == i && i < last {
                            m0.len() - 1
                        } else {
                            j
                        };
                        assert(m1[j].0 == m0[ij].0);
                        assert(ij != i);
                        if ij < i {
                            assert(m0[ij].0 != m0[i as int].0);
                        } else {
                            assert(m0[i as int].0 != m0[ij].0);
                        }
                    }
                    lemma_lookup_first(m1, k, last);
                    assert(lookup_model(m1, k) == Some(m0[i as int].1.push(t1@)));
                    assert(lookup_model(m0, k) == Some(m0[i as int].1));
                    assert forall|k2: TransitionModel| k2 != k implies #[trigger] lookup_model(
                        m1,
                        k2,
                    ) == lookup_model(m0, k2) by {
                        lemma_lookup_char(m0, k2);
                        lemma_lookup_char(m1, k2);
                        if lookup_model(m0, k2) is Some {
                            let v = lookup_model(m0, k2).unwrap();
                            let j0 = choose|j: int|
                                0 <= j < m0.len() && (#[trigger] m0[j]).0 == k2 && m0[j].1 == v;
                            assert(j0 != i);
                            if j0 == m0.len() - 1 && i < last {
                                assert(m1[i as int] == m0[j0]);
                                assert(lookup_model(m1, k2) == Some(m1[i as int].1));
                            } else {
                                assert(m1[j0] == m0[j0]);
                                assert(lookup_model(m1, k2) == Some(m1[j0].1));
                            }
                        } else {
                            assert forall|j: int| 0 <= j < m1.len() implies (#[trigger] m1[j]).0
                                != k2 by {
                                let ij = if j == last {
                                    i as int
                                } else if j == i && i < last {
                                    m0.len() - 1
                                } else {
                                    j
                                };
                                assert(m1[j].0 == m0[ij].0);
                            }
                            assert(lookup_model(m1, k2) is None);
                        }
                    }
                }
            },
            None => {
                let ghost m0 = self.map_model();
                let mut l: Vec<Transition> = Vec::new();
                l.push(t1.clone());
                proof {
                    assert(run_view(l@) =~= Seq::<TransitionModel>::empty().push(t1@));
                }
                self.reverse_transition_map.push((key, l));
                proof {
                    let m1 = self.map_model();
                    assert forall|j: int| 0 <= j < m1.len() implies #[trigger] m1[j] == (if j
                        == m1.len() - 1 {
                        (k, Seq::<TransitionModel>::empty().push(t1@))
                    } else {
                        m0[j]
                    }) by {
                        assert(m1[j] == (
                            self.reverse_transition_map@[j].0@,
                            run_view(self.reverse_transition_map@[j].1@),
                        ));
                        if j < m1.len() - 1 {
                            assert(m0[j] == (
                                old(self).reverse_transition_map@[j].0@,
                                run_view(old(self).reverse_transition_map@[j].1@),
                            ));
                        }
                    }
                    let last = m1.len() - 1;
                    assert(m1[last] == (k, Seq::<TransitionModel>::empty().push(t1@)));
                    assert(k.weight == 1u64);
                    assert forall|a: int, b: int| 0 <= a < b < m1.len() implies (
                    #[trigger] m1[a]).0 != (#[trigger] m1[b]).0 by {
                        if b < last {
                            assert(m1[a] == m0[a] && m1[b] == m0[b]);
                        } else {
                            assert(m1[a] == m0[a]);
                            assert(m0[a].0 != k);
                        }
                    }
                    assert forall|a: int| 0 <= a < m1.len() implies (#[trigger] m1[a]).0.weight
                        == 1u64 by {
                        if a < last {
                            assert(m1[a] == m0[a]);
                        }
                    }
                    assert(entries_wf(m1));
                    assert(forall|j: int| 0 <= j < last ==> (#[trigger] m1[j]).0 != k);
                    lemma_lookup_first(m1, k, last);
                    assert(lookup_model(m1, k) == Some(
                        Seq::<TransitionModel>::empty().push(t1@),
                    ));
                    lemma_lookup_char(m0, k);
                    assert(lookup_model(m0, k) is None);
                    assert forall|k2: TransitionModel| k2 != k implies #[trigger] lookup_model(
                        m1,
                        k2,
                    ) == lookup_model(m0, k2) by {
                        lemma_lookup_char(m0, k2);
                        lemma_lookup_char(m1, k2);
                        if lookup_model(m0, k2) is Some {
                            let v = lookup_model(m0, k2).unwrap();
                            let j0 = choose|j: int|
                                0 <= j < m0.len() && (#[trigger] m0[j]).0 == k2 && m0[j].1 == v;
                            assert(m1[j0] == m0[j0]);
                            assert(lookup_model(m1, k2) == Some(m1[j0].1));
                        } else {
                            assert forall|j: int| 0 <= j < m1.len() implies (#[trigger] m1[j]).0
                                != k2 by {
                                if j < last {
                                    assert(m1[j] == m0[j]);
                                }
                            }
                            assert(lookup_model(m1, k2) is None);
                        }
                    }
                }
            },
        }
        let t2 = Transition {
            word: t1.word.clone(),
            weight: t1.weight,
            instruction: instr2,
        };
        proof {
            assert(t2@ =~= (TransitionModel {
                word: t1@.word,
                weight: t1@.weight,
                instruction: instruction_model_of(old(self).strategy_model(), t1@.instruction),
            }));
        }
        t2
    }

    /// Reconstructs all candidate fine runs of a coarse run: the cartesian
    /// product, over the coarse run's members in application order, of each
    /// member's recorded fine transitions.  The result holds exactly the
    /// runs that lift the coarse run; a member with no recorded fine
    /// counterpart leaves it empty.
    pub fn unapproximate_run(&self, run2: &Vec<Transition>) -> (r: Vec<Vec<Transition>>)
        ensures
            forall|i: int|
                0 <= i < r@.len() ==> lifts_to(
                    self.map_model(),
                    run_view(run2@),
                    run_view(#[trigger] r@[i]@),
                ),
            forall|c: Seq<TransitionModel>|
                #[trigger] lifts_to(self.map_model(), run_view(run2@), c) ==> holds_run(r@, c),
            r@.len() == lift_count(self.map_model(), run_view(run2@)),
    {
        let ghost m = self.map_model();
        let ghost rv2 = run_view(run2@);
        let mut runs: Vec<Vec<Transition>> = Vec::new();
        runs.push(Vec::new());
        proof {
            assert(run_view(runs@[0]@) =~= Seq::<TransitionModel>::empty());
            assert(rv2.take(0) =~= Seq::<TransitionModel>::empty());
            assert(runs@.len() == lift_count(m, rv2.take(0)));
            assert forall|c: Seq<TransitionModel>| #[trigger] lifts_to(
                m,
                rv2.take(0),
                c,
            ) implies holds_run(runs@, c) by {
                assert(c.len() == 0);
                assert(run_view(runs@[0]@) =~= c);
            }
        }
        let mut si: usize = 0;
        while si < run2.len()
            invariant
                si <= run2@.len(),
                rv2 == run_view(run2@),
                m == self.map_model(),
                rv2.len() == run2@.len(),
                forall|i: int|
                    0 <= i < runs@.len() ==> lifts_to(
                        m,
                        rv2.take(si as int),
                        run_view(#[trigger] runs@[i]@),
                    ),
                forall|c: Seq<TransitionModel>|
                    #[trigger] lifts_to(m, rv2.take(si as int), c) ==> holds_run(runs@, c),
                runs@.len() == lift_count(m, rv2.take(si as int)),
            decreases run2.len() - si,
        {
            let ts1 = self.unapproximate_transition(&run2[si]);
            let ghost tv1 = run_view(ts1@);
            proof {
                assert(rv2[si as int] == run2@[si as int]@);
            }
            let mut new_runs: Vec<Vec<Transition>> = Vec::new();
            let mut ai: usize = 0;
            while ai < runs.len()
                invariant
                    ai <= runs@.len(),
                    rv2 == run_view(run2@),
                    si < rv2.len(),
                    m == self.map_model(),
                    tv1 == run_view(ts1@),
                    tv1 == (match lookup_model(m, normalize(rv2[si as int])) {
                        Some(v) => v,
                        None => Seq::<TransitionModel>::empty(),
                    }),
                    forall|i: int|
                        0 <= i < runs@.len() ==> lifts_to(
                            m,
                            rv2.take(si as int),
                            run_view(#[trigger] runs@[i]@),
                        ),
                    forall|i: int|
                        0 <= i < new_runs@.len() ==> lifts_to(
                            m,
                            rv2.take(si + 1),
                            run_view(#[trigger] new_runs@[i]@),
                        ),
                    forall|a: int, b: int|
                        0 <= a < ai && 0 <= b < tv1.len() ==> #[trigger] holds_run(
                            new_runs@,
                            run_view(runs@[a]@).push(tv1[b]),
                        ),
                    new_runs@.len() == ai * tv1.len(),
                decreases runs.len() - ai,
            {
                let mut bi: usize = 0;
                while bi < ts1.len()
                    invariant
                        bi <= ts1@.len(),
                        ai < runs@.len(),
                        rv2 == run_view(run2@),
                        si < rv2.len(),
                        m == self.map_model(),
                        tv1 == run_view(ts1@),
                        tv1 == (match lookup_model(m, normalize(rv2[si as int])) {
                            Some(v) => v,
                            None => Seq::<TransitionModel>::empty(),
                        }),
                        forall|i: int|
                            0 <= i < runs@.len() ==> lifts_to(
                                m,
                                rv2.take(si as int),
                                run_view(#[trigger] runs@[i]@),
                            ),
                        forall|i: int|
                            0 <= i < new_runs@.len() ==> lifts_to(
                                m,
                                rv2.take(si + 1),
                                run_view(#[trigger] new_runs@[i]@),
                            ),
                        forall|a: int, b: int|
                            0 <= a < ai && 0 <= b < tv1.len() ==> #[trigger] holds_run(
                                new_runs@,
                                run_view(runs@[a]@).push(tv1[b]),
                            ),
                        forall|b: int|
                            0 <= b < bi ==> #[trigger] holds_run(
                                new_runs@,
                                run_view(runs@[ai as int]@).push(tv1[b]),
                            ),
                        new_runs@.len() == ai * tv1.len() + bi,
                    decreases ts1.len() - bi,
                {
                    let mut extended = clone_run(&runs[ai]);
                    extended.push(ts1[bi].clone());
                    proof {
                        crate::recognisable::lemma_run_view_push(runs@[ai as int]@, ts1@[bi as int]);
                        assert(run_view(extended@) =~= run_view(runs@[ai as int]@).push(
                            tv1[bi as int],
                        ));
                        assert(tv1.contains(tv1[bi as int]));
                        assert(lifted_at(m, rv2[si as int], tv1[bi as int]));
                        lemma_lifts_push(
                            m,
                            rv2,
                            si as int,
                            run_view(runs@[ai as int]@),
                            tv1[bi as int],
                        );
                    }
                    let ghost prev_new = new_runs@;
                    new_runs.push(extended);
                    proof {
                        let pushed = new_runs@[new_runs@.len() - 1];
                        assert(new_runs@ == prev_new.push(pushed));
                        assert forall|a: int, b: int|
                            0 <= a < ai && 0 <= b < tv1.len() implies #[trigger] holds_run(
                            new_runs@,
                            run_view(runs@[a]@).push(tv1[b]),
                        ) by {
                            assert(holds_run(prev_new, run_view(runs@[a]@).push(tv1[b])));
                            lemma_holds_run_push(prev_new, pushed, run_view(runs@[a]@).push(
                                tv1[b],
                            ));
                        }
                        assert forall|b: int| 0 <= b < bi + 1 implies #[trigger] holds_run(
                            new_runs@,
                            run_view(runs@[ai as int]@).push(tv1[b]),
                        ) by {
                            if b < bi {
                                assert(holds_run(
                                    prev_new,
                                    run_view(runs@[ai as int]@).push(tv1[b]),
                                ));
                                lemma_holds_run_push(
                                    prev_new,
                                    pushed,
                                    run_view(runs@[ai as int]@).push(tv1[b]),
                                );
                            } else {
                                assert(run_view(new_runs@[new_runs@.len() - 1]@) == run_view(
                                    runs@[ai as int]@,
                                ).push(tv1[b]));
                            }
                        }
                    }
                    bi = bi + 1;
                }
                proof {
                    assert(tv1.len() == ts1@.len());
                    assert((ai + 1) * tv1.len() == ai * tv1.len() + tv1.len()) by (nonlinear_arith);
                }
                ai = ai + 1;
            }
            let ghost prev_runs = runs@;
            runs = new_runs;
            proof {
                assert(rv2.take(si + 1).drop_last() =~= rv2.take(si as int));
                assert(rv2.take(si + 1).last() == rv2[si as int]);
                assert(lift_count(m, rv2.take(si + 1)) == lift_count(m, rv2.take(si as int))
                    * tv1.len());
                assert(runs@.len() == lift_count(m, rv2.take(si + 1))) by {
                    assert(prev_runs.len() * tv1.len() == lift_count(m, rv2.take(si as int))
                        * tv1.len()) by (nonlinear_arith)
                        requires
                            prev_runs.len() == lift_count(m, rv2.take(si as int)),
                    ;
                }
                assert forall|c: Seq<TransitionModel>| #[trigger] lifts_to(
                    m,
                    rv2.take(si + 1),
                    c,
                ) implies holds_run(runs@, c) by {
                    lemma_lifts_unpush(m, rv2, si as int, c);
                    let cp = c.drop_last();
                    assert(lifts_to(m, rv2.take(si as int), cp));
                    assert(holds_run(prev_runs, cp));
                    let a = choose|i: int|
                        0 <= i < prev_runs.len() && run_view(#[trigger] prev_runs[i]@) == cp;
                    assert(lifted_at(m, rv2[si as int], c.last()));
                    assert(tv1.contains(c.last()));
                    let b = choose|b: int| 0 <= b < tv1.len() && tv1[b] == c.last();
                    assert(holds_run(runs@, run_view(prev_runs[a]@).push(tv1[b])));
                    assert(run_view(prev_runs[a]@).push(tv1[b]) =~= c);
                }
            }
            si = si + 1;
        }
        proof {
            assert(rv2.take(rv2.len() as int) =~= rv2);
        }
        runs
    }

    /// The fine transitions recorded for a coarse transition: the query's
    /// weight is forced neutral, and an absent key yields the empty
    /// sequence — a dead end, not an error.
    pub fn unapproximate_transition(&self, t2: &Transition) -> (r: Vec<Transition>)
        ensures
            run_view(r@) == (match lookup_model(self.map_model(), normalize(t2@)) {
                Some(v) => v,
                None => Seq::<TransitionModel>::empty(),
            }),
    {
        let key = Transition {
            word: t2.word.clone(),
            weight: 1u64,
            instruction: t2.instruction.clone(),
        };
        proof {
            assert(key@ =~= normalize(t2@));
            lemma_lookup_char(self.map_model(), normalize(t2@));
        }
        match self.find_key(&key) {
            Some(i) => {
                proof {
                    lemma_lookup_first(self.map_model(), normalize(t2@), i as int);
                    assert(self.map_model()[i as int] == (
                        self.reverse_transition_map@[i as int].0@,
                        run_view(self.reverse_transition_map@[i as int].1@),
                    ));
                }
                clone_run(&self.reverse_transition_map[i].1)
            },
            None => {
                let r: Vec<Transition> = Vec::new();
                proof {
                    assert(run_view(r@) =~= Seq::<TransitionModel>::empty());
                }
                r
            },
        }
    }
}

/// The instruction with its alphabet of legal values replaced by `a`; a
/// plain `Replace` is untouched.
pub open spec fn fill_poss(i: InstructionModel, a: Seq<u64>) -> InstructionModel {
    match i {
        InstructionModel::Replace { .. } => i,
        InstructionModel::ReplaceK { current_val, new_val, limit, .. } =>
            InstructionModel::ReplaceK { current_val, new_val, limit, possible_values: a },
    }
}

/// The instruction with its alphabet emptied.
pub open spec fn clear_poss(i: InstructionModel) -> InstructionModel {
    fill_poss(i, Seq::<u64>::empty())
}

/// The transition with its instruction's alphabet replaced by `a`.
pub open spec fn fill_poss_key(t: TransitionModel, a: Seq<u64>) -> TransitionModel {
    TransitionModel { word: t.word, weight: t.weight, instruction: fill_poss(t.instruction, a) }
}

/// The reverse-map key of a transition, with the alphabet ignored: its
/// word, a neutral weight, and its instruction with the alphabet emptied.
pub open spec fn strip_key(t: TransitionModel) -> TransitionModel {
    TransitionModel { word: t.word, weight: 1u64, instruction: clear_poss(t.instruction) }
}

impl ApproximationInstance {
    /// Migrates every reverse-map entry from its key to the same key with
    /// the completed alphabet `a` — the rekeying that the two-pass top-k
    /// construction needs after rewriting the coarse transitions.
    pub fn set_possible_values(&mut self, a: &Vec<u64>)
        requires
            old(self).wf(),
            forall|x: int|
                0 <= x < old(self).map_model().len() ==> clear_poss(
                    (#[trigger] old(self).map_model()[x]).0.instruction,
                ) == old(self).map_model()[x].0.instruction,
        ensures
            final(self).wf(),
            final(self).strategy_model() == old(self).strategy_model(),
            final(self).map_model().len() == old(self).map_model().len(),
            forall|x: int|
                0 <= x < old(self).map_model().len() ==> #[trigger] final(self).map_model()[x] == (
                fill_poss_key(old(self).map_model()[x].0, a@),
                old(self).map_model()[x].1,
                ),
    {
        let ghost m0 = self.map_model();
        let mut entries: Vec<(Transition, Vec<Transition>)> = Vec::new();
        let mut x: usize = 0;
        while x < self.reverse_transition_map.len()
            invariant
                x <= self.reverse_transition_map@.len(),
                m0 == entries_view(self.reverse_transition_map@),
                m0.len() == self.reverse_transition_map@.len(),
                entries_view(entries@).len() == x as int,
                forall|y: int|
                    0 <= y < x ==> #[trigger] entries_view(entries@)[y] == (
                    fill_poss_key(m0[y].0, a@),
                    m0[y].1,
                    ),
            decreases self.reverse_transition_map.len() - x,
        {
            let pair = &self.reverse_transition_map[x];
            let key = &pair.0;
            let new_key = match &key.instruction {
                PushDownInstruction::Replace { .. } => key.clone(),
                PushDownInstruction::ReplaceK { current_val, new_val, limit, .. } => Transition {
                    word: key.word.clone(),
                    weight: key.weight,
                    instruction: PushDownInstruction::ReplaceK {
                        current_val: current_val.clone(),
                        new_val: new_val.clone(),
                        limit: *limit,
                        possible_values: a.clone(),
                    },
                },
            };
            proof {
                assert(m0[x as int] == (
                    self.reverse_transition_map@[x as int].0@,
                    run_view(self.reverse_transition_map@[x as int].1@),
                ));
                assert(new_key@ =~= fill_poss_key(m0[x as int].0, a@));
            }
            let values = clone_run(&pair.1);
            let ghost prev_entries = entries@;
            entries.push((new_key, values));
            proof {
                assert forall|y: int| 0 <= y < x + 1 implies #[trigger] entries_view(entries@)[y]
                    == (fill_poss_key(m0[y].0, a@), m0[y].1) by {
                    assert(entries_view(entries@)[y] == (entries@[y].0@, run_view(entries@[y].1@)));
                    if y < x {
                        assert(entries@[y] == prev_entries[y]);
                        assert(entries_view(prev_entries)[y] == (
                            prev_entries[y].0@,
                            run_view(prev_entries[y].1@),
                        ));
                    }
                }
            }
            x = x + 1;
        }
        self.reverse_transition_map = entries;
        proof {
            let m1 = self.map_model();
            assert forall|u: int, v: int| 0 <= u < v < m1.len() implies (#[trigger] m1[u]).0 != (
            #[trigger] m1[v]).0 by {
                assert(m1[u] == (fill_poss_key(m0[u].0, a@), m0[u].1));
                assert(m1[v] == (fill_poss_key(m0[v].0, a@), m0[v].1));
                if m1[u].0 == m1[v].0 {
                    assert(clear_poss(fill_poss(m0[u].0.instruction, a@)) == clear_poss(
                        m0[u].0.instruction,
                    ));
                    assert(clear_poss(fill_poss(m0[v].0.instruction, a@)) == clear_poss(
                        m0[v].0.instruction,
                    ));
                    assert(m0[u].0 =~= m0[v].0);
                }
            }
            assert forall|u: int| 0 <= u < m1.len() implies (#[trigger] m1[u]).0.weight
                == 1u64 by {
                assert(m1[u] == (fill_poss_key(m0[u].0, a@), m0[u].1));
            }
        }
    }
}

impl Clone for ApproximationInstance {
    /// Cloning preserves the reverse map and the strategy.
    fn clone(&self) -> (r: Self)
        ensures
            r.map_model() == self.map_model(),
            r.strategy_model() == self.strategy_model(),
    {
        let mut entries: Vec<(Transition, Vec<Transition>)> = Vec::new();
        let mut i: usize = 0;
        while i < self.reverse_transition_map.len()
            invariant
                i <= self.reverse_transition_map@.len(),
                entries_view(entries@).len() == i as int,
                forall|j: int|
                    0 <= j < i ==> #[trigger] entries_view(entries@)[j] == entries_view(
                        self.reverse_transition_map@,
                    )[j],
            decreases self.reverse_transition_map.len() - i,
        {
            let pair = &self.reverse_transition_map[i];
            let cloned = (pair.0.clone(), clone_run(&pair.1));
            let ghost prev = entries@;
            entries.push(cloned);
            proof {
                assert forall|j: int| 0 <= j < i + 1 implies #[trigger] entries_view(entries@)[j]
                    == entries_view(self.reverse_transition_map@)[j] by {
                    assert(entries_view(entries@)[j] == (entries@[j].0@, run_view(entries@[j].1@)));
                    assert(entries_view(self.reverse_transition_map@)[j] == (
                        self.reverse_transition_map@[j].0@,
                        run_view(self.reverse_transition_map@[j].1@),
                    ));
                    if j < i {
                        assert(entries@[j] == prev[j]);
                        assert(entries_view(prev)[j] == (prev[j].0@, run_view(prev[j].1@)));
                    }
                }
            }
            i = i + 1;
        }
        let r = ApproximationInstance {
            reverse_transition_map: entries,
            strategy: self.strategy.clone(),
        };
        proof {
            assert(r.map_model() =~= self.map_model());
        }
        r
    }
}

/// The grouped-coarse-automaton contract: the coarse automaton's initial
/// storage is the approximated fine one; its transitions carry, for each
/// (word, coarse instruction) pair that some fine transition collapses
/// onto, exactly the summed weight of that group — the weight-grouping
/// invariant — with no duplicate pairs; and the instance's reverse map
/// records exactly the groups.
pub open spec fn approximation_result_ok(
    st: StrategyModel,
    fine: crate::recognisable::automaton::AutomatonModel,
    coarse: crate::recognisable::automaton::AutomatonModel,
    inst: ApproximationInstance,
) -> bool {
    let fines = fine.transitions;
    &&& inst.wf()
    &&& inst.strategy_model() == st
    &&& forall|k: TransitionModel| #[trigger]
        lookup_model(inst.map_model(), k) == (if group_list(fines, st, k).len() > 0 {
            Some(group_list(fines, st, k))
        } else {
            None::<Seq<TransitionModel>>
        })
    &&& coarse.initial == storage_model_of(st, fine.initial)
    &&& forall|j: int|
        0 <= j < coarse.transitions.len() ==> ((#[trigger] coarse.transitions[j]).weight
            == group_sum(fines, st, normalize(coarse.transitions[j])) && group_list(
            fines,
            st,
            normalize(coarse.transitions[j]),
        ).len() > 0)
    &&& forall|j1: int, j2: int|
        0 <= j1 < j2 < coarse.transitions.len() ==> normalize(#[trigger] coarse.transitions[j1])
            != normalize(#[trigger] coarse.transitions[j2])
    &&& forall|a: int|
        0 <= a < fines.len() ==> has_normkey(coarse.transitions, approx_key(st, #[trigger] fines[a]))
    &&& instance_ok(inst.map_model(), fines, coarse.transitions)
}

/// Approximates a whole automaton: computes each fine transition's coarse
/// image, records the correspondence in the reverse map, groups the coarse
/// candidates by (word, instruction) and sums the weights within each
/// group, and approximates the initial storage.
pub fn approximate_automaton(strategy: AnyStrategy, automaton1: &PushDownAutomaton) -> (r: (
    PushDownAutomaton,
    ApproximationInstance,
))
    ensures
        approximation_result_ok(strategy@, automaton1@, r.0@, r.1),
{
    let ghost st = strategy@;
    let ghost fines = automaton1@.transitions;
    let mut instance = ApproximationInstance::new(strategy);
    let mut grouped: Vec<Transition> = Vec::new();
    let trans = automaton1.transitions();
    proof {
        assert(fines.take(0) =~= Seq::<TransitionModel>::empty());
    }
    let mut i: usize = 0;
    while i < trans.len()
        invariant
            i <= trans@.len(),
            run_view(trans@) == fines,
            fines.len() == trans@.len(),
            instance.wf(),
            instance.strategy_model() == st,
            forall|k: TransitionModel| #[trigger]
                lookup_model(instance.map_model(), k) == (if group_list(
                    fines.take(i as int),
                    st,
                    k,
                ).len() > 0 {
                    Some(group_list(fines.take(i as int), st, k))
                } else {
                    None::<Seq<TransitionModel>>
                }),
            forall|j: int|
                0 <= j < grouped@.len() ==> ((#[trigger] run_view(grouped@)[j]).weight
                    == group_sum(fines.take(i as int), st, normalize(run_view(grouped@)[j]))
                    && group_list(
                    fines.take(i as int),
                    st,
                    normalize(run_view(grouped@)[j]),
                ).len() > 0),
            forall|j1: int, j2: int|
                0 <= j1 < j2 < grouped@.len() ==> normalize(#[trigger] run_view(grouped@)[j1])
                    != normalize(#[trigger] run_view(grouped@)[j2]),
            forall|a: int|
                0 <= a < i ==> has_normkey(run_view(grouped@), approx_key(st, #[trigger] fines[a])),
        decreases trans.len() - i,
    {
        let t = &trans[i];
        proof {
            assert(run_view(trans@)[i as int] == trans@[i as int]@);
        }
        let t2 = instance.approximate_transition(t);
        let ghost t2v = t2@;
        let ghost key = approx_key(st, fines[i as int]);
        proof {
            assert(normalize(t2v) =~= key);
            assert forall|k: TransitionModel| #[trigger] lookup_model(instance.map_model(), k)
                == (if group_list(fines.take(i + 1), st, k).len() > 0 {
                Some(group_list(fines.take(i + 1), st, k))
            } else {
                None::<Seq<TransitionModel>>
            }) by {
                lemma_group_take_extend(fines, st, k, i as int);
            }
        }
        let mut j: usize = 0;
        let mut found: bool = false;
        while j < grouped.len() && !found
            invariant
                j <= grouped@.len(),
                t2v == t2@,
                normalize(t2v) == key,
                !found ==> forall|j2: int|
                    0 <= j2 < j ==> normalize(#[trigger] run_view(grouped@)[j2]) != key,
                found ==> j < grouped@.len() && normalize(run_view(grouped@)[j as int]) == key,
            decreases grouped.len() - j, (if found { 0int } else { 1int }),
        {
            proof {
                assert(run_view(grouped@)[j as int] == grouped@[j as int]@);
            }
            if symbols_eq(&grouped[j].word, &t2.word) && instructions_eq(
                &grouped[j].instruction,
                &t2.instruction,
            ) {
                found = true;
                proof {
                    assert(normalize(run_view(grouped@)[j as int]) =~= normalize(t2v));
                }
            } else {
                proof {
                    assert(normalize(run_view(grouped@)[j as int]).word == grouped@[j as int]@.word);
                    if normalize(run_view(grouped@)[j as int]) == key {
                        assert(grouped@[j as int]@.word == t2v.word);
                        assert(grouped@[j as int]@.instruction == t2v.instruction);
                    }
                }
                j = j + 1;
            }
        }
        let ghost g0 = grouped@;
        let ghost gv0 = run_view(grouped@);
        if found {
            let mut g = grouped.swap_remove(j);
            let ghost gmid = grouped@;
            g.weight = weight_add(g.weight, t2.weight);
            grouped.push(g);
            proof {
                let gv1 = run_view(grouped@);
                let last = gv1.len() - 1;
                assert(gv1.len() == gv0.len());
                assert forall|x: int| 0 <= x < gv1.len() implies #[trigger] gv1[x] == (if x == last {
                    TransitionModel {
                        word: gv0[j as int].word,
                        weight: w_add(gv0[j as int].weight, fines[i as int].weight),
                        instruction: gv0[j as int].instruction,
                    }
                } else if x == j && j < last {
                    gv0[gv0.len() - 1]
                } else {
                    gv0[x]
                }) by {
                    assert(gv1[x] == grouped@[x]@);
                    if x < last {
                        assert(gv0[x] == g0[x]@);
                        assert(grouped@[x] == gmid[x]);
                    }
                    assert(gv0[gv0.len() - 1] == g0[gv0.len() - 1]@);
                    if x == last {
                        assert(gv1[x] =~= (TransitionModel {
                            word: gv0[j as int].word,
                            weight: w_add(gv0[j as int].weight, fines[i as int].weight),
                            instruction: gv0[j as int].instruction,
                        }));
                    }
                }
                assert(normalize(gv1[last]) =~= normalize(gv0[j as int]));
                assert forall|x: int| 0 <= x < gv1.len() implies normalize(#[trigger] gv1[x]) == (
                if x == last {
                    key
                } else if x == j && j < last {
                    normalize(gv0[gv0.len() - 1])
                } else {
                    normalize(gv0[x])
                }) by {}
                assert forall|x: int, y: int| 0 <= x < y < gv1.len() implies normalize(
                    #[trigger] gv1[x],
                ) != normalize(#[trigger] gv1[y]) by {
                    let ix = if x == last {
                        j as int
                    } else if x == j && j < last {
                        gv0.len() - 1
                    } else {
                        x
                    };
                    let iy = if y == last {
                        j as int
                    } else if y == j && j < last {
                        gv0.len() - 1
                    } else {
                        y
                    };
                    assert(normalize(gv1[x]) == normalize(gv0[ix]));
                    assert(normalize(gv1[y]) == normalize(gv0[iy]));
                    assert(ix != iy);
                    if ix < iy {
                        assert(normalize(gv0[ix]) != normalize(gv0[iy]));
                    } else {
                        assert(normalize(gv0[iy]) != normalize(gv0[ix]));
                    }
                }
                assert forall|x: int| 0 <= x < gv1.len() implies ((#[trigger] gv1[x]).weight
                    == group_sum(fines.take(i + 1), st, normalize(gv1[x])) && group_list(
                    fines.take(i + 1),
                    st,
                    normalize(gv1[x]),
                ).len() > 0) by {
                    lemma_group_take_extend(fines, st, normalize(gv1[x]), i as int);
                    if x == last {
                        assert(gv1[x].weight == w_add(gv0[j as int].weight, fines[i as int].weight));
                    } else {
                        let ix = if x == j && j < last {
                            gv0.len() - 1
                        } else {
                            x
                        };
                        assert(gv1[x] == gv0[ix]);
                        assert(normalize(gv1[x]) != key) by {
                            assert(normalize(gv1[x]) != normalize(gv1[last]));
                        }
                    }
                }
                assert forall|a: int| 0 <= a < i + 1 implies has_normkey(
                    run_view(grouped@),
                    approx_key(st, #[trigger] fines[a]),
                ) by {
                    if a < i {
                        let w = choose|w: int|
                            0 <= w < gv0.len() && normalize(#[trigger] gv0[w]) == approx_key(
                                st,
                                fines[a],
                            );
                        let nw = if w == j {
                            last
                        } else if w == gv0.len() - 1 && j < last {
                            j as int
                        } else {
                            w
                        };
                        assert(normalize(gv1[nw]) == normalize(gv0[w]));
                    } else {
                        assert(normalize(gv1[last]) == key);
                    }
                }
            }
        } else {
            grouped.push(t2);
            proof {
                let gv1 = run_view(grouped@);
                let last = gv1.len() - 1;
                assert forall|x: int| 0 <= x < gv1.len() implies #[trigger] gv1[x] == (if x == last {
                    t2v
                } else {
                    gv0[x]
                }) by {
                    assert(gv1[x] == grouped@[x]@);
                    if x < last {
                        assert(gv0[x] == g0[x]@);
                        assert(grouped@[x] == g0[x]);
                    }
                }
                assert(group_list(fines.take(i as int), st, key).len() == 0) by {
                    if group_list(fines.take(i as int), st, key).len() > 0 {
                        let x = group_list(fines.take(i as int), st, key)[0];
                        assert(group_list(fines.take(i as int), st, key).contains(x));
                        lemma_group_props(fines.take(i as int), st, key);
                        assert(fines.take(i as int).contains(x));
                        let a = choose|a: int|
                            0 <= a < fines.take(i as int).len() && fines.take(i as int)[a] == x;
                        assert(fines[a] == x);
                        assert(has_normkey(gv0, approx_key(st, fines[a])));
                        let w = choose|w: int|
                            0 <= w < gv0.len() && normalize(#[trigger] gv0[w]) == approx_key(
                                st,
                                fines[a],
                            );
                        assert(normalize(gv0[w]) == key);
                    }
                }
                lemma_group_empty(fines.take(i as int), st, key);
                assert forall|x: int| 0 <= x < gv1.len() implies ((#[trigger] gv1[x]).weight
                    == group_sum(fines.take(i + 1), st, normalize(gv1[x])) && group_list(
                    fines.take(i + 1),
                    st,
                    normalize(gv1[x]),
                ).len() > 0) by {
                    lemma_group_take_extend(fines, st, normalize(gv1[x]), i as int);
                    if x == last {
                        assert(normalize(gv1[x]) == key);
                        assert(gv1[x].weight == fines[i as int].weight);
                        assert(w_add(0u64, fines[i as int].weight) == fines[i as int].weight);
                    } else {
                        assert(gv1[x] == gv0[x]);
                        assert(normalize(gv1[x]) != key) by {
                            if normalize(gv0[x]) == key {
                                assert(group_list(fines.take(i as int), st, key).len() > 0);
                            }
                        }
                    }
                }
                assert forall|x: int, y: int| 0 <= x < y < gv1.len() implies normalize(
                    #[trigger] gv1[x],
                ) != normalize(#[trigger] gv1[y]) by {
                    if y < last {
                        assert(gv1[x] == gv0[x] && gv1[y] == gv0[y]);
                    } else {
                        assert(gv1[x] == gv0[x]);
                        if normalize(gv0[x]) == key {
                            assert(group_list(fines.take(i as int), st, key).len() > 0);
                        }
                    }
                }
                assert forall|a: int| 0 <= a < i + 1 implies has_normkey(
                    run_view(grouped@),
                    approx_key(st, #[trigger] fines[a]),
                ) by {
                    if a < i {
                        let w = choose|w: int|
                            0 <= w < gv0.len() && normalize(#[trigger] gv0[w]) == approx_key(
                                st,
                                fines[a],
                            );
                        assert(normalize(gv1[w]) == normalize(gv0[w]));
                    } else {
                        assert(normalize(gv1[last]) == key);
                    }
                }
            }
        }
        i = i + 1;
    }
    proof {
        assert(fines.take(fines.len() as int) =~= fines);
    }
    let fine_initial = automaton1.initial();
    let initial2 = instance.approximate_storage(&fine_initial);
    let coarse = PushDownAutomaton::from_transitions(grouped, initial2);
    proof {
        let m = instance.map_model();
        let coarse_trans = coarse@.transitions;
        assert forall|t2: TransitionModel, t1: TransitionModel|
            coarse_trans.contains(t2) && #[trigger] lifted_at(m, t2, t1) implies fines.contains(t1)
            && t1.word == t2.word && t1.weight <= t2.weight by {
            let j = choose|j: int| 0 <= j < coarse_trans.len() && coarse_trans[j] == t2;
            let k = normalize(t2);
            assert(group_list(fines, st, k).len() > 0);
            assert(lookup_model(m, k) == Some(group_list(fines, st, k)));
            assert(group_list(fines, st, k).contains(t1));
            lemma_group_props(fines, st, k);
            assert(approx_key(st, t1) == k);
        }
    }
    (coarse, instance)
}

impl AnyStrategy {
    /// Approximates a whole automaton with this strategy: the top-k
    /// restriction runs its two-pass construction, every other strategy
    /// the default algorithm.
    pub fn approximate_automaton(self, automaton1: &PushDownAutomaton) -> (r: (
        PushDownAutomaton,
        ApproximationInstance,
    ))
        ensures
            (self@ matches StrategyModel::TopK { size } ==> crate::approximation::ptk::ptk_result_ok(
                size,
                automaton1@,
                r.0@,
                r.1,
            )),
            (self@ matches StrategyModel::Relabel { .. } ==> approximation_result_ok(
                self@,
                automaton1@,
                r.0@,
                r.1,
            )),
            instance_ok(r.1.map_model(), automaton1@.transitions, r.0@.transitions),
    {
        match self {
            AnyStrategy::TopK(p) => p.approximate_automaton(automaton1),
            AnyStrategy::Relabel(rl) => approximate_automaton(
                AnyStrategy::Relabel(rl),
                automaton1,
            ),
        }
    }
}

/// Round-trip soundness of unapproximation, for the default whole-automaton
/// algorithm.
///
/// Any run of the fine automaton is among the lifts of every coarse run
/// that matches it member by member on (word, coarse instruction) — in
/// particular of the one the coarse automaton accepts along the images of
/// its members, which exists by the approximation contract.  Composed with
/// the run validator, which confirms any replayable accepting run,
/// unapproximation therefore recovers every fine run that the coarse
/// search reaches.
pub proof fn lemma_round_trip(
    st: StrategyModel,
    fine: crate::recognisable::automaton::AutomatonModel,
    coarse: crate::recognisable::automaton::AutomatonModel,
    inst: ApproximationInstance,
    run1: Seq<TransitionModel>,
    run2: Seq<TransitionModel>,
)
    requires
        approximation_result_ok(st, fine, coarse, inst),
        crate::recognisable::run_in(fine.transitions, run1),
        run1.len() == run2.len(),
        forall|i: int| 0 <= i < run2.len() ==> normalize(#[trigger] run2[i]) == approx_key(st, run1[i]),
    ensures
        lifts_to(inst.map_model(), run2, run1),
        forall|i: int|
            0 <= i < run1.len() ==> has_normkey(coarse.transitions, approx_key(st, #[trigger] run1[i])),
{
    let m = inst.map_model();
    let fines = fine.transitions;
    assert forall|i: int| 0 <= i < run2.len() implies #[trigger] lifted_at(
        m,
        run2[i],
        run1[i],
    ) by {
        let k = approx_key(st, run1[i]);
        assert(fines.contains(run1[i]));
        let a = choose|a: int| 0 <= a < fines.len() && fines[a] == run1[i];
        lemma_group_contains_self(fines, st, a);
        assert(group_list(fines, st, k).contains(run1[i]));
        assert(lookup_model(m, k) == Some(group_list(fines, st, k)));
        assert(normalize(run2[i]) == k);
    }
    assert forall|i: int| 0 <= i < run1.len() implies has_normkey(
        coarse.transitions,
        approx_key(st, #[trigger] run1[i]),
    ) by {
        let a = choose|a: int| 0 <= a < fines.len() && fines[a] == run1[i];
        assert(has_normkey(coarse.transitions, approx_key(st, fines[a])));
    }
}

} // verus!
