//! The top-k pushdown restriction strategy.
//!
//! `PDTopKElement` limits a pushdown storage to a fixed number of elements:
//! a storage keeps its bottom sentinel and the elements nearest the top,
//! and every instruction that replaces the top element is rewritten into a
//! bounded `ReplaceK` instruction carrying the size limit.

use vstd::prelude::*;

use crate::approximation::{
    approx_key, clear_poss, fill_poss, fill_poss_key, group_list, group_sum, has_normkey,
    instance_ok, instruction_model_of, lemma_group_props, lemma_lookup_char, lookup_model,
    normalize, strip_key, AnyStrategy, ApproximationInstance, ApproximationStrategy,
    StrategyModel,
};
use crate::recognisable::automaton::{truncate_storage, truncate_to, AutomatonModel,
    PushDownAutomaton};
use crate::recognisable::{run_view, InstructionModel, PushDownInstruction, Transition,
    TransitionModel};

verus! {

/// The symbols an instruction names in its popped and pushed values are
/// all listed in `a`.
pub open spec fn instr_values_in(i: InstructionModel, a: Seq<u64>) -> bool {
    match i {
        InstructionModel::Replace { current_val, new_val } => {
            &&& forall|q: int| 0 <= q < current_val.len() ==> a.contains(#[trigger] current_val[q])
            &&& forall|q: int| 0 <= q < new_val.len() ==> a.contains(#[trigger] new_val[q])
        },
        InstructionModel::ReplaceK { current_val, new_val, .. } => {
            &&& forall|q: int| 0 <= q < current_val.len() ==> a.contains(#[trigger] current_val[q])
            &&& forall|q: int| 0 <= q < new_val.len() ==> a.contains(#[trigger] new_val[q])
        },
    }
}

/// The instruction names the symbol `v` among its popped or pushed
/// values.
pub open spec fn instr_mentions(i: InstructionModel, v: u64) -> bool {
    match i {
        InstructionModel::Replace { current_val, new_val } => current_val.contains(v)
            || new_val.contains(v),
        InstructionModel::ReplaceK { current_val, new_val, .. } => current_val.contains(v)
            || new_val.contains(v),
    }
}

/// Some member of `s` names the symbol `v` among its popped or pushed
/// values.
pub open spec fn some_transition_mentions(s: Seq<TransitionModel>, v: u64) -> bool {
    exists|j: int| 0 <= j < s.len() && instr_mentions((#[trigger] s[j]).instruction, v)
}

/// The alphabet of legal values an instruction carries; empty for a plain
/// `Replace`.
pub open spec fn instr_poss(i: InstructionModel) -> Seq<u64> {
    match i {
        InstructionModel::Replace { .. } => Seq::<u64>::empty(),
        InstructionModel::ReplaceK { possible_values, .. } => possible_values,
    }
}

/// The instruction is a bounded replacement with limit `size`.
pub open spec fn is_bounded_by(i: InstructionModel, size: nat) -> bool {
    i matches InstructionModel::ReplaceK { limit, .. } && limit == size
}

/// Some member of `s` has the alphabet-ignoring key `k`.
pub open spec fn has_stripkey(s: Seq<TransitionModel>, k: TransitionModel) -> bool {
    exists|j: int| 0 <= j < s.len() && strip_key(#[trigger] s[j]) == k
}

/// Membership in a symbol list survives appending a symbol.
pub proof fn lemma_push_keeps_contains(a: Seq<u64>, w: u64)
    ensures
        forall|v: u64| a.contains(v) ==> a.push(w).contains(v),
{
    assert forall|v: u64| a.contains(v) implies a.push(w).contains(v) by {
        let q = choose|q: int| 0 <= q < a.len() && a[q] == v;
        assert(a.push(w)[q] == v);
    }
}

/// Coverage of an instruction's values survives growing the alphabet.
pub proof fn lemma_values_in_grow(i: InstructionModel, a: Seq<u64>, b: Seq<u64>)
    requires
        instr_values_in(i, a),
        forall|v: u64| a.contains(v) ==> b.contains(v),
    ensures
        instr_values_in(i, b),
{
}

/// The two-pass top-k approximation contract.
///
/// The coarse automaton carries, for each (word, instruction) pair some
/// fine transition collapses onto — with the alphabet ignored — exactly
/// the group's summed weight (the weight-grouping invariant), with no
/// duplicate pairs, every instruction bounded by `size`, and one shared
/// alphabet holding exactly the union of the values the coarse
/// transitions name.  The instance's reverse map holds exactly the
/// groups under exactly the rewritten keys — the old keys are gone, so
/// lookups by the rewritten coarse transitions succeed and nothing else
/// is stored.
pub open spec fn ptk_result_ok(
    size: nat,
    fine: AutomatonModel,
    coarse: AutomatonModel,
    inst: ApproximationInstance,
) -> bool {
    let st = StrategyModel::TopK { size };
    let fines = fine.transitions;
    &&& inst.wf()
    &&& inst.strategy_model() == st
    &&& coarse.initial == truncate_to(fine.initial, size)
    &&& forall|j: int|
        0 <= j < coarse.transitions.len() ==> {
            let t2 = #[trigger] coarse.transitions[j];
            &&& t2.weight == group_sum(fines, st, strip_key(t2))
            &&& group_list(fines, st, strip_key(t2)).len() > 0
            &&& lookup_model(inst.map_model(), normalize(t2)) == Some(
                group_list(fines, st, strip_key(t2)),
            )
            &&& is_bounded_by(t2.instruction, size)
        }
    &&& forall|j1: int, j2: int|
        0 <= j1 < j2 < coarse.transitions.len() ==> strip_key(#[trigger] coarse.transitions[j1])
            != strip_key(#[trigger] coarse.transitions[j2])
    &&& forall|a: int|
        0 <= a < fines.len() ==> has_stripkey(coarse.transitions, approx_key(st, #[trigger] fines[a]))
    &&& forall|j1: int, j2: int|
        0 <= j1 < coarse.transitions.len() && 0 <= j2 < coarse.transitions.len() ==> instr_poss(
            (#[trigger] coarse.transitions[j1]).instruction,
        ) == instr_poss((#[trigger] coarse.transitions[j2]).instruction)
    &&& forall|j1: int, j2: int|
        0 <= j1 < coarse.transitions.len() && 0 <= j2 < coarse.transitions.len()
            ==> instr_values_in(
            (#[trigger] coarse.transitions[j2]).instruction,
            instr_poss((#[trigger] coarse.transitions[j1]).instruction),
        )
    &&& forall|j: int, v: u64|
        0 <= j < coarse.transitions.len() && instr_poss(
            (#[trigger] coarse.transitions[j]).instruction,
        ).contains(v) ==> #[trigger] some_transition_mentions(coarse.transitions, v)
    &&& (coarse.transitions.len() == 0 ==> inst.map_model().len() == 0)
    &&& (coarse.transitions.len() > 0 ==> (forall|k: TransitionModel| #[trigger]
        lookup_model(inst.map_model(), k) == (if group_list(fines, st, strip_key(k)).len() > 0
            && k == fill_poss_key(
            strip_key(k),
            instr_poss(coarse.transitions[0].instruction),
        ) {
            Some(group_list(fines, st, strip_key(k)))
        } else {
            None::<Seq<TransitionModel>>
        })))
    &&& instance_ok(inst.map_model(), fines, coarse.transitions)
}

/// The top-k pushdown restriction: bounds every storage to `size` elements,
/// the bottom sentinel included.
#[derive(Debug)]
pub struct PDTopKElement {
    /// The bound on the storage height; at least `1`.
    pub size: usize,
}

impl View for PDTopKElement {
    type V = StrategyModel;

    open spec fn view(&self) -> StrategyModel {
        StrategyModel::TopK { size: self.size as nat }
    }
}

impl Clone for PDTopKElement {
    /// Cloning preserves the bound.
    fn clone(&self) -> (r: Self)
        ensures
            r == self,
            r@ == self@,
    {
        PDTopKElement { size: self.size }
    }
}

impl PDTopKElement {
    /// Creates the strategy.  A bound of `0` is a caller error and is
    /// excluded here; use `try_new` to reject it at run time.
    pub fn new(size: usize) -> (r: Self)
        requires
            size >= 1,
        ensures
            r.size == size,
    {
        PDTopKElement { size }
    }

    /// Creates the strategy, failing fast on a bound of `0` — before any
    /// automaton is touched, and without silently clamping.
    pub fn try_new(size: usize) -> (r: Option<Self>)
        ensures
            size == 0 <==> r is None,
            (r matches Some(p) ==> p.size == size),
    {
        if size == 0 {
            None
        } else {
            Some(PDTopKElement { size })
        }
    }
}

/// Adds every symbol of `vals` that `a` does not yet list.
fn add_symbols(a: &mut Vec<u64>, vals: &Vec<u64>)
    ensures
        forall|v: u64| old(a)@.contains(v) ==> final(a)@.contains(v),
        forall|q: int| 0 <= q < vals@.len() ==> final(a)@.contains(#[trigger] vals@[q]),
        forall|v: u64| final(a)@.contains(v) ==> old(a)@.contains(v) || vals@.contains(v),
{
    let mut q: usize = 0;
    while q < vals.len()
        invariant
            q <= vals@.len(),
            forall|v: u64| old(a)@.contains(v) ==> a@.contains(v),
            forall|p: int| 0 <= p < q ==> a@.contains(#[trigger] vals@[p]),
            forall|v: u64| a@.contains(v) ==> old(a)@.contains(v) || vals@.contains(v),
        decreases vals.len() - q,
    {
        let v = vals[q];
        if !crate::recognisable::automaton::contains_symbol(a, v) {
            let ghost pre = a@;
            a.push(v);
            proof {
                lemma_push_keeps_contains(pre, v);
                assert(a@[a@.len() - 1] == v);
                assert(a@.contains(v));
                assert(vals@.contains(v)) by {
                    assert(vals@[q as int] == v);
                }
                assert forall|x: u64| a@.contains(x) implies pre.contains(x) || x == v by {
                    let q2 = choose|q2: int| 0 <= q2 < a@.len() && a@[q2] == x;
                    if q2 < pre.len() {
                        assert(pre[q2] == x);
                    }
                }
            }
        }
        q = q + 1;
    }
}

impl PDTopKElement {
    /// Two-pass whole-automaton approximation.
    ///
    /// First the default algorithm approximates and groups the automaton;
    /// then every value mentioned by a bounded instruction is unioned into
    /// one global alphabet, every coarse instruction is rewritten to carry
    /// that alphabet, and every reverse-map entry is migrated to its
    /// rewritten key, so that later lookups by the rewritten transitions
    /// still find their groups.
    pub fn approximate_automaton(self, automaton1: &PushDownAutomaton) -> (r: (
        PushDownAutomaton,
        ApproximationInstance,
    ))
        ensures
            ptk_result_ok(self.size as nat, automaton1@, r.0@, r.1),
    {
        let ghost size = self.size as nat;
        let ghost st = StrategyModel::TopK { size };
        let ghost fines = automaton1@.transitions;
        let strategy = AnyStrategy::TopK(self);
        proof {
            assert(strategy@ =~= st);
        }
        let (coarse0, mut instance) = crate::approximation::approximate_automaton(
            strategy,
            automaton1,
        );
        let ghost t0 = coarse0@.transitions;
        let ghost m0 = instance.map_model();
        proof {
            assert forall|x: int| 0 <= x < t0.len() implies (clear_poss(
                (#[trigger] t0[x]).instruction,
            ) == t0[x].instruction && is_bounded_by(t0[x].instruction, size)) by {
                let k = normalize(t0[x]);
                assert(group_list(fines, st, k).len() > 0);
                let y = group_list(fines, st, k)[0];
                assert(group_list(fines, st, k).contains(y));
                lemma_group_props(fines, st, k);
                assert(approx_key(st, y) == k);
            }
            assert forall|x: int| 0 <= x < m0.len() implies clear_poss(
                (#[trigger] m0[x]).0.instruction,
            ) == m0[x].0.instruction by {
                lemma_lookup_char(m0, m0[x].0);
                assert(lookup_model(m0, m0[x].0) == Some(m0[x].1));
                assert(group_list(fines, st, m0[x].0).len() > 0);
                let y = group_list(fines, st, m0[x].0)[0];
                assert(group_list(fines, st, m0[x].0).contains(y));
                lemma_group_props(fines, st, m0[x].0);
                assert(approx_key(st, y) == m0[x].0);
            }
        }
        let trans0 = coarse0.transitions();
        let mut alphabet: Vec<u64> = Vec::new();
        let mut j: usize = 0;
        while j < trans0.len()
            invariant
                j <= trans0@.len(),
                run_view(trans0@) == t0,
                t0.len() == trans0@.len(),
                forall|j2: int|
                    0 <= j2 < j ==> instr_values_in((#[trigger] t0[j2]).instruction, alphabet@),
                forall|v: u64|
                    alphabet@.contains(v) ==> some_transition_mentions(t0.take(j as int), v),
            decreases trans0.len() - j,
        {
            proof {
                assert(t0[j as int] == trans0@[j as int]@);
            }
            let ghost pre = alphabet@;
            match &trans0[j].instruction {
                PushDownInstruction::Replace { current_val, new_val } => {
                    add_symbols(&mut alphabet, current_val);
                    let ghost mid = alphabet@;
                    add_symbols(&mut alphabet, new_val);
                    proof {
                        assert(instr_values_in(t0[j as int].instruction, alphabet@));
                        assert forall|v: u64| alphabet@.contains(v) implies pre.contains(v)
                            || instr_mentions(t0[j as int].instruction, v) by {
                            if !pre.contains(v) {
                                assert(current_val@.contains(v) || new_val@.contains(v));
                            }
                        }
                    }
                },
                PushDownInstruction::ReplaceK { current_val, new_val, .. } => {
                    add_symbols(&mut alphabet, current_val);
                    let ghost mid = alphabet@;
                    add_symbols(&mut alphabet, new_val);
                    proof {
                        assert(instr_values_in(t0[j as int].instruction, alphabet@));
                        assert forall|v: u64| alphabet@.contains(v) implies pre.contains(v)
                            || instr_mentions(t0[j as int].instruction, v) by {
                            if !pre.contains(v) {
                                assert(current_val@.contains(v) || new_val@.contains(v));
                            }
                        }
                    }
                },
            }
            proof {
                assert forall|j2: int| 0 <= j2 < j + 1 implies instr_values_in(
                    (#[trigger] t0[j2]).instruction,
                    alphabet@,
                ) by {
                    if j2 < j {
                        lemma_values_in_grow(t0[j2].instruction, pre, alphabet@);
                    }
                }
                assert forall|v: u64| alphabet@.contains(v) implies some_transition_mentions(
                    t0.take(j + 1),
                    v,
                ) by {
                    if pre.contains(v) {
                        let w = choose|w: int|
                            0 <= w < t0.take(j as int).len() && instr_mentions(
                                (#[trigger] t0.take(j as int)[w]).instruction,
                                v,
                            );
                        assert(t0.take(j + 1)[w] == t0.take(j as int)[w]);
                        assert(instr_mentions(t0.take(j + 1)[w].instruction, v));
                    } else {
                        assert(instr_mentions(t0[j as int].instruction, v));
                        assert(t0.take(j + 1)[j as int] == t0[j as int]);
                        assert(instr_mentions(t0.take(j + 1)[j as int].instruction, v));
                    }
                }
            }
            j = j + 1;
        }
        let ghost aset = alphabet@;
        let mut transitions3: Vec<Transition> = Vec::new();
        let mut p: usize = 0;
        while p < trans0.len()
            invariant
                p <= trans0@.len(),
                run_view(trans0@) == t0,
                t0.len() == trans0@.len(),
                aset == alphabet@,
                run_view(transitions3@).len() == p as int,
                forall|x: int|
                    0 <= x < p ==> #[trigger] run_view(transitions3@)[x] == fill_poss_key(
                        t0[x],
                        aset,
                    ),
                forall|x: int|
                    0 <= x < t0.len() ==> (clear_poss((#[trigger] t0[x]).instruction)
                        == t0[x].instruction && is_bounded_by(t0[x].instruction, size)),
            decreases trans0.len() - p,
        {
            proof {
                assert(t0[p as int] == trans0@[p as int]@);
            }
            let t = &trans0[p];
            let nt = match &t.instruction {
                PushDownInstruction::ReplaceK { current_val, new_val, limit, .. } => Transition {
                    word: t.word.clone(),
                    weight: t.weight,
                    instruction: PushDownInstruction::ReplaceK {
                        current_val: current_val.clone(),
                        new_val: new_val.clone(),
                        limit: *limit,
                        possible_values: alphabet.clone(),
                    },
                },
                PushDownInstruction::Replace { .. } => {
                    proof {
                        assert(is_bounded_by(t0[p as int].instruction, size));
                        assert(false);
                    }
                    t.clone()
                },
            };
            proof {
                assert(nt@ =~= fill_poss_key(t0[p as int], aset));
            }
            let ghost prev3 = transitions3@;
            transitions3.push(nt);
            proof {
                assert forall|x: int| 0 <= x < p + 1 implies #[trigger] run_view(transitions3@)[x]
                    == fill_poss_key(t0[x], aset) by {
                    assert(run_view(transitions3@)[x] == transitions3@[x]@);
                    if x < p {
                        assert(transitions3@[x] == prev3[x]);
                        assert(run_view(prev3)[x] == prev3[x]@);
                    }
                }
            }
            p = p + 1;
        }
        instance.set_possible_values(&alphabet);
        let coarse = PushDownAutomaton::from_transitions(transitions3, coarse0.initial());
        proof {
            let m1 = instance.map_model();
            let t3 = coarse@.transitions;
            assert(t3.len() == t0.len());
            assert forall|x: int| 0 <= x < t3.len() implies (#[trigger] t3[x]) == fill_poss_key(
                t0[x],
                aset,
            ) by {}
            assert forall|x: int| 0 <= x < t3.len() implies strip_key(#[trigger] t3[x])
                == normalize(t0[x]) by {
                assert(strip_key(t3[x]) =~= normalize(t0[x]));
            }
            assert forall|x: int| 0 <= x < t3.len() implies {
                let t2 = #[trigger] t3[x];
                &&& t2.weight == group_sum(fines, st, strip_key(t2))
                &&& group_list(fines, st, strip_key(t2)).len() > 0
                &&& lookup_model(m1, normalize(t2)) == Some(group_list(fines, st, strip_key(t2)))
                &&& is_bounded_by(t2.instruction, size)
            } by {
                let k = normalize(t0[x]);
                assert(lookup_model(m0, k) == Some(group_list(fines, st, k)));
                lemma_lookup_char(m0, k);
                let e = choose|e: int|
                    0 <= e < m0.len() && (#[trigger] m0[e]).0 == k && m0[e].1 == group_list(
                        fines,
                        st,
                        k,
                    );
                assert(m1[e] == (fill_poss_key(m0[e].0, aset), m0[e].1));
                assert(normalize(t3[x]) =~= fill_poss_key(k, aset));
                assert(m1[e].0 == normalize(t3[x]));
                lemma_lookup_char(m1, normalize(t3[x]));
                assert(lookup_model(m1, normalize(t3[x])) == Some(m0[e].1));
            }
            assert forall|a: int| 0 <= a < fines.len() implies has_stripkey(
                t3,
                approx_key(st, #[trigger] fines[a]),
            ) by {
                assert(has_normkey(t0, approx_key(st, fines[a])));
                let w = choose|w: int|
                    0 <= w < t0.len() && normalize(#[trigger] t0[w]) == approx_key(st, fines[a]);
                assert(strip_key(t3[w]) == approx_key(st, fines[a]));
            }
            if t3.len() == 0 {
                assert(fines.len() == 0) by {
                    if fines.len() > 0 {
                        assert(has_normkey(t0, approx_key(st, fines[0])));
                        let w = choose|w: int|
                            0 <= w < t0.len() && crate::approximation::normalize(
                                #[trigger] t0[w],
                            ) == approx_key(st, fines[0]);
                    }
                }
                assert(m1.len() == m0.len());
                assert(m0.len() == 0) by {
                    if m0.len() > 0 {
                        crate::approximation::lemma_lookup_first(m0, m0[0].0, 0);
                        assert(lookup_model(m0, m0[0].0) == Some(m0[0].1));
                        assert(group_list(fines, st, m0[0].0).len() > 0);
                    }
                }
            } else {
                let av = instr_poss(t3[0].instruction);
                assert(av == aset);
                assert forall|k: TransitionModel| #[trigger] lookup_model(m1, k) == (if group_list(
                    fines,
                    st,
                    strip_key(k),
                ).len() > 0 && k == fill_poss_key(strip_key(k), av) {
                    Some(group_list(fines, st, strip_key(k)))
                } else {
                    None::<Seq<TransitionModel>>
                }) by {
                    let gk = strip_key(k);
                    crate::approximation::lemma_lookup_char(m1, k);
                    if group_list(fines, st, gk).len() > 0 && k == fill_poss_key(gk, aset) {
                        assert(lookup_model(m0, gk) == Some(group_list(fines, st, gk)));
                        crate::approximation::lemma_lookup_char(m0, gk);
                        let e = choose|e: int|
                            0 <= e < m0.len() && (#[trigger] m0[e]).0 == gk && m0[e].1
                                == group_list(fines, st, gk);
                        assert(m1[e] == (fill_poss_key(m0[e].0, aset), m0[e].1));
                        assert(m1[e].0 == k);
                        assert(lookup_model(m1, k) == Some(m0[e].1));
                    } else {
                        assert forall|e: int| 0 <= e < m1.len() implies (#[trigger] m1[e]).0
                            != k by {
                            if m1[e].0 == k {
                                assert(m1[e] == (fill_poss_key(m0[e].0, aset), m0[e].1));
                                assert(clear_poss(m0[e].0.instruction) == m0[e].0.instruction);
                                assert(m0[e].0.weight == 1u64);
                                assert(strip_key(k) =~= m0[e].0);
                                crate::approximation::lemma_lookup_first(m0, m0[e].0, e);
                                assert(lookup_model(m0, gk) == Some(m0[e].1)) by {
                                    if !(forall|x: int|
                                        0 <= x < e ==> (#[trigger] m0[x]).0 != m0[e].0) {
                                        let x = choose|x: int|
                                            0 <= x < e && (#[trigger] m0[x]).0 == m0[e].0;
                                    }
                                }
                                assert(group_list(fines, st, gk).len() > 0);
                                assert(k == fill_poss_key(gk, aset));
                            }
                        }
                    }
                }
            }
            assert(t0.take(t0.len() as int) =~= t0);
            assert forall|j: int, v: u64|
                0 <= j < t3.len() && instr_poss((#[trigger] t3[j]).instruction).contains(
                    v,
                ) implies #[trigger] some_transition_mentions(t3, v) by {
                assert(instr_poss(t3[j].instruction) == aset);
                assert(some_transition_mentions(t0, v));
                let w = choose|w: int|
                    0 <= w < t0.len() && instr_mentions((#[trigger] t0[w]).instruction, v);
                assert(t3[w] == fill_poss_key(t0[w], aset));
                assert(instr_mentions(t3[w].instruction, v));
            }
            assert forall|t2: TransitionModel, t1: TransitionModel|
                t3.contains(t2) && #[trigger] crate::approximation::lifted_at(
                    m1,
                    t2,
                    t1,
                ) implies fines.contains(t1) && t1.word == t2.word && t1.weight
                <= t2.weight by {
                let x = choose|x: int| 0 <= x < t3.len() && t3[x] == t2;
                assert(lookup_model(m1, normalize(t2)) == Some(group_list(fines, st, strip_key(t2))));
                assert(group_list(fines, st, strip_key(t2)).contains(t1));
                lemma_group_props(fines, st, strip_key(t2));
                assert(approx_key(st, t1) == strip_key(t2));
            }
            assert(instance_ok(m1, fines, t3));
        }
        (coarse, instance)
    }
}

impl ApproximationStrategy for PDTopKElement {
    /// A storage with at most `size` elements passes through unchanged;
    /// otherwise the bottom sentinel plus the `size - 1` elements nearest
    /// the top are kept, in their relative order.
    fn approximate_storage(&self, s: &Vec<u64>) -> (r: Vec<u64>) {
        if s.len() <= self.size {
            let r = s.clone();
            proof {
                assert(r@ == truncate_to(s@, self.size as nat));
            }
            r
        } else if self.size == 0 {
            let mut r: Vec<u64> = Vec::new();
            r.push(s[0]);
            proof {
                assert(r@ =~= truncate_to(s@, self.size as nat));
            }
            r
        } else {
            truncate_storage(s, self.size)
        }
    }

    fn approximate_instruction(&self, i: &PushDownInstruction) -> (r: PushDownInstruction) {
        match i {
            PushDownInstruction::Replace { current_val, new_val } => {
                let r = PushDownInstruction::ReplaceK {
                    current_val: current_val.clone(),
                    new_val: new_val.clone(),
                    limit: self.size,
                    possible_values: Vec::new(),
                };
                proof {
                    assert(r@ =~= crate::approximation::instruction_model_of(self@, i@));
                }
                r
            },
            PushDownInstruction::ReplaceK { current_val, new_val, .. } => {
                let r = PushDownInstruction::ReplaceK {
                    current_val: current_val.clone(),
                    new_val: new_val.clone(),
                    limit: self.size,
                    possible_values: Vec::new(),
                };
                proof {
                    assert(r@ =~= crate::approximation::instruction_model_of(self@, i@));
                }
                r
            },
        }
    }
}

/// The bounded storage `c` abstracts the exact storage `s`: it keeps the
/// bottom sentinel and some number of the topmost elements, within the
/// bound.
pub open spec fn topk_abstracts(k: nat, s: Seq<u64>, c: Seq<u64>) -> bool {
    &&& 1 <= c.len() <= k
    &&& c.len() <= s.len()
    &&& 1 <= s.len()
    &&& c[0] == s[0]
    &&& c.skip(1) == s.skip(s.len() - (c.len() - 1))
}

/// Truncating a storage abstracts it.
pub proof fn lemma_truncate_abstracts(k: nat, s: Seq<u64>)
    requires
        1 <= k,
        1 <= s.len(),
    ensures
        topk_abstracts(k, s, truncate_to(s, k)),
{
    if s.len() <= k {
        assert(truncate_to(s, k).skip(1) =~= s.skip(s.len() - (s.len() - 1)));
    } else {
        let c = truncate_to(s, k);
        assert(c.len() == k);
        assert(c.skip(1) =~= s.skip(s.len() - (k - 1)));
    }
}

/// One step of the over-approximation simulation: where an exact
/// replacement applies to a storage, the bounded replacement carrying an
/// alphabet that covers the popped values applies to every abstraction of
/// that storage, and the results are again in the abstraction relation.
/// Values hidden by the bound sit directly above the sentinel, which is
/// exactly where the bounded instruction may guess them.
pub proof fn lemma_topk_step(
    k: nat,
    a: Seq<u64>,
    cur: Seq<u64>,
    new: Seq<u64>,
    s: Seq<u64>,
    c: Seq<u64>,
    s2: Seq<u64>,
)
    requires
        1 <= k,
        topk_abstracts(k, s, c),
        crate::recognisable::automaton::apply_replace(s, cur, new) == Some(s2),
        forall|q: int| 0 <= q < cur.len() ==> a.contains(#[trigger] cur[q]),
    ensures
        crate::recognisable::automaton::apply_replacek(c, cur, new, k, a) is Some,
        topk_abstracts(
            k,
            s2,
            crate::recognisable::automaton::apply_replacek(c, cur, new, k, a).unwrap(),
        ),
{
    let n = cur.len() as int;
    assert(crate::recognisable::automaton::tops_match(s, cur, n));
    let avail = c.len() - 1;
    let j: int = if cur.len() <= avail {
        n
    } else {
        avail as int
    };
    assert forall|q: int| 0 <= q < j implies c[c.len() - 1 - q] == cur[q] by {
        assert(c[c.len() - 1 - q] == c.skip(1)[c.len() - 2 - q]);
        assert(s.skip(s.len() - (c.len() - 1))[c.len() - 2 - q] == s[s.len() - 1 - q]);
        assert(s[s.len() - 1 - q] == cur[q]);
    }
    assert(crate::recognisable::automaton::tops_match(c, cur, j));
    let popped_c = crate::recognisable::automaton::pop_push(c, j, new);
    let c2 = truncate_to(popped_c, k);
    assert(crate::recognisable::automaton::apply_replacek(c, cur, new, k, a) == Some(c2));
    // the unbounded results stand in the relation
    assert(s2 == s.take(s.len() - n) + new.reverse());
    assert(popped_c == c.take(c.len() - j) + new.reverse());
    assert(s2.len() == s.len() - n + new.len());
    assert(popped_c.len() == c.len() - j + new.len());
    assert(1 <= s.len() - n);
    assert(s2[0] == s[0]);
    assert(popped_c[0] == c[0]);
    assert(popped_c.skip(1) =~= s2.skip(s2.len() - (popped_c.len() - 1))) by {
        let m = popped_c.len() - 1;
        assert(s2.len() - m == s.len() - n - (c.len() - j) + 1);
        assert forall|x: int| 0 <= x < m implies popped_c.skip(1)[x] == s2.skip(
            s2.len() - m,
        )[x] by {
            if x < c.len() - j - 1 {
                assert(popped_c.skip(1)[x] == c[1 + x]);
                assert(c[1 + x] == c.skip(1)[x]);
                assert(c.skip(1)[x] == s[s.len() - (c.len() - 1) + x]);
                if j == n {
                    assert(s2.skip(s2.len() - m)[x] == s2[s.len() - n - (c.len() - n) + 1 + x]);
                    assert(s2[s.len() - c.len() + 1 + x] == s.take(s.len() - n)[s.len() - c.len()
                        + 1 + x]);
                }
            } else {
                let b = x - (c.len() - j - 1);
                assert(popped_c.skip(1)[x] == new.reverse()[b]);
                assert(s2.skip(s2.len() - m)[x] == s2[s2.len() - m + x]);
                assert(s2.len() - m + x == s.len() - n + b);
                assert(s2[s.len() - n + b] == new.reverse()[b]);
            }
        }
    }
    assert(popped_c.len() <= s2.len());
    // truncation preserves the relation
    if popped_c.len() <= k {
        assert(c2 == popped_c);
    } else {
        assert(c2.len() == k);
        assert(c2[0] == popped_c[0]);
        assert(c2.skip(1) =~= s2.skip(s2.len() - (k - 1))) by {
            assert forall|x: int| 0 <= x < k - 1 implies c2.skip(1)[x] == s2.skip(
                s2.len() - (k - 1),
            )[x] by {
                assert(c2.skip(1)[x] == popped_c.skip(popped_c.len() - (k - 1))[x]);
                assert(popped_c.skip(popped_c.len() - (k - 1))[x] == popped_c[popped_c.len() - (k
                    - 1) + x]);
                assert(popped_c[popped_c.len() - (k - 1) + x] == popped_c.skip(1)[popped_c.len()
                    - (k - 1) + x - 1]);
                assert(popped_c.skip(1)[popped_c.len() - (k - 1) + x - 1] == s2.skip(
                    s2.len() - (popped_c.len() - 1),
                )[popped_c.len() - (k - 1) + x - 1]);
            }
        }
    }
}

/// The over-approximation simulation for whole runs: a run of exact
/// replacements that replays on a storage replays, bounded and sharing an
/// alphabet that covers every popped value, on any abstraction of it, and
/// reaches an abstraction of the exact result.
pub proof fn lemma_topk_run(
    k: nat,
    a: Seq<u64>,
    init_s: Seq<u64>,
    init_c: Seq<u64>,
    run1: Seq<TransitionModel>,
    run2: Seq<TransitionModel>,
    st: Seq<u64>,
)
    requires
        1 <= k,
        topk_abstracts(k, init_s, init_c),
        crate::recognisable::automaton::run_result(init_s, run1) == Some(st),
        run1.len() == run2.len(),
        forall|i: int| (#[trigger] run1[i]).instruction is Replace || !(0 <= i < run1.len()),
        forall|i: int|
            0 <= i < run1.len() ==> (#[trigger] run2[i]).instruction == crate::approximation::fill_poss(
                crate::approximation::instruction_model_of(
                    StrategyModel::TopK { size: k },
                    run1[i].instruction,
                ),
                a,
            ),
        forall|i: int| 0 <= i < run1.len() ==> instr_values_in((#[trigger] run1[i]).instruction, a),
    ensures
        ({
            let rc = crate::recognisable::automaton::run_result(init_c, run2);
            rc is Some && topk_abstracts(k, st, rc.unwrap())
        }),
    decreases run1.len(),
{
    if run1.len() == 0 {
        assert(st == init_s);
    } else {
        let prev1 = run1.drop_last();
        let prev2 = run2.drop_last();
        let mid = crate::recognisable::automaton::run_result(init_s, prev1);
        assert(mid is Some) by {
            if mid is None {
                assert(crate::recognisable::automaton::run_result(init_s, run1) is None);
            }
        }
        lemma_topk_run(k, a, init_s, init_c, prev1, prev2, mid.unwrap());
        let midc = crate::recognisable::automaton::run_result(init_c, prev2).unwrap();
        assert(run1.last().instruction is Replace);
        match run1.last().instruction {
            InstructionModel::Replace { current_val, new_val } => {
                assert(instr_values_in(run1.last().instruction, a));
                assert(run2.last().instruction == InstructionModel::ReplaceK {
                    current_val,
                    new_val,
                    limit: k,
                    possible_values: a,
                });
                lemma_topk_step(k, a, current_val, new_val, mid.unwrap(), midc, st);
            },
            InstructionModel::ReplaceK { .. } => {
                assert(false);
            },
        }
    }
}

/// Round-trip soundness through one top-k level: every accepting run of
/// an exact automaton — one whose instructions are plain replacements —
/// has an accepting run of the bounded approximation, its member-by-member
/// image, among whose lifts it is.  The coarse search therefore reaches a
/// run from which unapproximation recovers the exact run, and the run
/// validator confirms it.
pub proof fn lemma_topk_round_trip(
    size: nat,
    fine: AutomatonModel,
    coarse: AutomatonModel,
    inst: ApproximationInstance,
    word: Seq<u64>,
    run1: Seq<TransitionModel>,
)
    requires
        1 <= size,
        ptk_result_ok(size, fine, coarse, inst),
        crate::recognisable::automaton::is_accepting_run(fine, word, run1),
        1 <= fine.initial.len(),
        forall|i: int| (#[trigger] run1[i]).instruction is Replace || !(0 <= i < run1.len()),
    ensures
        exists|run2: Seq<TransitionModel>|
            crate::recognisable::automaton::is_accepting_run(coarse, word, run2)
                && #[trigger] crate::approximation::lifts_to(inst.map_model(), run2, run1),
{
    let st = StrategyModel::TopK { size };
    let fines = fine.transitions;
    let m = inst.map_model();
    let run2 = Seq::new(run1.len(), |i: int| topk_image(coarse.transitions, st, run1[i]));
    assert forall|i: int| 0 <= i < run1.len() implies coarse.transitions.contains(
        #[trigger] run2[i],
    ) && strip_key(run2[i]) == approx_key(st, run1[i]) by {
        assert(fines.contains(run1[i]));
        let ai = choose|ai: int| 0 <= ai < fines.len() && #[trigger] fines[ai] == run1[i];
        assert(has_stripkey(coarse.transitions, approx_key(st, fines[ai])));
        let w = choose|w: int|
            0 <= w < coarse.transitions.len() && strip_key(#[trigger] coarse.transitions[w])
                == approx_key(st, run1[i]);
        assert(coarse.transitions.contains(coarse.transitions[w]));
        assert(run2[i] == topk_image(coarse.transitions, st, run1[i]));
    }
    // every image is the fine instruction, bounded, with the one shared
    // alphabet, and consumes the same symbols
    assert forall|i: int| 0 <= i < run1.len() implies (#[trigger] run2[i]).word == run1[i].word
        && run2[i].instruction == crate::approximation::fill_poss(
        crate::approximation::instruction_model_of(st, run1[i].instruction),
        instr_poss(run2[i].instruction),
    ) by {
        assert(strip_key(run2[i]) == approx_key(st, run1[i]));
        assert(clear_poss(run2[i].instruction) == crate::approximation::instruction_model_of(
            st,
            run1[i].instruction,
        ));
        assert(is_bounded_by(run2[i].instruction, size));
        match run2[i].instruction {
            InstructionModel::ReplaceK { .. } => {},
            InstructionModel::Replace { .. } => {
                assert(false);
            },
        }
    }
    if run1.len() == 0 {
        assert(run2 =~= Seq::<TransitionModel>::empty());
        assert(crate::recognisable::automaton::run_result(fine.initial, run1) == Some(
            fine.initial,
        ));
        assert(fine.initial.len() == 1);
        assert(coarse.initial == truncate_to(fine.initial, size));
        assert(coarse.initial.len() == 1);
        assert(crate::recognisable::run_word(run2) =~= word);
    } else {
        let a = instr_poss(run2[0].instruction);
        let w0 = choose|w: int|
            0 <= w < coarse.transitions.len() && #[trigger] coarse.transitions[w] == run2[0];
        assert forall|i: int| 0 <= i < run1.len() implies instr_poss(
            (#[trigger] run2[i]).instruction,
        ) == a by {
            let wi = choose|w: int|
                0 <= w < coarse.transitions.len() && #[trigger] coarse.transitions[w] == run2[i];
            assert(instr_poss(coarse.transitions[wi].instruction) == instr_poss(
                coarse.transitions[w0].instruction,
            ));
        }
        assert forall|i: int| 0 <= i < run1.len() implies instr_values_in(
            (#[trigger] run1[i]).instruction,
            a,
        ) by {
            let wi = choose|w: int|
                0 <= w < coarse.transitions.len() && #[trigger] coarse.transitions[w] == run2[i];
            assert(instr_values_in(coarse.transitions[wi].instruction, instr_poss(
                coarse.transitions[w0].instruction,
            )));
            match run1[i].instruction {
                InstructionModel::Replace { current_val, new_val } => {
                    match run2[i].instruction {
                        InstructionModel::ReplaceK {
                            current_val: c2,
                            new_val: n2,
                            ..
                        } => {
                            assert(c2 == current_val && n2 == new_val);
                        },
                        InstructionModel::Replace { .. } => {
                            assert(false);
                        },
                    }
                },
                InstructionModel::ReplaceK { .. } => {
                    assert(false);
                },
            }
        }
        assert forall|i: int| 0 <= i < run1.len() implies (#[trigger] run2[i]).instruction
            == crate::approximation::fill_poss(
            crate::approximation::instruction_model_of(st, run1[i].instruction),
            a,
        ) by {}
        let final_st = crate::recognisable::automaton::run_result(fine.initial, run1).unwrap();
        lemma_truncate_abstracts(size, fine.initial);
        lemma_topk_run(
            size,
            a,
            fine.initial,
            truncate_to(fine.initial, size),
            run1,
            run2,
            final_st,
        );
        assert(coarse.initial == truncate_to(fine.initial, size));
        let rc = crate::recognisable::automaton::run_result(coarse.initial, run2);
        assert(rc is Some && topk_abstracts(size, final_st, rc.unwrap()));
        assert(final_st.len() == 1);
        assert(rc.unwrap().len() == 1);
        crate::recognisable::lemma_run_word_eq(run2, run1);
    }
    // the exact run is among the lifts of its image
    assert forall|i: int| 0 <= i < run2.len() implies #[trigger] crate::approximation::lifted_at(
        m,
        run2[i],
        run1[i],
    ) by {
        assert(lookup_model(m, normalize(run2[i])) == Some(
            group_list(fines, st, strip_key(run2[i])),
        ));
        let ai = choose|ai: int| 0 <= ai < fines.len() && #[trigger] fines[ai] == run1[i];
        crate::approximation::lemma_group_contains_self(fines, st, ai);
        assert(group_list(fines, st, approx_key(st, run1[i])).contains(run1[i]));
    }
    assert(crate::recognisable::automaton::is_accepting_run(coarse, word, run2)
        && crate::approximation::lifts_to(m, run2, run1));
}

/// The coarse transition whose alphabet-ignoring key is the reverse-map
/// key of `t1`.
pub open spec fn topk_image(
    coarse_trans: Seq<TransitionModel>,
    st: StrategyModel,
    t1: TransitionModel,
) -> TransitionModel {
    choose|t2: TransitionModel| coarse_trans.contains(t2) && strip_key(t2) == approx_key(st, t1)
}

/// Top-k correctness: in an automaton whose instructions are all bounded
/// by `size` and whose initial storage fits the bound, every reachable
/// storage has at most `size` elements.
pub proof fn lemma_topk_storage_bound(
    aut: AutomatonModel,
    size: nat,
    run: Seq<TransitionModel>,
)
    requires
        1 <= size,
        aut.initial.len() <= size,
        forall|j: int|
            0 <= j < aut.transitions.len() ==> is_bounded_by(
                (#[trigger] aut.transitions[j]).instruction,
                size,
            ),
        crate::recognisable::run_in(aut.transitions, run),
        crate::recognisable::automaton::run_result(aut.initial, run) is Some,
    ensures
        crate::recognisable::automaton::run_result(aut.initial, run).unwrap().len() <= size,
    decreases run.len(),
{
    if run.len() > 0 {
        let prev = run.drop_last();
        assert(crate::recognisable::run_in(aut.transitions, prev)) by {
            assert(forall|i: int|
                0 <= i < prev.len() ==> aut.transitions.contains(#[trigger] prev[i]));
        }
        assert(aut.transitions.contains(run.last()));
        let j = choose|j: int| 0 <= j < aut.transitions.len() && aut.transitions[j] == run.last();
        assert(is_bounded_by(run.last().instruction, size));
        let s = crate::recognisable::automaton::run_result(
            aut.initial,
            prev,
        ).unwrap();
        match run.last().instruction {
            InstructionModel::ReplaceK { current_val, new_val, limit, possible_values } => {
                let after = crate::recognisable::automaton::pop_push(
                    s,
                    if current_val.len() <= s.len() - 1 {
                        current_val.len() as int
                    } else {
                        s.len() - 1
                    },
                    new_val,
                );
                assert(truncate_to(after, size).len() <= size);
            },
            InstructionModel::Replace { .. } => {
                assert(false);
            },
        }
    }
}

} // verus!
