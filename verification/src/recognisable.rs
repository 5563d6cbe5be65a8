//! Transitions, items and the concrete automaton kind.
//!
//! A transition carries the sequence of input symbols it consumes, a weight,
//! and a storage instruction.  An item pairs a final storage with the run
//! that produced it.  Symbols, both of the input and of the storage, are
//! plain `u64` values.

use vstd::prelude::*;

use crate::weight::w_mul;

pub mod automaton;
pub mod coarse_to_fine;

verus! {

/// A storage instruction of a pushdown automaton.
///
/// The storage is a stack of `u64` values whose bottom element is a sentinel
/// that is never removed.  In `current_val` and `new_val` the element at
/// index `0` is the topmost one.
#[derive(Debug)]
pub enum PushDownInstruction {
    /// Pop the elements of `current_val` from the top of the stack, then
    /// push the elements of `new_val`.
    Replace { current_val: Vec<u64>, new_val: Vec<u64> },
    /// Like `Replace` on a stack bounded to `limit` elements: elements that
    /// the bound has discarded sit conceptually directly above the sentinel,
    /// so when the stack is popped down to the sentinel, values drawn from
    /// `possible_values` may stand in for them; after pushing, the stack is
    /// truncated to the bottom sentinel plus the `limit - 1` topmost
    /// elements.
    ReplaceK {
        current_val: Vec<u64>,
        new_val: Vec<u64>,
        limit: usize,
        possible_values: Vec<u64>,
    },
}

/// The mathematical value of a `PushDownInstruction`.
#[verifier::ext_equal]
pub enum InstructionModel {
    Replace { current_val: Seq<u64>, new_val: Seq<u64> },
    ReplaceK { current_val: Seq<u64>, new_val: Seq<u64>, limit: nat, possible_values: Seq<u64> },
}

impl View for PushDownInstruction {
    type V = InstructionModel;

    open spec fn view(&self) -> InstructionModel {
        match self {
            PushDownInstruction::Replace { current_val, new_val } => InstructionModel::Replace {
                current_val: current_val@,
                new_val: new_val@,
            },
            PushDownInstruction::ReplaceK { current_val, new_val, limit, possible_values } =>
                InstructionModel::ReplaceK {
                current_val: current_val@,
                new_val: new_val@,
                limit: *limit as nat,
                possible_values: possible_values@,
            },
        }
    }
}

/// One weighted step of an automaton.
#[derive(Debug)]
pub struct Transition {
    /// The input symbols this step consumes, in order; possibly empty.
    pub word: Vec<u64>,
    /// The weight of the step.
    pub weight: u64,
    /// The storage instruction of the step.
    pub instruction: PushDownInstruction,
}

/// The mathematical value of a `Transition`.
#[verifier::ext_equal]
pub struct TransitionModel {
    pub word: Seq<u64>,
    pub weight: u64,
    pub instruction: InstructionModel,
}

impl View for Transition {
    type V = TransitionModel;

    open spec fn view(&self) -> TransitionModel {
        TransitionModel { word: self.word@, weight: self.weight, instruction: self.instruction@ }
    }
}

/// A final storage together with the run that reached it.
#[derive(Debug)]
pub struct Item {
    /// The storage of the final configuration.
    pub storage: Vec<u64>,
    /// The transitions applied, in application order.
    pub run: Vec<Transition>,
    /// The weight of the run: the product of the weights of its members.
    pub weight: u64,
}

/// The mathematical value of an `Item`.
#[verifier::ext_equal]
pub struct ItemModel {
    pub storage: Seq<u64>,
    pub run: Seq<TransitionModel>,
    pub weight: u64,
}

/// The mathematical value of a run: the sequence of the values of its
/// transitions.
pub open spec fn run_view(run: Seq<Transition>) -> Seq<TransitionModel> {
    run.map_values(|t: Transition| t@)
}

impl View for Item {
    type V = ItemModel;

    open spec fn view(&self) -> ItemModel {
        ItemModel { storage: self.storage@, run: run_view(self.run@), weight: self.weight }
    }
}

/// The word consumed by a run: the concatenation of the words of its
/// members, in application order.
pub open spec fn run_word(run: Seq<TransitionModel>) -> Seq<u64>
    decreases run.len(),
{
    if run.len() == 0 {
        Seq::<u64>::empty()
    } else {
        run_word(run.drop_last()) + run.last().word
    }
}

/// The weight of a run: the product of the weights of its members.
pub open spec fn run_weight(run: Seq<TransitionModel>) -> u64
    decreases run.len(),
{
    if run.len() == 0 {
        1u64
    } else {
        w_mul(run_weight(run.drop_last()), run.last().weight)
    }
}

/// Every member of `run` is a transition of `transitions`.
pub open spec fn run_in(transitions: Seq<TransitionModel>, run: Seq<TransitionModel>) -> bool {
    forall|i: int| 0 <= i < run.len() ==> transitions.contains(#[trigger] run[i])
}

impl Clone for PushDownInstruction {
    /// Cloning preserves the mathematical value.
    fn clone(&self) -> (r: Self)
        ensures
            r@ == self@,
    {
        match self {
            PushDownInstruction::Replace { current_val, new_val } => {
                let r = PushDownInstruction::Replace {
                    current_val: current_val.clone(),
                    new_val: new_val.clone(),
                };
                proof {
                    assert(r@ =~= self@);
                }
                r
            },
            PushDownInstruction::ReplaceK { current_val, new_val, limit, possible_values } => {
                let r = PushDownInstruction::ReplaceK {
                    current_val: current_val.clone(),
                    new_val: new_val.clone(),
                    limit: *limit,
                    possible_values: possible_values.clone(),
                };
                proof {
                    assert(r@ =~= self@);
                }
                r
            },
        }
    }
}

impl Clone for Transition {
    /// Cloning preserves the mathematical value.
    fn clone(&self) -> (r: Self)
        ensures
            r@ == self@,
    {
        let r = Transition {
            word: self.word.clone(),
            weight: self.weight,
            instruction: self.instruction.clone(),
        };
        proof {
            assert(r@ =~= self@);
        }
        r
    }
}

impl Clone for Item {
    /// Cloning preserves the mathematical value.
    fn clone(&self) -> (r: Self)
        ensures
            r@ == self@,
    {
        let run = clone_run(&self.run);
        let r = Item { storage: self.storage.clone(), run, weight: self.weight };
        proof {
            assert(r@ =~= self@);
        }
        r
    }
}

/// Runs that agree member by member on the consumed symbols consume the
/// same word.
pub proof fn lemma_run_word_eq(r1: Seq<TransitionModel>, r2: Seq<TransitionModel>)
    requires
        r1.len() == r2.len(),
        forall|i: int| 0 <= i < r1.len() ==> (#[trigger] r1[i]).word == r2[i].word,
    ensures
        run_word(r1) == run_word(r2),
    decreases r1.len(),
{
    if r1.len() > 0 {
        assert(forall|i: int|
            0 <= i < r1.len() - 1 ==> (#[trigger] r1.drop_last()[i]).word == r2.drop_last()[i].word);
        lemma_run_word_eq(r1.drop_last(), r2.drop_last());
    }
}

/// Appending a transition to a run appends its value to the run's value.
pub proof fn lemma_run_view_push(run: Seq<Transition>, t: Transition)
    ensures
        run_view(run.push(t)) =~= run_view(run).push(t@),
{
    assert forall|j: int| 0 <= j < run.len() + 1 implies run_view(run.push(t))[j] == run_view(
        run,
    ).push(t@)[j] by {
        assert(run_view(run.push(t))[j] == run.push(t)[j]@);
        if j < run.len() {
            assert(run_view(run)[j] == run[j]@);
        }
    }
}

/// The mathematical value of a buffer of items.
pub open spec fn items_view(items: Seq<Item>) -> Seq<ItemModel> {
    items.map_values(|it: Item| it@)
}

/// The greatest weight among `items`, or `0` where there are none.
pub open spec fn buf_max(items: Seq<ItemModel>) -> u64
    decreases items.len(),
{
    if items.len() == 0 {
        0u64
    } else {
        let m = buf_max(items.drop_last());
        if items.last().weight > m {
            items.last().weight
        } else {
            m
        }
    }
}

/// Every item weighs at most `buf_max`.
pub proof fn lemma_buf_max_upper_bound(items: Seq<ItemModel>)
    ensures
        forall|i: int| 0 <= i < items.len() ==> #[trigger] items[i].weight <= buf_max(items),
    decreases items.len(),
{
    if items.len() > 0 {
        lemma_buf_max_upper_bound(items.drop_last());
        assert(forall|i: int| 0 <= i < items.len() - 1 ==> items[i] == items.drop_last()[i]);
    }
}

/// A bound on every item's weight is a bound on `buf_max`.
pub proof fn lemma_buf_max_le(items: Seq<ItemModel>, b: u64)
    requires
        forall|i: int| 0 <= i < items.len() ==> #[trigger] items[i].weight <= b,
    ensures
        buf_max(items) <= b,
    decreases items.len(),
{
    if items.len() > 0 {
        assert(forall|i: int| 0 <= i < items.len() - 1 ==> items.drop_last()[i] == items[i]);
        lemma_buf_max_le(items.drop_last(), b);
    }
}

/// Removes and returns an item of greatest weight, or `None` where the
/// buffer is empty.
pub fn pop_max_item(items: &mut Vec<Item>) -> (r: Option<Item>)
    ensures
        old(items)@.len() == 0 ==> r is None && final(items)@ == old(items)@,
        old(items)@.len() > 0 ==> (r matches Some(it) && {
            &&& exists|i: int| 0 <= i < old(items)@.len() && it@ == #[trigger] old(items)@[i]@
            &&& forall|i: int|
                0 <= i < old(items)@.len() ==> #[trigger] old(items)@[i]@.weight <= it@.weight
            &&& final(items)@.len() == old(items)@.len() - 1
            &&& forall|j: int|
                0 <= j < final(items)@.len() ==> exists|i: int|
                    0 <= i < old(items)@.len() && #[trigger] final(items)@[j]@ == old(items)@[i]@
        }),
{
    if items.len() == 0 {
        return None;
    }
    let mut mi: usize = 0;
    let mut i: usize = 1;
    while i < items.len()
        invariant
            mi < i,
            i <= items@.len(),
            forall|j: int| 0 <= j < i ==> #[trigger] items@[j]@.weight <= items@[mi as int]@.weight,
        decreases items.len() - i,
    {
        if items[i].weight > items[mi].weight {
            mi = i;
        }
        i = i + 1;
    }
    let it = items.swap_remove(mi);
    proof {
        assert(it@ == old(items)@[mi as int]@);
        assert forall|j: int| 0 <= j < items@.len() implies exists|i: int|
            0 <= i < old(items)@.len() && #[trigger] items@[j]@ == old(items)@[i]@ by {
            if j == mi {
                assert(items@[j] == old(items)@[old(items)@.len() - 1]);
            } else {
                assert(items@[j] == old(items)@[j]);
            }
        }
    }
    Some(it)
}

/// Clones a run; the mathematical value is preserved.
pub fn clone_run(run: &Vec<Transition>) -> (r: Vec<Transition>)
    ensures
        run_view(r@) == run_view(run@),
{
    let mut r: Vec<Transition> = Vec::new();
    let mut i: usize = 0;
    while i < run.len()
        invariant
            i <= run.len(),
            run_view(r@) =~= run_view(run@).take(i as int),
        decreases run.len() - i,
    {
        let t = run[i].clone();
        proof {
            assert(run_view(r@).len() == r@.len());
            assert(run_view(run@).len() == run@.len());
            assert(r@.len() == i as int);
        }
        r.push(t);
        proof {
            assert(r@.len() == i + 1);
            assert forall|j: int| 0 <= j < i + 1 implies run_view(r@)[j] == run_view(run@).take(
                i + 1,
            )[j] by {
                assert(run_view(r@)[j] == r@[j]@);
                assert(run_view(run@)[j] == run@[j]@);
                if j < i {
                    assert(run_view(r@)[j] == run_view(run@).take(i as int)[j]);
                }
            }
            assert(run_view(r@) =~= run_view(run@).take(i + 1));
        }
        i = i + 1;
    }
    proof {
        assert(run_view(run@).take(run@.len() as int) =~= run_view(run@));
    }
    r
}

/// Decides equality of the mathematical values of two symbol vectors.
pub fn symbols_eq(a: &Vec<u64>, b: &Vec<u64>) -> (r: bool)
    ensures
        r == (a@ == b@),
{
    if a.len() != b.len() {
        proof {
            assert(a@ != b@);
        }
        return false;
    }
    let mut i: usize = 0;
    while i < a.len()
        invariant
            i <= a.len(),
            a@.len() == b@.len(),
            forall|j: int| 0 <= j < i ==> a@[j] == b@[j],
        decreases a.len() - i,
    {
        if a[i] != b[i] {
            proof {
                assert(a@ != b@);
            }
            return false;
        }
        i = i + 1;
    }
    proof {
        assert(a@ =~= b@);
    }
    true
}

/// Decides equality of the mathematical values of two instructions.
pub fn instructions_eq(a: &PushDownInstruction, b: &PushDownInstruction) -> (r: bool)
    ensures
        r == (a@ == b@),
{
    match (a, b) {
        (
            PushDownInstruction::Replace { current_val: ac, new_val: an },
            PushDownInstruction::Replace { current_val: bc, new_val: bn },
        ) => symbols_eq(ac, bc) && symbols_eq(an, bn),
        (
            PushDownInstruction::ReplaceK {
                current_val: ac,
                new_val: an,
                limit: al,
                possible_values: ap,
            },
            PushDownInstruction::ReplaceK {
                current_val: bc,
                new_val: bn,
                limit: bl,
                possible_values: bp,
            },
        ) => *al == *bl && symbols_eq(ac, bc) && symbols_eq(an, bn) && symbols_eq(ap, bp),
        _ => {
            proof {
                assert(a@ != b@);
            }
            false
        },
    }
}

/// Decides equality of the mathematical values of two transitions.
pub fn transitions_eq(a: &Transition, b: &Transition) -> (r: bool)
    ensures
        r == (a@ == b@),
{
    let r = a.weight == b.weight && symbols_eq(&a.word, &b.word) && instructions_eq(
        &a.instruction,
        &b.instruction,
    );
    proof {
        if a.weight == b.weight && a.word@ == b.word@ && a.instruction@ == b.instruction@ {
            assert(a@ =~= b@);
        }
    }
    r
}

} // verus!
