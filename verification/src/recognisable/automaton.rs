//! Pushdown storage semantics and the concrete automaton.
//!
//! The storage is a stack of `u64` values held in a `Vec` whose element at
//! index `0` is the bottom sentinel and whose last element is the top.  A
//! configuration is accepting when only the sentinel is left.

use vstd::prelude::*;

use crate::recognisable::{
    clone_run, run_in, run_view, run_weight, run_word, InstructionModel, Item, ItemModel,
    PushDownInstruction, Transition, TransitionModel,
};
use crate::weight::{w_mul, weight_mul};

verus! {

/// The topmost `j` elements of `s` equal the first `j` elements of `cur`.
pub open spec fn tops_match(s: Seq<u64>, cur: Seq<u64>, j: int) -> bool {
    forall|i: int| 0 <= i < j ==> s[s.len() - 1 - i] == cur[i]
}

/// Pops the topmost `j` elements of `s`, then pushes the elements of `new`,
/// so that `new[0]` ends up topmost.
pub open spec fn pop_push(s: Seq<u64>, j: int, new: Seq<u64>) -> Seq<u64> {
    s.take(s.len() - j) + new.reverse()
}

/// Keeps the bottom sentinel and the `k - 1` topmost elements of `s`; a
/// bound of zero keeps only the sentinel.
pub open spec fn truncate_to(s: Seq<u64>, k: nat) -> Seq<u64> {
    if s.len() <= k {
        s
    } else if k == 0 {
        seq![s[0]]
    } else {
        seq![s[0]] + s.skip(s.len() - (k - 1))
    }
}

/// The result of a `Replace` instruction on storage `s`, if it applies:
/// all of `current_val` must be present on top of the stack, and the
/// sentinel survives.
pub open spec fn apply_replace(s: Seq<u64>, cur: Seq<u64>, new: Seq<u64>) -> Option<Seq<u64>> {
    if cur.len() < s.len() && tops_match(s, cur, cur.len() as int) {
        Some(pop_push(s, cur.len() as int, new))
    } else {
        None
    }
}

/// The result of a `ReplaceK` instruction on storage `s`, if it applies.
///
/// Elements discarded by the bound sit conceptually directly above the
/// sentinel, so when fewer than `current_val.len()` elements are present,
/// the missing ones may be guessed, provided each guessed value is listed in
/// `possible_values`.  After pushing, the stack is truncated to the sentinel
/// plus the `limit - 1` topmost elements.
pub open spec fn apply_replacek(
    s: Seq<u64>,
    cur: Seq<u64>,
    new: Seq<u64>,
    limit: nat,
    poss: Seq<u64>,
) -> Option<Seq<u64>> {
    if s.len() < 1 || limit < 1 {
        None
    } else {
        let avail = s.len() - 1;
        let j: int = if cur.len() <= avail {
            cur.len() as int
        } else {
            avail
        };
        if tops_match(s, cur, j) && (forall|i: int| j <= i < cur.len() ==> poss.contains(cur[i])) {
            Some(truncate_to(pop_push(s, j, new), limit))
        } else {
            None
        }
    }
}

/// Keeps the bottom sentinel and the `k - 1` topmost elements of a storage
/// that exceeds `k` elements.
pub fn truncate_storage(s: &Vec<u64>, k: usize) -> (r: Vec<u64>)
    requires
        1 <= k,
        k < s@.len(),
    ensures
        r@ == truncate_to(s@, k as nat),
{
    let mut out: Vec<u64> = Vec::new();
    out.push(s[0]);
    let start = s.len() - (k - 1);
    let mut i: usize = start;
    while i < s.len()
        invariant
            start <= i,
            i <= s@.len(),
            start == s@.len() - (k - 1),
            1 <= k,
            k < s@.len(),
            out@ =~= seq![s@[0]] + s@.skip(start as int).take((i - start) as int),
        decreases s.len() - i,
    {
        out.push(s[i]);
        proof {
            assert(out@ =~= seq![s@[0]] + s@.skip(start as int).take((i + 1 - start) as int));
        }
        i = i + 1;
    }
    proof {
        assert(s@.skip(start as int).take(s@.len() - start) =~= s@.skip(start as int));
        assert(out@ == truncate_to(s@, k as nat));
    }
    out
}

/// The result of an instruction on storage `s`, or `None` where it does not
/// apply.
pub open spec fn apply_instruction_model(i: InstructionModel, s: Seq<u64>) -> Option<Seq<u64>> {
    match i {
        InstructionModel::Replace { current_val, new_val } => apply_replace(
            s,
            current_val,
            new_val,
        ),
        InstructionModel::ReplaceK { current_val, new_val, limit, possible_values } =>
            apply_replacek(s, current_val, new_val, limit, possible_values),
    }
}

/// Decides whether `v` lists the symbol `x`.
pub fn contains_symbol(v: &Vec<u64>, x: u64) -> (r: bool)
    ensures
        r == v@.contains(x),
{
    let mut i: usize = 0;
    while i < v.len()
        invariant
            i <= v.len(),
            forall|j: int| 0 <= j < i ==> v@[j] != x,
        decreases v.len() - i,
    {
        if v[i] == x {
            return true;
        }
        i = i + 1;
    }
    false
}

/// Pops the topmost `j` elements of `s`, then pushes the elements of `new`
/// in reverse order, matching `pop_push`.
fn pop_push_exec(s: &Vec<u64>, j: usize, new: &Vec<u64>) -> (r: Vec<u64>)
    requires
        j <= s@.len(),
    ensures
        r@ == pop_push(s@, j as int, new@),
{
    let mut r: Vec<u64> = Vec::new();
    let keep = s.len() - j;
    let mut i: usize = 0;
    while i < keep
        invariant
            i <= keep,
            keep == s@.len() - j,
            j <= s@.len(),
            r@ =~= s@.take(keep as int).take(i as int),
        decreases keep - i,
    {
        r.push(s[i]);
        proof {
            assert(r@ =~= s@.take(keep as int).take(i + 1));
        }
        i = i + 1;
    }
    proof {
        assert(s@.take(keep as int).take(keep as int) =~= s@.take(keep as int));
    }
    let mut k: usize = new.len();
    while k > 0
        invariant
            k <= new@.len(),
            r@ =~= s@.take((s@.len() - j) as int) + new@.reverse().take(
                (new@.len() - k) as int,
            ),
        decreases k,
    {
        k = k - 1;
        r.push(new[k]);
        proof {
            assert(new@.reverse()[new@.len() - k - 1] == new@[k as int]);
            assert(r@ =~= s@.take((s@.len() - j) as int) + new@.reverse().take(
                (new@.len() - k) as int,
            ));
        }
    }
    proof {
        assert(new@.reverse().take(new@.len() as int) =~= new@.reverse());
    }
    r
}

/// Checks that the topmost `j` elements of `s` equal the first `j` elements
/// of `cur`.
fn tops_match_exec(s: &Vec<u64>, cur: &Vec<u64>, j: usize) -> (r: bool)
    requires
        j <= s@.len(),
        j <= cur@.len(),
    ensures
        r == tops_match(s@, cur@, j as int),
{
    let mut i: usize = 0;
    while i < j
        invariant
            i <= j,
            j <= s@.len(),
            j <= cur@.len(),
            forall|m: int| 0 <= m < i ==> s@[s@.len() - 1 - m] == cur@[m],
        decreases j - i,
    {
        if s[s.len() - 1 - i] != cur[i] {
            return false;
        }
        i = i + 1;
    }
    true
}

/// Applies an instruction to a storage; returns `None` where the
/// instruction does not apply.
pub fn apply_instruction(instr: &PushDownInstruction, s: &Vec<u64>) -> (r: Option<Vec<u64>>)
    ensures
        (r matches Some(v) ==> apply_instruction_model(instr@, s@) == Some(v@)),
        (r is None ==> apply_instruction_model(instr@, s@) is None),
{
    match instr {
        PushDownInstruction::Replace { current_val, new_val } => {
            if current_val.len() < s.len() && tops_match_exec(s, current_val, current_val.len()) {
                Some(pop_push_exec(s, current_val.len(), new_val))
            } else {
                None
            }
        },
        PushDownInstruction::ReplaceK { current_val, new_val, limit, possible_values } => {
            if s.len() < 1 || *limit < 1 {
                return None;
            }
            let avail = s.len() - 1;
            let j = if current_val.len() <= avail {
                current_val.len()
            } else {
                avail
            };
            if !tops_match_exec(s, current_val, j) {
                return None;
            }
            let mut m: usize = j;
            while m < current_val.len()
                invariant
                    j <= m,
                    m <= current_val@.len(),
                    s@.len() >= 1,
                    1 <= *limit,
                    j as int == (if current_val@.len() <= s@.len() - 1 {
                        current_val@.len() as int
                    } else {
                        s@.len() - 1
                    }),
                    forall|i: int| j <= i < m ==> possible_values@.contains(current_val@[i]),
                    instr@ == (InstructionModel::ReplaceK {
                        current_val: current_val@,
                        new_val: new_val@,
                        limit: *limit as nat,
                        possible_values: possible_values@,
                    }),
                decreases current_val.len() - m,
            {
                if !contains_symbol(possible_values, current_val[m]) {
                    return None;
                }
                m = m + 1;
            }
            let pushed = pop_push_exec(s, j, new_val);
            if pushed.len() <= *limit {
                proof {
                    assert(truncate_to(pushed@, *limit as nat) == pushed@);
                }
                Some(pushed)
            } else {
                let mut out: Vec<u64> = Vec::new();
                out.push(pushed[0]);
                let start = pushed.len() - (*limit - 1);
                let mut i: usize = start;
                while i < pushed.len()
                    invariant
                        start <= i,
                        i <= pushed@.len(),
                        start == pushed@.len() - (*limit - 1),
                        1 <= *limit,
                        *limit < pushed@.len(),
                        out@ =~= seq![pushed@[0]] + pushed@.skip(start as int).take(
                            (i - start) as int,
                        ),
                    decreases pushed.len() - i,
                {
                    out.push(pushed[i]);
                    proof {
                        assert(out@ =~= seq![pushed@[0]] + pushed@.skip(start as int).take(
                            (i + 1 - start) as int,
                        ));
                    }
                    i = i + 1;
                }
                proof {
                    assert(pushed@.skip(start as int).take(pushed@.len() - start) =~= pushed@.skip(
                        start as int,
                    ));
                    assert(out@ == truncate_to(pushed@, *limit as nat));
                }
                Some(out)
            }
        },
    }
}

/// The storage reached by applying the members of `run` in order, starting
/// from `init`; `None` where some member does not apply.
pub open spec fn run_result(init: Seq<u64>, run: Seq<TransitionModel>) -> Option<Seq<u64>>
    decreases run.len(),
{
    if run.len() == 0 {
        Some(init)
    } else {
        match run_result(init, run.drop_last()) {
            Some(s) => apply_instruction_model(run.last().instruction, s),
            None => None,
        }
    }
}

/// A storage is accepting when only the bottom sentinel is left.
pub open spec fn accepting(s: Seq<u64>) -> bool {
    s.len() == 1
}

/// The mathematical value of a `PushDownAutomaton`.
#[verifier::ext_equal]
pub struct AutomatonModel {
    pub transitions: Seq<TransitionModel>,
    pub initial: Seq<u64>,
}

/// `it` is a correct recognition result of the automaton `aut` on `word`:
/// its run uses only transitions of `aut`, reaches `it.storage` from the
/// initial storage, is accepting, consumes exactly `word`, and carries the
/// product of its members' weights.
pub open spec fn item_sound(aut: AutomatonModel, word: Seq<u64>, it: ItemModel) -> bool {
    &&& run_in(aut.transitions, it.run)
    &&& run_result(aut.initial, it.run) == Some(it.storage)
    &&& accepting(it.storage)
    &&& run_word(it.run) == word
    &&& it.weight == run_weight(it.run)
}

/// Extending a run by one transition applies that transition's instruction
/// to the reached storage, appends its word, and multiplies in its weight.
pub proof fn lemma_run_extend(init: Seq<u64>, run: Seq<TransitionModel>, t: TransitionModel)
    ensures
        run_result(init, run.push(t)) == (match run_result(init, run) {
            Some(s) => apply_instruction_model(t.instruction, s),
            None => None::<Seq<u64>>,
        }),
        run_word(run.push(t)) == run_word(run) + t.word,
        run_weight(run.push(t)) == w_mul(run_weight(run), t.weight),
{
    assert(run.push(t).drop_last() =~= run);
    assert(run.push(t).last() == t);
}

/// A weighted pushdown automaton: a set of transitions and an initial
/// storage.
pub struct PushDownAutomaton {
    transitions: Vec<Transition>,
    initial: Vec<u64>,
}

impl View for PushDownAutomaton {
    type V = AutomatonModel;

    closed spec fn view(&self) -> AutomatonModel {
        AutomatonModel { transitions: run_view(self.transitions@), initial: self.initial@ }
    }
}

impl Clone for PushDownAutomaton {
    /// Cloning preserves the mathematical value.
    fn clone(&self) -> (r: Self)
        ensures
            r@ == self@,
    {
        let r = PushDownAutomaton {
            transitions: clone_run(&self.transitions),
            initial: self.initial.clone(),
        };
        proof {
            assert(r@ =~= self@);
        }
        r
    }
}

impl PushDownAutomaton {
    /// Builds an automaton from its transitions and its initial storage.
    pub fn from_transitions(transitions: Vec<Transition>, initial: Vec<u64>) -> (r: Self)
        ensures
            r@.transitions == run_view(transitions@),
            r@.initial == initial@,
    {
        PushDownAutomaton { transitions, initial }
    }

    /// The transitions of the automaton.
    pub fn transitions(&self) -> (r: &Vec<Transition>)
        ensures
            run_view(r@) == self@.transitions,
    {
        &self.transitions
    }

    /// A copy of the initial storage.
    pub fn initial(&self) -> (r: Vec<u64>)
        ensures
            r@ == self@.initial,
    {
        self.initial.clone()
    }

    /// Replays a candidate run.  Returns one item, carrying the reached
    /// storage and the run's weight, where the run applies from the initial
    /// storage and ends accepting; returns no item otherwise.  An invalid
    /// run is a normal outcome, not an error.
    pub fn check_run(&self, run: &Vec<Transition>) -> (r: Vec<Item>)
        ensures
            ({
                let res = run_result(self@.initial, run_view(run@));
                &&& (res matches Some(st) ==> (if accepting(st) {
                    r@.len() == 1 && r@[0]@ == (ItemModel {
                        storage: st,
                        run: run_view(run@),
                        weight: run_weight(run_view(run@)),
                    })
                } else {
                    r@.len() == 0
                }))
                &&& (res is None ==> r@.len() == 0)
            }),
    {
        let rv = Ghost(run_view(run@));
        let mut storage = self.initial.clone();
        let mut weight: u64 = 1;
        let mut i: usize = 0;
        while i < run.len()
            invariant
                i <= run.len(),
                rv@ == run_view(run@),
                rv@.len() == run@.len(),
                run_result(self@.initial, rv@.take(i as int)) == Some(storage@),
                weight == run_weight(rv@.take(i as int)),
            decreases run.len() - i,
        {
            proof {
                assert(rv@.take(i + 1).drop_last() =~= rv@.take(i as int));
                assert(rv@.take(i + 1).last() == rv@[i as int]);
            }
            match apply_instruction(&run[i].instruction, &storage) {
                Some(next_storage) => {
                    storage = next_storage;
                    weight = weight_mul(weight, run[i].weight);
                },
                None => {
                    proof {
                        lemma_run_result_prefix_none(self@.initial, rv@, i + 1);
                    }
                    return Vec::new();
                },
            }
            i = i + 1;
        }
        proof {
            assert(rv@.take(run@.len() as int) =~= rv@);
        }
        if storage.len() == 1 {
            let it = Item { storage, run: clone_run(run), weight };
            let mut r: Vec<Item> = Vec::new();
            r.push(it);
            r
        } else {
            Vec::new()
        }
    }
}

/// `r` is an accepting run of `aut` on `word`: it uses only transitions of
/// `aut`, replays from the initial storage to an accepting one, and
/// consumes exactly `word`.
pub open spec fn is_accepting_run(
    aut: AutomatonModel,
    word: Seq<u64>,
    r: Seq<TransitionModel>,
) -> bool {
    &&& run_in(aut.transitions, r)
    &&& (run_result(aut.initial, r) matches Some(st) && accepting(st))
    &&& run_word(r) == word
}

/// `r` is a partial run of `aut` consuming a prefix of `word`.
pub open spec fn partial_run_ok(
    aut: AutomatonModel,
    word: Seq<u64>,
    r: Seq<TransitionModel>,
) -> bool {
    &&& run_in(aut.transitions, r)
    &&& run_result(aut.initial, r) is Some
    &&& run_word(r).len() <= word.len()
    &&& run_word(r) == word.take(run_word(r).len() as int)
}

/// Some buffered item carries the run `r`.
pub open spec fn found_has_run(items: Seq<Item>, r: Seq<TransitionModel>) -> bool {
    exists|i: int| 0 <= i < items.len() && (#[trigger] items[i])@.run == r
}

/// The word consumed by a prefix of a run is a prefix of the word consumed
/// by the whole run.
pub proof fn lemma_run_word_take(r: Seq<TransitionModel>, i: int)
    requires
        0 <= i <= r.len(),
    ensures
        run_word(r.take(i)).len() <= run_word(r).len(),
        run_word(r.take(i)) == run_word(r).take(run_word(r.take(i)).len() as int),
    decreases r.len() - i,
{
    if i == r.len() {
        assert(r.take(i) =~= r);
        assert(run_word(r).take(run_word(r).len() as int) =~= run_word(r));
    } else {
        lemma_run_word_take(r, i + 1);
        assert(r.take(i + 1).drop_last() =~= r.take(i));
        assert(r.take(i + 1).last() == r[i]);
        assert(run_word(r.take(i + 1)) == run_word(r.take(i)) + r[i].word);
        let l0 = run_word(r.take(i)).len() as int;
        let l1 = run_word(r.take(i + 1)).len() as int;
        assert(run_word(r.take(i)) =~= run_word(r.take(i + 1)).take(l0));
        assert(run_word(r.take(i + 1)).take(l0) =~= run_word(r).take(l1).take(l0));
        assert(run_word(r).take(l1).take(l0) =~= run_word(r).take(l0));
    }
}

/// A lazy, weight-descending sequence of the items found on a word.
///
/// `next` hands the items out in non-increasing order of weight.
pub struct PushDownParseForest {
    items: Vec<Item>,
    aut: Ghost<AutomatonModel>,
    input: Ghost<Seq<u64>>,
}

impl PushDownParseForest {
    /// The automaton whose items this sequence yields.
    pub closed spec fn automaton_model(&self) -> AutomatonModel {
        self.aut@
    }

    /// The word this sequence was asked for.
    pub closed spec fn input_model(&self) -> Seq<u64> {
        self.input@
    }

    /// Every item still to come is a correct recognition result.
    pub closed spec fn wf(&self) -> bool {
        forall|i: int|
            0 <= i < self.items@.len() ==> item_sound(self.aut@, self.input@, self.items@[i]@)
    }

    /// An upper bound on the weight of every item still to come.
    pub closed spec fn cap(&self) -> u64 {
        crate::recognisable::buf_max(crate::recognisable::items_view(self.items@))
    }

    /// The number of items still to come.
    pub closed spec fn remaining(&self) -> nat {
        self.items@.len()
    }

    /// Some item still to come carries the run `r`.
    pub closed spec fn has_run(&self, r: Seq<TransitionModel>) -> bool {
        found_has_run(self.items@, r)
    }

    /// A sequence holding a run has not yet been exhausted.
    pub proof fn lemma_has_run_remaining(&self, r: Seq<TransitionModel>)
        requires
            self.has_run(r),
        ensures
            self.remaining() > 0,
    {
    }

    /// Yields the next item: one of greatest weight among those still to
    /// come, so that successive results are non-increasing in weight.
    pub fn next(&mut self) -> (r: Option<Item>)
        requires
            old(self).wf(),
        ensures
            final(self).wf(),
            final(self).automaton_model() == old(self).automaton_model(),
            final(self).input_model() == old(self).input_model(),
            final(self).cap() <= old(self).cap(),
            (r matches Some(it) ==> {
                &&& item_sound(final(self).automaton_model(), final(self).input_model(), it@)
                &&& it@.weight == old(self).cap()
                &&& final(self).cap() <= it@.weight
                &&& final(self).remaining() < old(self).remaining()
            }),
            (r is None ==> final(self).remaining() == old(self).remaining() && old(
                self,
            ).remaining() == 0),
    {
        let ghost old_items = self.items@;
        let r = crate::recognisable::pop_max_item(&mut self.items);
        proof {
            crate::recognisable::lemma_buf_max_upper_bound(
                crate::recognisable::items_view(old_items),
            );
            if old_items.len() > 0 {
                let it = r.unwrap();
                assert forall|j: int| 0 <= j < self.items@.len() implies #[trigger] crate::recognisable::items_view(
                    self.items@,
                )[j].weight <= it@.weight by {
                    assert(crate::recognisable::items_view(self.items@)[j] == self.items@[j]@);
                }
                crate::recognisable::lemma_buf_max_le(
                    crate::recognisable::items_view(self.items@),
                    it@.weight,
                );
                let i = choose|i: int| 0 <= i < old_items.len() && it@ == old_items[i]@;
                assert(crate::recognisable::items_view(old_items)[i] == old_items[i]@);
                assert forall|j: int|
                    0 <= j < old_items.len() implies #[trigger] crate::recognisable::items_view(
                    old_items,
                )[j].weight <= it@.weight by {
                    assert(crate::recognisable::items_view(old_items)[j] == old_items[j]@);
                }
                crate::recognisable::lemma_buf_max_le(
                    crate::recognisable::items_view(old_items),
                    it@.weight,
                );
            }
        }
        r
    }
}

/// A partial run kept on the search frontier.
struct PartialRun {
    storage: Vec<u64>,
    pos: usize,
    run: Vec<Transition>,
    weight: u64,
}

/// The frontier invariant: the partial run replays correctly from the
/// initial storage and has consumed exactly the first `pos` input symbols.
spec fn partial_ok(aut: AutomatonModel, word: Seq<u64>, p: PartialRun) -> bool {
    &&& run_in(aut.transitions, run_view(p.run@))
    &&& run_result(aut.initial, run_view(p.run@)) == Some(p.storage@)
    &&& p.pos <= word.len()
    &&& run_word(run_view(p.run@)) == word.take(p.pos as int)
    &&& p.weight == run_weight(run_view(p.run@))
}

/// Checks that the transition word `tw` occurs in `word` at position `pos`.
fn word_matches(word: &Vec<u64>, pos: usize, tw: &Vec<u64>) -> (r: bool)
    requires
        pos <= word@.len(),
    ensures
        r == (pos + tw@.len() <= word@.len() && word@.subrange(pos as int, pos + tw@.len())
            =~= tw@),
{
    if tw.len() > word.len() - pos {
        return false;
    }
    let mut i: usize = 0;
    while i < tw.len()
        invariant
            i <= tw@.len(),
            pos + tw@.len() <= word.len(),
            forall|j: int| 0 <= j < i ==> word@[pos + j] == tw@[j],
        decreases tw.len() - i,
    {
        if word[pos + i] != tw[i] {
            return false;
        }
        i = i + 1;
    }
    proof {
        assert(word@.subrange(pos as int, pos + tw@.len()) =~= tw@);
    }
    true
}

/// Extends a partial run by one transition, if that transition applies to
/// its storage and its word occurs next in the input.  Also reports the
/// extension as an item where it is accepting and has consumed the whole
/// input.
fn extend_partial(aut: &PushDownAutomaton, word: &Vec<u64>, p: &PartialRun, t: &Transition) -> (r:
    Option<(PartialRun, Option<Item>)>)
    requires
        partial_ok(aut@, word@, *p),
        aut@.transitions.contains(t@),
    ensures
        (r matches Some(pair) ==> {
            &&& partial_ok(aut@, word@, pair.0)
            &&& run_view(pair.0.run@) == run_view(p.run@).push(t@)
            &&& pair.0.pos == p.pos + t.word@.len()
            &&& apply_instruction_model(t@.instruction, p.storage@) == Some(pair.0.storage@)
            &&& ((pair.0.pos == word@.len() && accepting(pair.0.storage@)) <==> pair.1 is Some)
            &&& (pair.1 matches Some(it) ==> item_sound(aut@, word@, it@) && it@.run == run_view(
                pair.0.run@,
            ))
        }),
        (r is None ==> !(p.pos + t.word@.len() <= word@.len() && word@.subrange(
            p.pos as int,
            p.pos + t.word@.len(),
        ) == t.word@ && apply_instruction_model(t@.instruction, p.storage@) is Some)),
{
    if !word_matches(word, p.pos, &t.word) {
        return None;
    }
    match apply_instruction(&t.instruction, &p.storage) {
        Some(storage2) => {
            let mut run2 = clone_run(&p.run);
            run2.push(t.clone());
            proof {
                assert(p.pos + t.word@.len() <= word.len());
            }
            let pos2 = p.pos + t.word.len();
            let weight2 = weight_mul(p.weight, t.weight);
            proof {
                crate::recognisable::lemma_run_view_push(p.run@, *t);
                assert(run_view(run2@) =~= run_view(p.run@).push(t@));
                lemma_run_extend(aut@.initial, run_view(p.run@), t@);
                assert(word@.take(p.pos as int) + t.word@ =~= word@.take(pos2 as int));
                assert(forall|i: int|
                    0 <= i < run_view(p.run@).len() ==> run_view(p.run@).push(t@)[i] == run_view(
                        p.run@,
                    )[i]);
                assert(run_view(p.run@).push(t@)[run_view(p.run@).len() as int] == t@);
            }
            let accepted = pos2 == word.len() && storage2.len() == 1;
            let item = if accepted {
                let it = Item { storage: storage2.clone(), run: clone_run(&run2), weight: weight2 };
                proof {
                    assert(it@.run =~= run_view(run2@));
                    assert(word@.take(word@.len() as int) =~= word@);
                }
                Some(it)
            } else {
                None
            };
            Some((PartialRun { storage: storage2, pos: pos2, run: run2, weight: weight2 }, item))
        },
        None => None,
    }
}

/// Some frontier entry carries the partial run `r`.
spec fn frontier_has(ps: Seq<PartialRun>, r: Seq<TransitionModel>) -> bool {
    exists|a: int| 0 <= a < ps.len() && run_view((#[trigger] ps[a]).run@) == r
}

/// Membership among the found items survives appending another item.
proof fn lemma_found_has_push(items: Seq<Item>, it: Item, r: Seq<TransitionModel>)
    requires
        found_has_run(items, r),
    ensures
        found_has_run(items.push(it), r),
{
    let i = choose|i: int| 0 <= i < items.len() && (#[trigger] items[i])@.run == r;
    assert(items.push(it)[i] == items[i]);
}

/// Membership among the frontier entries survives appending another one.
proof fn lemma_frontier_has_push(ps: Seq<PartialRun>, p: PartialRun, r: Seq<TransitionModel>)
    requires
        frontier_has(ps, r),
    ensures
        frontier_has(ps.push(p), r),
{
    let a = choose|a: int| 0 <= a < ps.len() && run_view((#[trigger] ps[a]).run@) == r;
    assert(ps.push(p)[a] == ps[a]);
}

/// Every prefix of a partial run is a partial run.
pub proof fn lemma_partial_prefix(
    aut: AutomatonModel,
    word: Seq<u64>,
    r: Seq<TransitionModel>,
    d: int,
)
    requires
        partial_run_ok(aut, word, r),
        0 <= d <= r.len(),
    ensures
        partial_run_ok(aut, word, r.take(d)),
{
    assert(forall|i: int| 0 <= i < d ==> r.take(d)[i] == r[i]);
    assert(forall|i: int|
        0 <= i < r.take(d).len() ==> aut.transitions.contains(#[trigger] r.take(d)[i]));
    if run_result(aut.initial, r.take(d)) is None {
        lemma_run_result_prefix_none(aut.initial, r, d);
    }
    lemma_run_word_take(r, d);
    let l0 = run_word(r.take(d)).len() as int;
    assert(run_word(r.take(d)) =~= word.take(l0));
}

/// An accepting run is in particular a partial run.
pub proof fn lemma_accepting_partial(
    aut: AutomatonModel,
    word: Seq<u64>,
    r: Seq<TransitionModel>,
)
    requires
        is_accepting_run(aut, word, r),
    ensures
        partial_run_ok(aut, word, r),
{
    assert(run_word(r) =~= word.take(word.len() as int));
}

/// The length bound on the runs the search explores for a word.
pub open spec fn recognition_bound(word: Seq<u64>) -> nat {
    if word.len() <= (usize::MAX - 16) / 2 {
        (2 * word.len() + 16) as nat
    } else {
        usize::MAX as nat
    }
}

impl PushDownAutomaton {
    /// Searches for accepting runs on `word` and returns them as a lazy
    /// weight-descending sequence of items.
    ///
    /// The search explores runs of length up to `recognition_bound`, so
    /// that it always terminates: every item yielded is a correct
    /// recognition result, and every accepting run within the bound is
    /// among the items yielded.
    pub fn recognise(&self, word: &Vec<u64>) -> (f: PushDownParseForest)
        ensures
            f.wf(),
            f.automaton_model() == self@,
            f.input_model() == word@,
            forall|r: Seq<TransitionModel>|
                #[trigger] is_accepting_run(self@, word@, r) && r.len() <= recognition_bound(word@)
                    ==> f.has_run(r),
    {
        let ghost tv = run_view(self.transitions@);
        let mut found: Vec<Item> = Vec::new();
        let mut frontier: Vec<PartialRun> = Vec::new();
        let initial = self.initial.clone();
        if word.len() == 0 && initial.len() == 1 {
            let it = Item { storage: self.initial.clone(), run: Vec::new(), weight: 1 };
            proof {
                assert(run_view(it.run@) =~= Seq::<TransitionModel>::empty());
                assert(run_word(it@.run) =~= word@);
            }
            found.push(it);
        }
        let p0 = PartialRun { storage: initial, pos: 0, run: Vec::new(), weight: 1 };
        proof {
            assert(run_view(p0.run@) =~= Seq::<TransitionModel>::empty());
            assert(run_word(run_view(p0.run@)) =~= word@.take(0));
        }
        frontier.push(p0);
        let bound: usize = if word.len() <= (usize::MAX - 16) / 2 {
            2 * word.len() + 16
        } else {
            usize::MAX
        };
        proof {
            assert(bound == recognition_bound(word@));
            assert forall|r: Seq<TransitionModel>| #[trigger] is_accepting_run(self@, word@, r)
                && r.len() <= 0 implies found_has_run(found@, r) by {
                assert(r =~= Seq::<TransitionModel>::empty());
                assert(run_word(r) =~= Seq::<u64>::empty());
                assert(word@.len() == 0);
                assert(self@.initial.len() == 1);
                assert(found@[0]@.run == r);
            }
            assert forall|r: Seq<TransitionModel>| #[trigger] partial_run_ok(self@, word@, r)
                && r.len() == 0 implies frontier_has(frontier@, r) by {
                assert(r =~= Seq::<TransitionModel>::empty());
                assert(run_view(frontier@[0].run@) == r);
            }
        }
        let mut depth: usize = 0;
        while depth < bound && frontier.len() > 0
            invariant
                tv == self@.transitions,
                bound == recognition_bound(word@),
                depth <= bound,
                forall|i: int|
                    0 <= i < frontier@.len() ==> partial_ok(self@, word@, #[trigger] frontier@[i]),
                forall|i: int|
                    0 <= i < found@.len() ==> item_sound(self@, word@, #[trigger] found@[i]@),
                forall|r: Seq<TransitionModel>|
                    #[trigger] is_accepting_run(self@, word@, r) && r.len() <= depth
                        ==> found_has_run(found@, r),
                forall|r: Seq<TransitionModel>|
                    #[trigger] partial_run_ok(self@, word@, r) && r.len() == depth
                        ==> frontier_has(frontier@, r),
            decreases bound - depth,
        {
            let mut next_frontier: Vec<PartialRun> = Vec::new();
            let mut pi: usize = 0;
            while pi < frontier.len()
                invariant
                    tv == self@.transitions,
                    pi <= frontier@.len(),
                    forall|i: int|
                        0 <= i < frontier@.len() ==> partial_ok(
                            self@,
                            word@,
                            #[trigger] frontier@[i],
                        ),
                    forall|i: int|
                        0 <= i < next_frontier@.len() ==> partial_ok(
                            self@,
                            word@,
                            #[trigger] next_frontier@[i],
                        ),
                    forall|i: int|
                        0 <= i < found@.len() ==> item_sound(self@, word@, #[trigger] found@[i]@),
                    forall|r: Seq<TransitionModel>|
                        #[trigger] is_accepting_run(self@, word@, r) && r.len() <= depth
                            ==> found_has_run(found@, r),
                    forall|r: Seq<TransitionModel>|
                        partial_run_ok(self@, word@, r) && r.len() == depth + 1
                            && #[trigger] frontier_has(
                            frontier@.take(pi as int),
                            r.drop_last(),
                        ) ==> frontier_has(next_frontier@, r),
                    forall|r: Seq<TransitionModel>|
                        is_accepting_run(self@, word@, r) && r.len() == depth + 1
                            && #[trigger] frontier_has(
                            frontier@.take(pi as int),
                            r.drop_last(),
                        ) ==> found_has_run(found@, r),
                decreases frontier.len() - pi,
            {
                let mut ti: usize = 0;
                while ti < self.transitions.len()
                    invariant
                        tv == self@.transitions,
                        tv.len() == self.transitions@.len(),
                        pi < frontier@.len(),
                        ti <= tv.len(),
                        forall|i: int|
                            0 <= i < frontier@.len() ==> partial_ok(
                                self@,
                                word@,
                                #[trigger] frontier@[i],
                            ),
                        forall|i: int|
                            0 <= i < next_frontier@.len() ==> partial_ok(
                                self@,
                                word@,
                                #[trigger] next_frontier@[i],
                            ),
                        forall|i: int|
                            0 <= i < found@.len() ==> item_sound(
                                self@,
                                word@,
                                #[trigger] found@[i]@,
                            ),
                        forall|r: Seq<TransitionModel>|
                            #[trigger] is_accepting_run(self@, word@, r) && r.len() <= depth
                                ==> found_has_run(found@, r),
                        forall|r: Seq<TransitionModel>|
                            partial_run_ok(self@, word@, r) && r.len() == depth + 1
                                && #[trigger] frontier_has(
                                frontier@.take(pi as int),
                                r.drop_last(),
                            ) ==> frontier_has(next_frontier@, r),
                        forall|r: Seq<TransitionModel>|
                            is_accepting_run(self@, word@, r) && r.len() == depth + 1
                                && #[trigger] frontier_has(
                                frontier@.take(pi as int),
                                r.drop_last(),
                            ) ==> found_has_run(found@, r),
                        forall|r: Seq<TransitionModel>|
                            partial_run_ok(self@, word@, r) && r.len() == depth + 1 && run_view(
                                frontier@[pi as int].run@,
                            ) == r.drop_last() && #[trigger] tv.take(ti as int).contains(
                                r.last(),
                            ) ==> frontier_has(next_frontier@, r),
                        forall|r: Seq<TransitionModel>|
                            is_accepting_run(self@, word@, r) && r.len() == depth + 1 && run_view(
                                frontier@[pi as int].run@,
                            ) == r.drop_last() && #[trigger] tv.take(ti as int).contains(
                                r.last(),
                            ) ==> found_has_run(found@, r),
                    decreases self.transitions.len() - ti,
                {
                    let t = &self.transitions[ti];
                    proof {
                        assert(run_view(self.transitions@)[ti as int] == t@);
                    }
                    let ghost nf0 = next_frontier@;
                    let ghost fd0 = found@;
                    let ghost entry = frontier@[pi as int];
                    let result = extend_partial(self, word, &frontier[pi], t);
                    match result {
                        Some((p2, item)) => {
                            let ghost p2v = p2;
                            match item {
                                Some(it) => {
                                    found.push(it);
                                },
                                None => {},
                            }
                            next_frontier.push(p2);
                        },
                        None => {},
                    }
                    proof {
                        // a candidate run through this entry and this
                        // transition would extend the entry legally
                        assert forall|r: Seq<TransitionModel>|
                            partial_run_ok(self@, word@, r) && r.len() == depth + 1 && run_view(
                                entry.run@,
                            ) == r.drop_last() && r.last() == t@ implies (
                        entry.pos + t@.word.len() <= word@.len() && word@.subrange(
                            entry.pos as int,
                            entry.pos + t@.word.len(),
                        ) == t@.word && apply_instruction_model(t@.instruction, entry.storage@)
                            == run_result(self@.initial, r) && run_word(r).len() == entry.pos
                            + t@.word.len()) by {
                            assert(r.drop_last().push(r.last()) =~= r);
                            lemma_run_extend(self@.initial, r.drop_last(), r.last());
                            assert(run_word(r) == run_word(r.drop_last()) + t@.word);
                            assert(run_word(r.drop_last()) == word@.take(entry.pos as int));
                            assert(run_word(r.drop_last()).len() == entry.pos as int);
                            let rl = run_word(r).len() as int;
                            assert(rl == entry.pos + t@.word.len());
                            assert(run_word(r) == word@.take(rl));
                            assert forall|q: int|
                                0 <= q < t@.word.len() implies word@.subrange(
                                entry.pos as int,
                                rl,
                            )[q] == t@.word[q] by {
                                assert(run_word(r)[entry.pos + q] == t@.word[q]);
                                assert(word@.take(rl)[entry.pos + q] == word@[entry.pos + q]);
                            }
                            assert(word@.subrange(entry.pos as int, rl) =~= t@.word);
                            assert(run_result(self@.initial, r.drop_last()) == Some(
                                entry.storage@,
                            ));
                        }
                        assert forall|r: Seq<TransitionModel>|
                            partial_run_ok(self@, word@, r) && r.len() == depth + 1 && run_view(
                                frontier@[pi as int].run@,
                            ) == r.drop_last() && #[trigger] tv.take(ti + 1).contains(
                            r.last(),
                        ) implies frontier_has(next_frontier@, r) by {
                            if tv.take(ti as int).contains(r.last()) {
                                assert(frontier_has(nf0, r));
                                if result is Some {
                                    lemma_frontier_has_push(nf0, result.unwrap().0, r);
                                }
                            } else {
                                let j = choose|j: int|
                                    0 <= j < ti + 1 && #[trigger] tv.take(ti + 1)[j] == r.last();
                                if j < ti {
                                    assert(tv.take(ti as int)[j] == r.last());
                                    assert(tv.take(ti as int).contains(r.last()));
                                }
                                assert(r.last() == t@);
                                match result {
                                    Some(pair) => {
                                        assert(run_view(pair.0.run@) == run_view(
                                            entry.run@,
                                        ).push(t@));
                                        assert(r.drop_last().push(r.last()) =~= r);
                                        assert(run_view(pair.0.run@) == r);
                                        assert(next_frontier@[next_frontier@.len() - 1] == pair.0);
                                    },
                                    None => {
                                        assert(false);
                                    },
                                }
                            }
                        }
                        assert forall|r: Seq<TransitionModel>|
                            is_accepting_run(self@, word@, r) && r.len() == depth + 1 && run_view(
                                frontier@[pi as int].run@,
                            ) == r.drop_last() && #[trigger] tv.take(ti + 1).contains(
                            r.last(),
                        ) implies found_has_run(found@, r) by {
                            lemma_accepting_partial(self@, word@, r);
                            if tv.take(ti as int).contains(r.last()) {
                                assert(found_has_run(fd0, r));
                                if found@ != fd0 {
                                    lemma_found_has_push(fd0, found@[found@.len() - 1], r);
                                    assert(found@ =~= fd0.push(found@[found@.len() - 1]));
                                }
                            } else {
                                let j = choose|j: int|
                                    0 <= j < ti + 1 && #[trigger] tv.take(ti + 1)[j] == r.last();
                                if j < ti {
                                    assert(tv.take(ti as int)[j] == r.last());
                                    assert(tv.take(ti as int).contains(r.last()));
                                }
                                assert(r.last() == t@);
                                match result {
                                    Some(pair) => {
                                        assert(run_view(pair.0.run@) == r);
                                        assert(run_word(r) == word@);
                                        assert(pair.0.pos == word@.len());
                                        assert(run_result(self@.initial, r) == Some(
                                            pair.0.storage@,
                                        ));
                                        assert(accepting(pair.0.storage@));
                                        match pair.1 {
                                            Some(it) => {
                                                assert(it@.run == r);
                                                assert(fd0.push(it) == found@);
                                                assert(found@[found@.len() - 1] == it);
                                            },
                                            None => {
                                                assert(false);
                                            },
                                        }
                                    },
                                    None => {
                                        assert(false);
                                    },
                                }
                            }
                        }
                        // the carried per-prefix facts survive the pushes
                        assert forall|r: Seq<TransitionModel>|
                            partial_run_ok(self@, word@, r) && r.len() == depth + 1
                                && #[trigger] frontier_has(
                                frontier@.take(pi as int),
                                r.drop_last(),
                            ) implies frontier_has(next_frontier@, r) by {
                            assert(frontier_has(nf0, r));
                            if result is Some {
                                lemma_frontier_has_push(nf0, result.unwrap().0, r);
                            }
                        }
                        assert forall|r: Seq<TransitionModel>|
                            is_accepting_run(self@, word@, r) && r.len() == depth + 1
                                && #[trigger] frontier_has(
                                frontier@.take(pi as int),
                                r.drop_last(),
                            ) implies found_has_run(found@, r) by {
                            assert(found_has_run(fd0, r));
                            if found@ != fd0 {
                                lemma_found_has_push(fd0, found@[found@.len() - 1], r);
                                assert(found@ =~= fd0.push(found@[found@.len() - 1]));
                            }
                        }
                        assert forall|r: Seq<TransitionModel>| #[trigger] is_accepting_run(
                            self@,
                            word@,
                            r,
                        ) && r.len() <= depth implies found_has_run(found@, r) by {
                            assert(found_has_run(fd0, r));
                            if found@ != fd0 {
                                lemma_found_has_push(fd0, found@[found@.len() - 1], r);
                                assert(found@ =~= fd0.push(found@[found@.len() - 1]));
                            }
                        }
                    }
                    ti = ti + 1;
                }
                proof {
                    assert(tv.take(tv.len() as int) =~= tv);
                    assert forall|r: Seq<TransitionModel>|
                        partial_run_ok(self@, word@, r) && r.len() == depth + 1
                            && #[trigger] frontier_has(
                            frontier@.take(pi + 1),
                            r.drop_last(),
                        ) implies frontier_has(next_frontier@, r) by {
                        let a = choose|a: int|
                            0 <= a < pi + 1 && run_view(
                                (#[trigger] frontier@.take(pi + 1)[a]).run@,
                            ) == r.drop_last();
                        if a < pi {
                            assert(frontier@.take(pi as int)[a] == frontier@.take(pi + 1)[a]);
                            assert(frontier_has(frontier@.take(pi as int), r.drop_last()));
                        } else {
                            assert(frontier@.take(pi + 1)[a] == frontier@[pi as int]);
                            assert(r.drop_last().push(r.last()) =~= r);
                            assert(aut_contains_last(self@, r));
                            assert(tv.contains(r.last()));
                            assert(tv.take(tv.len() as int).contains(r.last()));
                        }
                    }
                    assert forall|r: Seq<TransitionModel>|
                        is_accepting_run(self@, word@, r) && r.len() == depth + 1
                            && #[trigger] frontier_has(
                            frontier@.take(pi + 1),
                            r.drop_last(),
                        ) implies found_has_run(found@, r) by {
                        lemma_accepting_partial(self@, word@, r);
                        let a = choose|a: int|
                            0 <= a < pi + 1 && run_view(
                                (#[trigger] frontier@.take(pi + 1)[a]).run@,
                            ) == r.drop_last();
                        if a < pi {
                            assert(frontier@.take(pi as int)[a] == frontier@.take(pi + 1)[a]);
                            assert(frontier_has(frontier@.take(pi as int), r.drop_last()));
                        } else {
                            assert(frontier@.take(pi + 1)[a] == frontier@[pi as int]);
                            assert(r.drop_last().push(r.last()) =~= r);
                            assert(aut_contains_last(self@, r));
                            assert(tv.contains(r.last()));
                            assert(tv.take(tv.len() as int).contains(r.last()));
                        }
                    }
                }
                pi = pi + 1;
            }
            proof {
                assert(frontier@.take(frontier@.len() as int) =~= frontier@);
                assert forall|r: Seq<TransitionModel>| #[trigger] partial_run_ok(self@, word@, r)
                    && r.len() == depth + 1 implies frontier_has(next_frontier@, r) by {
                    lemma_partial_prefix(self@, word@, r, r.len() - 1);
                    assert(r.take(r.len() - 1) =~= r.drop_last());
                    assert(partial_run_ok(self@, word@, r.drop_last()));
                    assert(frontier_has(frontier@, r.drop_last()));
                }
                assert forall|r: Seq<TransitionModel>| #[trigger] is_accepting_run(
                    self@,
                    word@,
                    r,
                ) && r.len() <= depth + 1 implies found_has_run(found@, r) by {
                    if r.len() == depth + 1 {
                        lemma_accepting_partial(self@, word@, r);
                        lemma_partial_prefix(self@, word@, r, r.len() - 1);
                        assert(r.take(r.len() - 1) =~= r.drop_last());
                        assert(partial_run_ok(self@, word@, r.drop_last()));
                        assert(frontier_has(frontier@, r.drop_last()));
                    }
                }
            }
            frontier = next_frontier;
            depth = depth + 1;
        }
        proof {
            assert forall|r: Seq<TransitionModel>| #[trigger] is_accepting_run(self@, word@, r)
                && r.len() <= recognition_bound(word@) implies found_has_run(found@, r) by {
                if r.len() > depth {
                    lemma_accepting_partial(self@, word@, r);
                    lemma_partial_prefix(self@, word@, r, depth as int);
                    assert(partial_run_ok(self@, word@, r.take(depth as int)));
                    assert(frontier_has(frontier@, r.take(depth as int)));
                    assert(false);
                }
            }
        }
        PushDownParseForest { items: found, aut: Ghost(self@), input: Ghost(word@) }
    }
}

/// The last member of a nonempty run over an automaton's transitions is
/// one of them.
spec fn aut_contains_last(aut: AutomatonModel, r: Seq<TransitionModel>) -> bool {
    r.len() > 0 ==> aut.transitions.contains(r.last())
}

/// A run with an inapplicable prefix is itself inapplicable.
pub proof fn lemma_run_result_prefix_none(init: Seq<u64>, run: Seq<TransitionModel>, i: int)
    requires
        0 <= i <= run.len(),
        run_result(init, run.take(i)) is None,
    ensures
        run_result(init, run) is None,
    decreases run.len() - i,
{
    if i < run.len() {
        assert(run.take(i + 1).drop_last() =~= run.take(i));
        lemma_run_result_prefix_none(init, run, i + 1);
    } else {
        assert(run.take(i) =~= run);
    }
}

} // verus!
