//! Approximating automata and lifting runs back down.
//!
//! Symbols are plain numbers: terminals `1..=5`, the stack sentinel `0`,
//! and stack symbols from `10` on.

use rustomata::approximation::approximate_automaton;
use rustomata::approximation::relabel::RlbElement;
use rustomata::approximation::AnyStrategy;
use rustomata::recognisable::automaton::PushDownAutomaton;
use rustomata::recognisable::{PushDownInstruction, Transition};

const SENT: u64 = 0;
const A_T: u64 = 1;
const S_N: u64 = 10;
const A_N: u64 = 11;
const B_N: u64 = 12;
const CLASS_N: u64 = 13;

fn replace(word: Vec<u64>, weight: u64, current_val: Vec<u64>, new_val: Vec<u64>) -> Transition {
    Transition {
        word,
        weight,
        instruction: PushDownInstruction::Replace { current_val, new_val },
    }
}

/// The automaton of the grammar S -> A | B, A -> "a", B -> "a", with
/// distinct rule weights.
fn two_way_automaton() -> PushDownAutomaton {
    let transitions = vec![
        replace(vec![], 3, vec![S_N], vec![A_N]),
        replace(vec![], 4, vec![S_N], vec![B_N]),
        replace(vec![A_T], 7, vec![A_N], vec![]),
        replace(vec![A_T], 6, vec![B_N], vec![]),
    ];
    PushDownAutomaton::from_transitions(transitions, vec![SENT, S_N])
}

/// Collapses the two nonterminals A and B into one class.
fn collapse_ab() -> RlbElement {
    RlbElement::new(vec![(S_N, S_N), (A_N, CLASS_N), (B_N, CLASS_N)], 0)
}

#[test]
fn test_unapproximate_runs() {
    let a = two_way_automaton();

    // first level: collapse A and B
    let (b, strat1) = approximate_automaton(AnyStrategy::Relabel(collapse_ab()), &a);

    // second level: collapse every nonterminal into one class
    let rlb2 = RlbElement::new(vec![(S_N, 20), (CLASS_N, 20)], 0);
    let (c, strat2) = approximate_automaton(AnyStrategy::Relabel(rlb2), &b);

    // recognise the accepting input on the coarsest automaton, then
    // unapproximate all the way down, validating at each level
    let mut recs_c = c.recognise(&vec![A_T]);
    let mut got_valid_run = false;
    while let Some(item_c) = recs_c.next() {
        for unapprox2 in strat2.unapproximate_run(&item_c.run) {
            for item_b in b.check_run(&unapprox2) {
                for unapprox1 in strat1.unapproximate_run(&item_b.run) {
                    for _item_a in a.check_run(&unapprox1) {
                        got_valid_run = true;
                    }
                }
            }
        }
    }
    assert!(got_valid_run);
}

#[test]
fn test_collecting_weights_of_similar_transitions() {
    let a = two_way_automaton();
    let (b, _) = approximate_automaton(AnyStrategy::Relabel(collapse_ab()), &a);

    // the accepting input has exactly one recognition in the collapsed
    // automaton: the two parallel rules were grouped into one transition
    let mut recs = b.recognise(&vec![A_T]);
    let mut count = 0;
    while let Some(_item) = recs.next() {
        count += 1;
    }
    assert_eq!(1, count);
}

#[test]
fn test_weight_grouping() {
    // for every coarse transition, its weight is the sum of the weights
    // of the fine transitions that collapsed onto it: 3 + 4 and 7 + 6
    let a = two_way_automaton();
    let (b, _) = approximate_automaton(AnyStrategy::Relabel(collapse_ab()), &a);

    let mut saw_expand = false;
    let mut saw_consume = false;
    for t in b.transitions() {
        if t.word.is_empty() {
            assert_eq!(7, t.weight);
            saw_expand = true;
        } else {
            assert_eq!(vec![A_T], t.word);
            assert_eq!(13, t.weight);
            saw_consume = true;
        }
    }
    assert!(saw_expand);
    assert!(saw_consume);
    assert_eq!(2, b.transitions().len());
}

#[test]
fn test_unapproximate_transition_dead_end() {
    // a coarse transition with no recorded fine counterpart yields the
    // empty sequence, never an error
    let a = two_way_automaton();
    let (_, instance) = approximate_automaton(AnyStrategy::Relabel(collapse_ab()), &a);

    let unknown = replace(vec![9], 1, vec![99], vec![98]);
    let lifted = instance.unapproximate_transition(&unknown);
    assert_eq!(0, lifted.len());
}

#[test]
fn test_unapproximate_transition_ignores_weight() {
    // lookups key on (word, instruction) with the weight forced neutral:
    // a query with any weight finds the recorded fine transitions, in
    // insertion order
    let a = two_way_automaton();
    let (_, instance) = approximate_automaton(AnyStrategy::Relabel(collapse_ab()), &a);

    let query = replace(vec![], 4242, vec![S_N], vec![CLASS_N]);
    let lifted = instance.unapproximate_transition(&query);
    assert_eq!(2, lifted.len());
    assert_eq!(3, lifted[0].weight);
    assert_eq!(4, lifted[1].weight);
}

#[test]
fn test_unapproximate_run_cartesian_product() {
    // an n-step coarse run with two recorded fine transitions per step
    // yields all combinations
    let a = two_way_automaton();
    let (b, instance) = approximate_automaton(AnyStrategy::Relabel(collapse_ab()), &a);

    let mut recs = b.recognise(&vec![A_T]);
    let item = recs.next().expect("the collapsed automaton accepts the input");
    assert_eq!(2, item.run.len());
    let candidates = instance.unapproximate_run(&item.run);
    assert_eq!(4, candidates.len());
    for candidate in &candidates {
        assert_eq!(2, candidate.len());
    }
}

#[test]
fn test_relabel_project() {
    let rlb = collapse_ab();
    assert_eq!(S_N, rlb.project(S_N));
    assert_eq!(CLASS_N, rlb.project(A_N));
    assert_eq!(CLASS_N, rlb.project(B_N));
    // unlisted symbols fall into the wildcard class
    assert_eq!(0, rlb.project(77));
}
