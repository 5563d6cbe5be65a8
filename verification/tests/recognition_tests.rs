//! Recognition, the cascading recognizer, and the weight semiring.

use rustomata::approximation::relabel::RlbElement;
use rustomata::approximation::AnyStrategy;
use rustomata::recognisable::automaton::PushDownAutomaton;
use rustomata::recognisable::coarse_to_fine::CoarseToFineRecogniser;
use rustomata::recognisable::{PushDownInstruction, Transition};
use rustomata::weight::{weight_add, weight_mul};

const SENT: u64 = 0;
const A_T: u64 = 1;
const S_N: u64 = 10;
const A_N: u64 = 11;
const B_N: u64 = 12;
const CLASS_N: u64 = 13;

fn replace(word: Vec<u64>, weight: u64, current_val: Vec<u64>, new_val: Vec<u64>) -> Transition {
    Transition {
        word,
        weight,
        instruction: PushDownInstruction::Replace { current_val, new_val },
    }
}

fn two_way_automaton() -> PushDownAutomaton {
    let transitions = vec![
        replace(vec![], 3, vec![S_N], vec![A_N]),
        replace(vec![], 4, vec![S_N], vec![B_N]),
        replace(vec![A_T], 7, vec![A_N], vec![]),
        replace(vec![A_T], 6, vec![B_N], vec![]),
    ];
    PushDownAutomaton::from_transitions(transitions, vec![SENT, S_N])
}

fn collapse_ab() -> RlbElement {
    RlbElement::new(vec![(S_N, S_N), (A_N, CLASS_N), (B_N, CLASS_N)], 0)
}

#[test]
fn test_sortby() {
    let mut v = vec![vec![4, 4, 4, 4], vec![2, 2], vec![4], vec![1, 1, 1]];
    v.sort_by(|a, b| a.len().cmp(&b.len()));
    assert_eq!(v, vec![vec![4], vec![2, 2], vec![1, 1, 1], vec![4, 4, 4, 4]]);
}

#[test]
fn test_recognise_weights_descending() {
    // two accepting runs with weights 4 * 6 = 24 and 3 * 7 = 21 come out
    // best first
    let a = two_way_automaton();
    let mut recs = a.recognise(&vec![A_T]);
    let first = recs.next().expect("two runs accept");
    assert_eq!(24, first.weight);
    let second = recs.next().expect("a second run accepts");
    assert_eq!(21, second.weight);
    assert!(recs.next().is_none());
}

#[test]
fn test_cascade_recognise_descending() {
    // the same two runs, recovered through one cascade level: the coarse
    // level over-groups them into one coarse item, lifting yields four
    // candidates, validation keeps two, and they come out best first
    let a = two_way_automaton();
    let recogniser = CoarseToFineRecogniser::from_strategies(
        a,
        vec![AnyStrategy::Relabel(collapse_ab())],
    );
    let mut recs = recogniser.recognise(&vec![A_T]);
    let first = recs.next().expect("the cascade recovers a run");
    assert_eq!(24, first.weight);
    assert_eq!(2, first.run.len());
    let second = recs.next().expect("the cascade recovers the other run");
    assert_eq!(21, second.weight);
    assert!(recs.next().is_none());
}

#[test]
fn test_cascade_two_levels_round_trip() {
    // a two-level cascade: collapse A and B, then collapse every
    // nonterminal; recognising the accepting input recovers a validated
    // run of the original automaton
    let a = two_way_automaton();
    let rlb2 = RlbElement::new(vec![(S_N, 20), (CLASS_N, 20)], 0);
    let recogniser = CoarseToFineRecogniser::from_strategies(
        a,
        vec![
            AnyStrategy::Relabel(collapse_ab()),
            AnyStrategy::Relabel(rlb2),
        ],
    );
    let mut recs = recogniser.recognise(&vec![A_T]);
    let item = recs.next().expect("the cascade recovers a fine run");
    assert_eq!(24, item.weight);
    assert_eq!(vec![SENT], item.storage);
}

#[test]
fn test_cascade_rejects_unaccepted_word() {
    let a = two_way_automaton();
    let recogniser = CoarseToFineRecogniser::from_strategies(
        a,
        vec![AnyStrategy::Relabel(collapse_ab())],
    );
    // two letters are not in the language and nothing is emitted
    let mut recs = recogniser.recognise(&vec![A_T, A_T]);
    assert!(recs.next().is_none());
}

#[test]
fn test_check_run_valid_and_invalid() {
    let a = two_way_automaton();
    let expand = replace(vec![], 3, vec![S_N], vec![A_N]);
    let consume = replace(vec![A_T], 7, vec![A_N], vec![]);
    let wrong = replace(vec![A_T], 6, vec![B_N], vec![]);

    // a replayable accepting run yields one item with the product weight
    let good = a.check_run(&vec![
        replace(vec![], 3, vec![S_N], vec![A_N]),
        replace(vec![A_T], 7, vec![A_N], vec![]),
    ]);
    assert_eq!(1, good.len());
    assert_eq!(21, good[0].weight);
    assert_eq!(vec![SENT], good[0].storage);

    // a structurally infeasible run yields no item, not an error
    let bad = a.check_run(&vec![expand, wrong]);
    assert_eq!(0, bad.len());

    // an incomplete run is not accepting
    let partial = a.check_run(&vec![consume]);
    assert_eq!(0, partial.len());
}

#[test]
fn test_empty_word_acceptance() {
    // an automaton whose initial storage is only the sentinel accepts
    // the empty word with the empty run of weight one
    let aut = PushDownAutomaton::from_transitions(Vec::new(), vec![SENT]);
    let mut recs = aut.recognise(&Vec::new());
    let item = recs.next().expect("the empty run accepts");
    assert_eq!(1, item.weight);
    assert_eq!(0, item.run.len());
    assert!(recs.next().is_none());

    // with a nonterminal on the stack the empty word is rejected
    let aut2 = PushDownAutomaton::from_transitions(Vec::new(), vec![SENT, S_N]);
    assert!(aut2.recognise(&Vec::new()).next().is_none());
}

#[test]
fn test_exhaustion_is_sticky() {
    // once the cascade signals exhaustion, it keeps signalling it
    let a = two_way_automaton();
    let recogniser = CoarseToFineRecogniser::from_strategies(
        a,
        vec![AnyStrategy::Relabel(collapse_ab())],
    );
    let mut recs = recogniser.recognise(&vec![A_T]);
    assert!(recs.next().is_some());
    assert!(recs.next().is_some());
    assert!(recs.next().is_none());
    assert!(recs.next().is_none());
    assert!(recs.next().is_none());
}

#[test]
fn test_recognise_is_repeatable() {
    // recognition is pure: starting it twice on the same word yields the
    // same weight sequence
    let a = two_way_automaton();
    let recogniser = CoarseToFineRecogniser::from_strategies(
        a,
        vec![AnyStrategy::Relabel(collapse_ab())],
    );
    let mut first_weights = Vec::new();
    let mut recs = recogniser.recognise(&vec![A_T]);
    while let Some(item) = recs.next() {
        first_weights.push(item.weight);
    }
    let mut second_weights = Vec::new();
    let mut recs2 = recogniser.recognise(&vec![A_T]);
    while let Some(item) = recs2.next() {
        second_weights.push(item.weight);
    }
    assert_eq!(first_weights, second_weights);
    assert_eq!(vec![24, 21], first_weights);
}

#[test]
fn test_weight_operations_saturate() {
    assert_eq!(7, weight_add(3, 4));
    assert_eq!(u64::MAX, weight_add(u64::MAX, 5));
    assert_eq!(12, weight_mul(3, 4));
    assert_eq!(u64::MAX, weight_mul(u64::MAX / 2, 3));
    assert_eq!(0, weight_mul(0, u64::MAX));
}
