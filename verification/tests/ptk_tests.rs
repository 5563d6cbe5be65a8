//! The top-k pushdown restriction.
//!
//! The test grammar produces "a" repeated exactly five times, through five
//! copies of one nonterminal, so the exact automaton needs stack depth
//! five while the bounded approximation accepts with less.

use rustomata::approximation::ptk::PDTopKElement;
use rustomata::approximation::ApproximationStrategy;
use rustomata::recognisable::automaton::PushDownAutomaton;
use rustomata::recognisable::{PushDownInstruction, Transition};

const SENT: u64 = 0;
const A_T: u64 = 1;
const S_N: u64 = 10;
const A_N: u64 = 11;

fn replace(word: Vec<u64>, weight: u64, current_val: Vec<u64>, new_val: Vec<u64>) -> Transition {
    Transition {
        word,
        weight,
        instruction: PushDownInstruction::Replace { current_val, new_val },
    }
}

/// The automaton of the grammar S -> A A A A A, A -> "a".
fn five_copies_automaton() -> PushDownAutomaton {
    let transitions = vec![
        replace(vec![], 1, vec![S_N], vec![A_N, A_N, A_N, A_N, A_N]),
        replace(vec![A_T], 1, vec![A_N], vec![]),
    ];
    PushDownAutomaton::from_transitions(transitions, vec![SENT, S_N])
}

fn word(n: usize) -> Vec<u64> {
    vec![A_T; n]
}

#[test]
fn test_topk() {
    let a = five_copies_automaton();

    let ptk = PDTopKElement::new(4);

    let (b, _) = ptk.approximate_automaton(&a);

    assert!(a.recognise(&word(4)).next().is_none());
    assert!(b.recognise(&word(4)).next().is_some());
    assert!(a.recognise(&word(5)).next().is_some());
    assert!(b.recognise(&word(5)).next().is_some());
    assert!(b.recognise(&word(7)).next().is_some());
}

#[test]
fn test_topk_rewrites_alphabet() {
    // after the two-pass construction every transition carries a bounded
    // instruction with the size limit and the shared global alphabet
    let a = five_copies_automaton();
    let (b, _) = PDTopKElement::new(4).approximate_automaton(&a);

    assert_eq!(2, b.transitions().len());
    for t in b.transitions() {
        match &t.instruction {
            PushDownInstruction::ReplaceK { limit, possible_values, .. } => {
                assert_eq!(4, *limit);
                // exactly the union of the mentioned values, nothing else
                assert!(possible_values.contains(&S_N));
                assert!(possible_values.contains(&A_N));
                assert_eq!(2, possible_values.len());
            },
            PushDownInstruction::Replace { .. } => panic!("expected a bounded instruction"),
        }
    }
}

#[test]
fn test_topk_rekeys_reverse_map() {
    // lookups by the rewritten coarse transitions still find their fine
    // transitions; omitting the migration would break every lookup
    let a = five_copies_automaton();
    let (b, instance) = PDTopKElement::new(4).approximate_automaton(&a);

    for t in b.transitions() {
        let lifted = instance.unapproximate_transition(t);
        assert_eq!(1, lifted.len());
        assert_eq!(t.word, lifted[0].word);
    }
}

#[test]
fn test_topk_storage_truncation() {
    // the bottom sentinel and the three topmost elements survive
    let ptk = PDTopKElement::new(4);
    let stack = vec![SENT, 7, 8, 9, 5];
    assert_eq!(vec![SENT, 8, 9, 5], ptk.approximate_storage(&stack));
    // a storage within the bound passes through unchanged
    let small = vec![SENT, 7, 8];
    assert_eq!(small.clone(), ptk.approximate_storage(&small));
}

#[test]
fn test_topk_boundary_size_one() {
    // the boundary size constructs successfully and never produces a
    // stack representation exceeding one element
    let ptk = PDTopKElement::try_new(1).expect("size one is legal");
    assert_eq!(vec![SENT], ptk.approximate_storage(&vec![SENT, S_N, A_N]));

    let a = five_copies_automaton();
    let (b, _) = PDTopKElement::new(1).approximate_automaton(&a);
    // every instruction carries the boundary limit, and recognition still
    // runs
    for t in b.transitions() {
        match &t.instruction {
            PushDownInstruction::ReplaceK { limit, .. } => assert_eq!(1, *limit),
            PushDownInstruction::Replace { .. } => panic!("expected a bounded instruction"),
        }
    }
    assert!(b.recognise(&word(1)).next().is_some());
}

#[test]
fn test_topk_size_zero_fails() {
    // a zero bound fails fast, before any automaton is touched, and is
    // never silently clamped
    assert!(PDTopKElement::try_new(0).is_none());
    assert!(PDTopKElement::try_new(1).is_some());
}

#[test]
fn test_topk_coarser_bound_accepts_tested_words() {
    // a smaller bound approximates more coarsely: on the tested words,
    // everything the size-4 automaton accepts, the size-3 one accepts too
    let a = five_copies_automaton();
    let (b4, _) = PDTopKElement::new(4).approximate_automaton(&a);
    let (b3, _) = PDTopKElement::new(3).approximate_automaton(&a);

    for n in 3..8 {
        if b4.recognise(&word(n)).next().is_some() {
            assert!(b3.recognise(&word(n)).next().is_some());
        }
    }
}
