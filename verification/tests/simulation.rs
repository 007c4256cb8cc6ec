use nfa_sim::automaton::Label;
use nfa_sim::automaton::Nfa;
use nfa_sim::automaton::Transition;
use nfa_sim::engine::epsilon_closure;
use nfa_sim::engine::simulate_generic_nfa;
use nfa_sim::engine::step_states;
use nfa_sim::state_set::StateSet;

fn chars(s: &str) -> Vec<char> {
    s.chars().collect()
}

fn tr(from: usize, label: Label, to: usize) -> Transition {
    Transition { from, label, to }
}

/// Start state `S`, accept `{A}`, transitions `S --a--> A`, `S --eps--> B`,
/// `B --b--> A`.
fn epsilon_branch_nfa() -> Nfa {
    // S = 0, A = 1, B = 2
    Nfa {
        num_states: 3,
        start_state: 0,
        accept_states: vec![1],
        transitions: vec![
            tr(0, Label::Consume('a'), 1),
            tr(0, Label::Epsilon, 2),
            tr(2, Label::Consume('b'), 1),
        ],
        description: None,
    }
}

#[test]
fn epsilon_branch_scenario() {
    let nfa = epsilon_branch_nfa();
    assert!(simulate_generic_nfa(&nfa, &chars("a")));
    assert!(simulate_generic_nfa(&nfa, &chars("b")));
    assert!(!simulate_generic_nfa(&nfa, &chars("ab")));
    assert!(!simulate_generic_nfa(&nfa, &chars("")));
}

#[test]
fn nondeterministic_branching() {
    // S = 0, X = 1, Y = 2, A = 3: S --a--> {X, Y}, Y --b--> A, accept {A}.
    // Both branches are tracked at once; only one need reach acceptance.
    let nfa = Nfa {
        num_states: 4,
        start_state: 0,
        accept_states: vec![3],
        transitions: vec![
            tr(0, Label::Consume('a'), 1),
            tr(0, Label::Consume('a'), 2),
            tr(2, Label::Consume('b'), 3),
        ],
        description: None,
    };
    assert!(simulate_generic_nfa(&nfa, &chars("ab")));
    assert!(!simulate_generic_nfa(&nfa, &chars("a")));
    assert!(!simulate_generic_nfa(&nfa, &chars("b")));
}

#[test]
fn epsilon_cycle_saturates() {
    // a = 0, b = 1, c = 2 form an epsilon cycle; the closure of {a} must
    // come back in finite time with the full saturated set.
    let nfa = Nfa {
        num_states: 3,
        start_state: 0,
        accept_states: vec![],
        transitions: vec![
            tr(0, Label::Epsilon, 1),
            tr(1, Label::Epsilon, 2),
            tr(2, Label::Epsilon, 0),
        ],
        description: None,
    };
    let mut seed = StateSet::new(3);
    seed.insert(0);
    let closed = epsilon_closure(&nfa, &seed);
    assert!(closed.contains(0));
    assert!(closed.contains(1));
    assert!(closed.contains(2));
}

#[test]
fn closure_of_empty_set_is_empty() {
    let nfa = epsilon_branch_nfa();
    let empty = StateSet::new(3);
    let closed = epsilon_closure(&nfa, &empty);
    assert!(closed.is_empty());
    assert!(!closed.contains(0));
    assert!(!closed.contains(1));
    assert!(!closed.contains(2));
}

#[test]
fn closure_idempotent_on_concrete_set() {
    // 0 --eps--> 1 --eps--> 2, and 3 isolated: closing twice changes nothing.
    let nfa = Nfa {
        num_states: 4,
        start_state: 0,
        accept_states: vec![],
        transitions: vec![tr(0, Label::Epsilon, 1), tr(1, Label::Epsilon, 2)],
        description: None,
    };
    let mut seed = StateSet::new(4);
    seed.insert(0);
    let once = epsilon_closure(&nfa, &seed);
    let twice = epsilon_closure(&nfa, &once);
    for q in 0..4 {
        assert_eq!(once.contains(q), twice.contains(q));
    }
    assert!(once.contains(0) && once.contains(1) && once.contains(2));
    assert!(!once.contains(3));
}

#[test]
fn closure_of_state_without_epsilon_moves_is_itself() {
    let nfa = epsilon_branch_nfa();
    let mut seed = StateSet::new(3);
    seed.insert(2);
    let closed = epsilon_closure(&nfa, &seed);
    assert!(closed.contains(2));
    assert!(!closed.contains(0));
    assert!(!closed.contains(1));
}

#[test]
fn empty_accept_set_rejects_everything() {
    let nfa = Nfa {
        num_states: 2,
        start_state: 0,
        accept_states: vec![],
        transitions: vec![tr(0, Label::Consume('a'), 1), tr(1, Label::Epsilon, 0)],
        description: None,
    };
    assert!(!simulate_generic_nfa(&nfa, &chars("")));
    assert!(!simulate_generic_nfa(&nfa, &chars("a")));
    assert!(!simulate_generic_nfa(&nfa, &chars("aa")));
    assert!(!simulate_generic_nfa(&nfa, &chars("zzz")));
}

#[test]
fn accepting_start_accepts_empty_input() {
    let nfa = Nfa {
        num_states: 2,
        start_state: 0,
        accept_states: vec![0],
        transitions: vec![tr(0, Label::Consume('a'), 1)],
        description: None,
    };
    assert!(simulate_generic_nfa(&nfa, &chars("")));
}

#[test]
fn start_reaches_acceptance_through_epsilon_on_empty_input() {
    // the start set is epsilon-closed before any symbol is read
    let nfa = Nfa {
        num_states: 2,
        start_state: 0,
        accept_states: vec![1],
        transitions: vec![tr(0, Label::Epsilon, 1)],
        description: None,
    };
    assert!(simulate_generic_nfa(&nfa, &chars("")));
}

#[test]
fn repeated_queries_agree() {
    let nfa = epsilon_branch_nfa();
    for input in ["", "a", "b", "ab", "ba", "aab"] {
        let first = simulate_generic_nfa(&nfa, &chars(input));
        let second = simulate_generic_nfa(&nfa, &chars(input));
        assert_eq!(first, second);
    }
}

#[test]
fn dead_prefix_rejects_any_suffix() {
    // after "ab" no state is live; any suffix must still be rejected, and
    // even a suffix that mentions accepted symbols cannot revive the run
    let nfa = epsilon_branch_nfa();
    assert!(!simulate_generic_nfa(&nfa, &chars("aba")));
    assert!(!simulate_generic_nfa(&nfa, &chars("abb")));
    assert!(!simulate_generic_nfa(&nfa, &chars("abababab")));
}

#[test]
fn unknown_symbols_contribute_nothing() {
    let nfa = epsilon_branch_nfa();
    assert!(!simulate_generic_nfa(&nfa, &chars("x")));
    assert!(!simulate_generic_nfa(&nfa, &chars("xa")));
}

#[test]
fn step_states_follows_only_matching_transitions() {
    let nfa = epsilon_branch_nfa();
    let mut current = StateSet::new(3);
    current.insert(0);
    current.insert(2);
    // on 'b': only B --b--> A fires; the step applies no epsilon closure
    let next = step_states(&nfa, &current, 'b');
    assert!(next.contains(1));
    assert!(!next.contains(0));
    assert!(!next.contains(2));
    // on 'z': nothing fires
    let none = step_states(&nfa, &current, 'z');
    assert!(none.is_empty());
}

#[test]
fn accept_state_lookup() {
    let nfa = Nfa {
        num_states: 5,
        start_state: 0,
        accept_states: vec![1, 3],
        transitions: vec![],
        description: None,
    };
    assert!(!nfa.is_accept_state(0));
    assert!(nfa.is_accept_state(1));
    assert!(!nfa.is_accept_state(2));
    assert!(nfa.is_accept_state(3));
    assert!(!nfa.is_accept_state(4));
}

#[test]
fn state_set_basic_operations() {
    let mut s = StateSet::new(4);
    assert!(s.is_empty());
    s.insert(2);
    assert!(!s.is_empty());
    assert!(s.contains(2));
    assert!(!s.contains(0));
    assert!(!s.contains(7));
    let copy = s.duplicate();
    assert!(copy.contains(2));
    assert!(!copy.contains(1));
}

#[test]
fn same_pair_may_reach_several_destinations() {
    // one (state, symbol) pair with two destinations, one of them a sink
    let nfa = Nfa {
        num_states: 3,
        start_state: 0,
        accept_states: vec![2],
        transitions: vec![tr(0, Label::Consume('a'), 1), tr(0, Label::Consume('a'), 2)],
        description: None,
    };
    assert!(simulate_generic_nfa(&nfa, &chars("a")));
    assert!(!simulate_generic_nfa(&nfa, &chars("aa")));
}
