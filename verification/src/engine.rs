use crate::automaton::consume_edge;
use crate::automaton::eps_edge;
use crate::automaton::is_accept;
use crate::automaton::Label;
use crate::automaton::Nfa;
use crate::semantics::closure_of;
use crate::semantics::eps_closed;
use crate::semantics::eps_reach;
use crate::semantics::eps_reach_k;
use crate::semantics::lemma_closure_minimal;
use crate::semantics::lemma_dead_prefix_rejects;
use crate::semantics::lemma_run_from_snoc;
use crate::semantics::nfa_accepts;
use crate::semantics::run_from;
use crate::semantics::start_config;
use crate::semantics::step_set;
use crate::state_set::StateSet;
use vstd::prelude::*;

verus! {

/// `q` occurs somewhere in the work list.
spec fn in_stack(stack: Seq<usize>, q: int) -> bool {
    exists|k: int| 0 <= k < stack.len() && (#[trigger] stack[k]) == q
}

/// Computes the epsilon closure of `states`: the set of every state
/// reachable from a member of `states` by zero or more epsilon moves.
/// Work-list saturation; a state is never enqueued once it is in the
/// result, so the loop terminates even on a cycle of epsilon transitions.
pub fn epsilon_closure(nfa: &Nfa, states: &StateSet) -> (r: StateSet)
    requires
        nfa.wf(),
        states.bound() == nfa.num_states,
    ensures
        r.bound() == nfa.num_states,
        r@ == closure_of(*nfa, states@),
{
    let ghost d = *nfa;
    let n = nfa.num_states;
    let mut closure = StateSet::new(n);
    let mut stack: Vec<usize> = Vec::new();

    // Seed the result and the work list with the members of `states`.
    let mut i: usize = 0;
    while i < n
        invariant
            i <= n,
            n == d.num_states,
            d == *nfa,
            states.bound() == n,
            closure.bound() == n,
            forall|q: int| #[trigger] closure@.contains(q) <==> 0 <= q < i && states@.contains(q),
            forall|k: int|
                0 <= k < stack@.len() ==> closure@.contains(#[trigger] stack@[k] as int),
            forall|q: int| #[trigger] closure@.contains(q) ==> in_stack(stack@, q),
        decreases n - i,
    {
        if states.contains(i) {
            let ghost stack_old = stack@;
            closure.insert(i);
            stack.push(i);
            proof {
                assert(stack@[stack@.len() - 1] == i);
                assert forall|q: int| #[trigger] closure@.contains(q) implies in_stack(
                    stack@,
                    q,
                ) by {
                    if q == i as int {
                        assert(stack@[stack@.len() - 1] as int == q);
                    } else {
                        let k = choose|k: int|
                            0 <= k < stack_old.len() && (#[trigger] stack_old[k]) as int == q;
                        assert(stack@[k] as int == q);
                    }
                }
            }
        }
        i += 1;
    }
    proof {
        closure.lemma_finite();
        assert forall|q: int| #[trigger] closure@.contains(q) implies eps_reach(
            d,
            states@,
            q,
        ) by {
            assert(eps_reach_k(d, states@, q, 0));
        }
        assert forall|q: int| states@.contains(q) implies #[trigger] closure@.contains(q) by {
            states.lemma_members_bounded();
        }
    }

    // Saturate: take one pending state and add its epsilon destinations.
    while stack.len() > 0
        invariant
            n == d.num_states,
            d == *nfa,
            nfa.wf(),
            states.bound() == n,
            closure.bound() == n,
            closure@.finite(),
            closure@.len() <= n,
            forall|k: int|
                0 <= k < stack@.len() ==> closure@.contains(#[trigger] stack@[k] as int),
            forall|q: int| states@.contains(q) ==> #[trigger] closure@.contains(q),
            forall|q: int| #[trigger] closure@.contains(q) ==> eps_reach(d, states@, q),
            forall|p: int, q: int|
                closure@.contains(p) && !in_stack(stack@, p) && #[trigger] eps_edge(d, p, q)
                    ==> closure@.contains(q),
        decreases n - closure@.len() + stack@.len(),
    {
        let ghost stack_before = stack@;
        let q0 = stack.pop().unwrap();
        let ghost m0 = n - closure@.len() + stack@.len();
        proof {
            assert(closure@.contains(q0 as int));
            // after the pop, only q0 may have left the work list
            assert forall|p: int| in_stack(stack_before, p) && p != q0 as int implies in_stack(
                stack@,
                p,
            ) by {
                let k = choose|k: int|
                    0 <= k < stack_before.len() && (#[trigger] stack_before[k]) as int == p;
                assert(k < stack_before.len() - 1);
                assert(stack@[k] as int == p);
            }
        }

        let mut j: usize = 0;
        while j < nfa.transitions.len()
            invariant
                j <= nfa.transitions@.len(),
                n == d.num_states,
                d == *nfa,
                nfa.wf(),
                states.bound() == n,
                closure.bound() == n,
                closure@.finite(),
                closure@.len() <= n,
                closure@.contains(q0 as int),
                n - closure@.len() + stack@.len() == m0,
                forall|k: int|
                    0 <= k < stack@.len() ==> closure@.contains(#[trigger] stack@[k] as int),
                forall|q: int| states@.contains(q) ==> #[trigger] closure@.contains(q),
                forall|q: int| #[trigger] closure@.contains(q) ==> eps_reach(d, states@, q),
                forall|p: int, q: int|
                    closure@.contains(p) && !in_stack(stack@, p) && p != q0 as int
                        && #[trigger] eps_edge(d, p, q) ==> closure@.contains(q),
                forall|t: int|
                    0 <= t < j && (#[trigger] nfa.transitions@[t]).from == q0
                        && nfa.transitions@[t].label is Epsilon ==> closure@.contains(
                        nfa.transitions@[t].to as int,
                    ),
            decreases nfa.transitions@.len() - j,
        {
            let t = nfa.transitions[j];
            let is_eps = match t.label {
                Label::Epsilon => true,
                Label::Consume(_) => false,
            };
            if t.from == q0 && is_eps {
                if !closure.contains(t.to) {
                    let ghost stack_old = stack@;
                    proof {
                        assert(eps_edge(d, q0 as int, t.to as int));
                        let k = choose|k: nat| eps_reach_k(d, states@, q0 as int, k);
                        assert(eps_reach_k(d, states@, t.to as int, (k + 1) as nat));
                    }
                    closure.insert(t.to);
                    stack.push(t.to);
                    proof {
                        assert(stack@[stack@.len() - 1] == t.to);
                        assert forall|p: int| in_stack(stack_old, p) implies in_stack(
                            stack@,
                            p,
                        ) by {
                            let k = choose|k: int|
                                0 <= k < stack_old.len() && (#[trigger] stack_old[k]) as int == p;
                            assert(stack@[k] as int == p);
                        }
                        assert(in_stack(stack@, t.to as int));
                        closure.lemma_finite();
                    }
                }
            }
            j += 1;
        }
        proof {
            // every epsilon destination of q0 is now in the result, so q0
            // no longer needs to be pending
            assert forall|p: int, q: int|
                closure@.contains(p) && !in_stack(stack@, p) && #[trigger] eps_edge(
                    d,
                    p,
                    q,
                ) implies closure@.contains(q) by {
                if p == q0 as int {
                    let t = choose|t: int|
                        0 <= t < d.transitions@.len() && (#[trigger] d.transitions@[t]).from == p
                            && d.transitions@[t].label is Epsilon && d.transitions@[t].to == q;
                    assert(closure@.contains(d.transitions@[t].to as int));
                }
            }
        }
    }
    proof {
        assert(eps_closed(d, closure@)) by {
            assert forall|p: int, q: int|
                closure@.contains(p) && #[trigger] eps_edge(d, p, q) implies closure@.contains(
                q,
            ) by {
                assert(!in_stack(stack@, p));
            }
        }
        lemma_closure_minimal(d, states@, closure@);
        assert(closure@ =~= closure_of(d, states@));
    }
    closure
}

/// One consuming move: the set of states reachable from `current` by
/// exactly one ordinary transition labeled `c`.  States with no transition
/// on `c` contribute nothing; no epsilon closure is applied here.
pub fn step_states(nfa: &Nfa, current: &StateSet, c: char) -> (r: StateSet)
    requires
        nfa.wf(),
        current.bound() == nfa.num_states,
    ensures
        r.bound() == nfa.num_states,
        r@ == step_set(*nfa, current@, c),
{
    let ghost d = *nfa;
    let mut next = StateSet::new(nfa.num_states);
    let mut j: usize = 0;
    while j < nfa.transitions.len()
        invariant
            j <= nfa.transitions@.len(),
            d == *nfa,
            nfa.wf(),
            current.bound() == nfa.num_states,
            next.bound() == nfa.num_states,
            forall|q: int| #[trigger] next@.contains(q) ==> step_set(d, current@, c).contains(q),
            forall|t: int|
                0 <= t < j && (#[trigger] nfa.transitions@[t]).label == Label::Consume(c)
                    && current@.contains(nfa.transitions@[t].from as int) ==> next@.contains(
                    nfa.transitions@[t].to as int,
                ),
        decreases nfa.transitions@.len() - j,
    {
        let t = nfa.transitions[j];
        let sym_match = match t.label {
            Label::Consume(s) => s == c,
            Label::Epsilon => false,
        };
        if sym_match && current.contains(t.from) {
            proof {
                assert(consume_edge(d, t.from as int, c, t.to as int));
                assert(step_set(d, current@, c).contains(t.to as int));
            }
            next.insert(t.to);
        }
        j += 1;
    }
    proof {
        assert forall|q: int| step_set(d, current@, c).contains(q) implies next@.contains(q) by {
            let p = choose|p: int| current@.contains(p) && #[trigger] consume_edge(d, p, c, q);
            let t = choose|t: int|
                0 <= t < d.transitions@.len() && (#[trigger] d.transitions@[t]).from == p
                    && d.transitions@[t].label == Label::Consume(c) && d.transitions@[t].to == q;
            assert(next@.contains(d.transitions@[t].to as int));
        }
        assert(next@ =~= step_set(d, current@, c));
    }
    next
}

/// Decides whether the automaton accepts `input`: starting from the
/// epsilon-closed start state, it steps the reachable state set over each
/// symbol in turn and finally asks whether an accept state was reached.
/// Once the set goes empty the rest of the input is skipped; the result is
/// the same as if it were consumed.
pub fn simulate_generic_nfa(nfa: &Nfa, input: &Vec<char>) -> (r: bool)
    requires
        nfa.wf(),
    ensures
        r == nfa_accepts(*nfa, input@),
{
    let ghost d = *nfa;
    let mut seed = StateSet::new(nfa.num_states);
    seed.insert(nfa.start_state);
    proof {
        assert(seed@ =~= start_config(d));
    }
    let mut current = epsilon_closure(nfa, &seed);
    let ghost s0 = closure_of(d, start_config(d));

    let mut i: usize = 0;
    while i < input.len()
        invariant
            i <= input@.len(),
            d == *nfa,
            nfa.wf(),
            current.bound() == nfa.num_states,
            s0 == closure_of(d, start_config(d)),
            current@ == run_from(d, s0, input@.take(i as int)),
        decreases input@.len() - i,
    {
        let c = input[i];
        let stepped = step_states(nfa, &current, c);
        current = epsilon_closure(nfa, &stepped);
        proof {
            lemma_run_from_snoc(d, s0, input@.take(i as int), c);
            assert(input@.take(i as int).push(c) =~= input@.take(i + 1));
        }
        i += 1;
        if current.is_empty() {
            proof {
                assert(current@ =~= Set::<int>::empty());
                lemma_dead_prefix_rejects(d, input@, i as int);
            }
            return false;
        }
    }
    proof {
        assert(input@.take(i as int) =~= input@);
    }

    // the input is consumed: accept iff the reachable set meets the
    // accept states
    let mut q: usize = 0;
    let mut found = false;
    while q < nfa.num_states
        invariant
            q <= nfa.num_states,
            d == *nfa,
            current.bound() == nfa.num_states,
            current@ == run_from(d, s0, input@),
            s0 == closure_of(d, start_config(d)),
            found <==> exists|p: int|
                0 <= p < q && #[trigger] current@.contains(p) && is_accept(d, p),
        decreases nfa.num_states - q,
    {
        if current.contains(q) && nfa.is_accept_state(q) {
            found = true;
        }
        q += 1;
    }
    proof {
        if found {
            let p = choose|p: int|
                0 <= p < nfa.num_states && #[trigger] current@.contains(p) && is_accept(d, p);
            assert(nfa_accepts(d, input@));
        } else {
            if nfa_accepts(d, input@) {
                let p = choose|p: int|
                    run_from(d, s0, input@).contains(p) && #[trigger] is_accept(d, p);
                current.lemma_members_bounded();
                assert(current@.contains(p));
                assert(false);
            }
        }
    }
    found
}

} // verus!
