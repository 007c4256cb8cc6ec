use crate::automaton::consume_edge;
use crate::automaton::eps_edge;
use crate::automaton::is_accept;
use crate::automaton::Nfa;
use vstd::prelude::*;

verus! {

/// `q` can be reached from some state in `s` by at most `k` epsilon moves.
pub open spec fn eps_reach_k(d: Nfa, s: Set<int>, q: int, k: nat) -> bool
    decreases k,
{
    if k == 0 {
        s.contains(q)
    } else {
        eps_reach_k(d, s, q, (k - 1) as nat) || (exists|p: int|
            eps_reach_k(d, s, p, (k - 1) as nat) && #[trigger] eps_edge(d, p, q))
    }
}

/// `q` can be reached from some state in `s` by zero or more epsilon moves.
pub open spec fn eps_reach(d: Nfa, s: Set<int>, q: int) -> bool {
    exists|k: nat| eps_reach_k(d, s, q, k)
}

/// The epsilon closure of `s`: the smallest superset of `s` that is
/// saturated under epsilon moves.
pub open spec fn closure_of(d: Nfa, s: Set<int>) -> Set<int> {
    Set::new(|q: int| eps_reach(d, s, q))
}

/// `s` is saturated under epsilon moves: no epsilon transition leaves it.
pub open spec fn eps_closed(d: Nfa, s: Set<int>) -> bool {
    forall|p: int, q: int| s.contains(p) && #[trigger] eps_edge(d, p, q) ==> s.contains(q)
}

/// One consuming move: the states reachable from some state in `s` by
/// exactly one ordinary transition on the symbol `c`.
pub open spec fn step_set(d: Nfa, s: Set<int>, c: char) -> Set<int> {
    Set::new(|q: int| exists|p: int| s.contains(p) && #[trigger] consume_edge(d, p, c, q))
}

/// The configurations reachable from `s` after consuming all of `input`:
/// for each symbol in turn, one consuming move followed by epsilon closure.
pub open spec fn run_from(d: Nfa, s: Set<int>, input: Seq<char>) -> Set<int>
    decreases input.len(),
{
    if input.len() == 0 {
        s
    } else {
        run_from(d, closure_of(d, step_set(d, s, input[0])), input.skip(1))
    }
}

/// The initial configuration: the start state alone, before epsilon closure.
pub open spec fn start_config(d: Nfa) -> Set<int> {
    Set::empty().insert(d.start_state as int)
}

/// The definition accepts `input` iff running from the epsilon-closed start
/// configuration through all of `input` ends in a set that meets the
/// accept states.
pub open spec fn nfa_accepts(d: Nfa, input: Seq<char>) -> bool {
    exists|q: int|
        run_from(d, closure_of(d, start_config(d)), input).contains(q) && #[trigger] is_accept(
            d,
            q,
        )
}

/// A set is contained in its own epsilon closure.
pub proof fn lemma_closure_contains(d: Nfa, s: Set<int>)
    ensures
        forall|q: int| s.contains(q) ==> #[trigger] closure_of(d, s).contains(q),
{
    assert forall|q: int| s.contains(q) implies #[trigger] closure_of(d, s).contains(q) by {
        assert(eps_reach_k(d, s, q, 0));
    }
}

/// An epsilon closure is saturated under epsilon moves.
pub proof fn lemma_closure_closed(d: Nfa, s: Set<int>)
    ensures
        eps_closed(d, closure_of(d, s)),
{
    assert forall|p: int, q: int|
        closure_of(d, s).contains(p) && #[trigger] eps_edge(d, p, q) implies closure_of(
        d,
        s,
    ).contains(q) by {
        let k = choose|k: nat| eps_reach_k(d, s, p, k);
        assert(eps_reach_k(d, s, q, (k + 1) as nat));
    }
}

/// Anything reachable by at most `k` epsilon moves from `s` lies in every
/// saturated superset of `s`.
proof fn lemma_reach_k_in_closed(d: Nfa, s: Set<int>, t: Set<int>, q: int, k: nat)
    requires
        forall|x: int| s.contains(x) ==> t.contains(x),
        eps_closed(d, t),
        eps_reach_k(d, s, q, k),
    ensures
        t.contains(q),
    decreases k,
{
    if k == 0 {
    } else {
        if eps_reach_k(d, s, q, (k - 1) as nat) {
            lemma_reach_k_in_closed(d, s, t, q, (k - 1) as nat);
        } else {
            let p = choose|p: int|
                eps_reach_k(d, s, p, (k - 1) as nat) && #[trigger] eps_edge(d, p, q);
            lemma_reach_k_in_closed(d, s, t, p, (k - 1) as nat);
        }
    }
}

/// The epsilon closure of `s` is the smallest saturated superset of `s`:
/// it is contained in every saturated set that contains `s`.
pub proof fn lemma_closure_minimal(d: Nfa, s: Set<int>, t: Set<int>)
    requires
        forall|x: int| s.contains(x) ==> t.contains(x),
        eps_closed(d, t),
    ensures
        forall|q: int| #[trigger] closure_of(d, s).contains(q) ==> t.contains(q),
{
    assert forall|q: int| #[trigger] closure_of(d, s).contains(q) implies t.contains(q) by {
        let k = choose|k: nat| eps_reach_k(d, s, q, k);
        lemma_reach_k_in_closed(d, s, t, q, k);
    }
}

/// Closing a set that is already saturated gives the set back.
pub proof fn lemma_closure_of_closed(d: Nfa, s: Set<int>)
    requires
        eps_closed(d, s),
    ensures
        closure_of(d, s) == s,
{
    lemma_closure_contains(d, s);
    lemma_closure_minimal(d, s, s);
    assert(closure_of(d, s) =~= s);
}

/// Epsilon closure is idempotent: closing an already-closed set returns
/// the same set.
pub proof fn lemma_closure_idempotent(d: Nfa, s: Set<int>)
    ensures
        closure_of(d, closure_of(d, s)) == closure_of(d, s),
{
    lemma_closure_closed(d, s);
    lemma_closure_of_closed(d, closure_of(d, s));
}

/// The epsilon closure of the empty set is the empty set.
pub proof fn lemma_closure_empty(d: Nfa)
    ensures
        closure_of(d, Set::<int>::empty()) == Set::<int>::empty(),
{
    lemma_closure_of_closed(d, Set::<int>::empty());
}

/// From no live configuration, no input ever revives the run: every
/// consuming move and every epsilon move only starts from an existing
/// state, so the whole remaining suffix still ends in the empty set.
pub proof fn lemma_run_from_dead(d: Nfa, input: Seq<char>)
    ensures
        run_from(d, Set::<int>::empty(), input) == Set::<int>::empty(),
    decreases input.len(),
{
    if input.len() == 0 {
    } else {
        assert(step_set(d, Set::<int>::empty(), input[0]) =~= Set::<int>::empty());
        lemma_closure_empty(d);
        lemma_run_from_dead(d, input.skip(1));
    }
}

/// Running over `a + b` is running over `a`, then over `b` from where `a`
/// ended.
pub proof fn lemma_run_from_concat(d: Nfa, s: Set<int>, a: Seq<char>, b: Seq<char>)
    ensures
        run_from(d, s, a + b) == run_from(d, run_from(d, s, a), b),
    decreases a.len(),
{
    if a.len() == 0 {
        assert(a + b =~= b);
    } else {
        let s1 = closure_of(d, step_set(d, s, a[0]));
        assert((a + b)[0] == a[0]);
        assert((a + b).skip(1) =~= a.skip(1) + b);
        lemma_run_from_concat(d, s1, a.skip(1), b);
    }
}

/// Extending the input by one symbol steps the final configuration once
/// and closes it.
pub proof fn lemma_run_from_snoc(d: Nfa, s: Set<int>, a: Seq<char>, c: char)
    ensures
        run_from(d, s, a.push(c)) == closure_of(d, step_set(d, run_from(d, s, a), c)),
{
    let single = seq![c];
    assert(a.push(c) =~= a + single);
    lemma_run_from_concat(d, s, a, single);
    let end = run_from(d, s, a);
    assert(single.skip(1).len() == 0);
    assert(run_from(d, closure_of(d, step_set(d, end, c)), single.skip(1)) == closure_of(
        d,
        step_set(d, end, c),
    ));
}

/// Early termination never changes the result: when some prefix of the
/// input already drives the reachable set empty, the full computation over
/// the remaining suffix also yields rejection.
pub proof fn lemma_dead_prefix_rejects(d: Nfa, input: Seq<char>, k: int)
    requires
        0 <= k <= input.len(),
        run_from(d, closure_of(d, start_config(d)), input.take(k)) == Set::<int>::empty(),
    ensures
        !nfa_accepts(d, input),
{
    let s0 = closure_of(d, start_config(d));
    assert(input.take(k) + input.skip(k) =~= input);
    lemma_run_from_concat(d, s0, input.take(k), input.skip(k));
    lemma_run_from_dead(d, input.skip(k));
}

/// With an empty accept-state set, no input is ever accepted.
pub proof fn lemma_no_accept_states(d: Nfa, input: Seq<char>)
    requires
        d.accept_states@.len() == 0,
    ensures
        !nfa_accepts(d, input),
{
    assert forall|q: int| !(#[trigger] is_accept(d, q)) by {
        // an accepting witness would need an index into an empty sequence
        if is_accept(d, q) {
            let i = choose|i: int|
                0 <= i < d.accept_states@.len() && (#[trigger] d.accept_states@[i]) == q;
            assert(false);
        }
    }
}

/// When the start state is itself an accept state, the empty input is
/// accepted.
pub proof fn lemma_accepting_start_accepts_empty(d: Nfa)
    requires
        is_accept(d, d.start_state as int),
    ensures
        nfa_accepts(d, Seq::<char>::empty()),
{
    let s0 = start_config(d);
    lemma_closure_contains(d, s0);
    assert(s0.contains(d.start_state as int));
    assert(run_from(d, closure_of(d, s0), Seq::<char>::empty()) == closure_of(d, s0));
    assert(closure_of(d, s0).contains(d.start_state as int));
}

/// Acceptance is a function of the definition and the input alone: any two
/// results that both meet the simulation contract on the same arguments
/// are equal.
pub proof fn lemma_simulate_deterministic(d: Nfa, input: Seq<char>, r1: bool, r2: bool)
    requires
        r1 == nfa_accepts(d, input),
        r2 == nfa_accepts(d, input),
    ensures
        r1 == r2,
{
}

} // verus!
