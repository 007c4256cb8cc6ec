use vstd::prelude::*;

verus! {

/// A transition label: either one ordinary input symbol that the move
/// consumes, or an epsilon move that consumes nothing.  Keeping epsilon as
/// its own variant means no input symbol can collide with it.
#[derive(Clone, Copy, Debug)]
pub enum Label {
    Epsilon,
    Consume(char),
}

/// One transition of the automaton: from state `from`, on `label`, to
/// state `to`.  The same `(from, label)` pair may appear in any number of
/// transitions; that is the source of nondeterminism.
#[derive(Clone, Copy, Debug)]
pub struct Transition {
    pub from: usize,
    pub label: Label,
    pub to: usize,
}

/// An automaton definition.  States are the indices `0 .. num_states`; a
/// state with no outgoing transitions simply appears in no `Transition`.
/// The definition is immutable data: the engine only ever reads it.  The
/// description is a free-text label that the engine never consults.
#[derive(Debug)]
pub struct Nfa {
    pub num_states: usize,
    pub start_state: usize,
    pub accept_states: Vec<usize>,
    pub transitions: Vec<Transition>,
    pub description: Option<String>,
}

impl Nfa {
    /// A definition is well formed when the start state and every
    /// transition endpoint lie below `num_states`.
    pub open spec fn wf(&self) -> bool {
        &&& self.start_state < self.num_states
        &&& forall|i: int| 0 <= i < self.transitions@.len()
                ==> (#[trigger] self.transitions@[i]).from < self.num_states
                    && self.transitions@[i].to < self.num_states
    }

    /// Decides membership of `q` in the accept-state set.
    pub fn is_accept_state(&self, q: usize) -> (r: bool)
        ensures
            r == is_accept(*self, q as int),
    {
        let mut i: usize = 0;
        while i < self.accept_states.len()
            invariant
                i <= self.accept_states@.len(),
                forall|j: int| 0 <= j < i ==> (#[trigger] self.accept_states@[j]) != q,
            decreases self.accept_states@.len() - i,
        {
            if self.accept_states[i] == q {
                return true;
            }
            i += 1;
        }
        false
    }
}

/// There is an epsilon transition from `p` to `q`.
pub open spec fn eps_edge(d: Nfa, p: int, q: int) -> bool {
    exists|i: int|
        0 <= i < d.transitions@.len()
            && (#[trigger] d.transitions@[i]).from == p
            && d.transitions@[i].label is Epsilon
            && d.transitions@[i].to == q
}

/// There is a transition from `p` to `q` that consumes the symbol `c`.
pub open spec fn consume_edge(d: Nfa, p: int, c: char, q: int) -> bool {
    exists|i: int|
        0 <= i < d.transitions@.len()
            && (#[trigger] d.transitions@[i]).from == p
            && d.transitions@[i].label == Label::Consume(c)
            && d.transitions@[i].to == q
}

/// `q` is one of the accepting states.
pub open spec fn is_accept(d: Nfa, q: int) -> bool {
    exists|i: int| 0 <= i < d.accept_states@.len() && (#[trigger] d.accept_states@[i]) == q
}

} // verus!
