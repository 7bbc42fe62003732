//! The nodes of a suffix automaton: classes of substrings with the same set of end positions.

use vstd::prelude::*;

verus! {

/// The outgoing transitions of a node, by character.
pub trait Transition: Clone + Default {
    type Char: Copy;

    /// The node reached by `c`, if any.
    fn get(&self, c: Self::Char) -> Option<usize>;

    /// Makes `c` lead to `target`.
    fn set(&mut self, c: Self::Char, target: usize);

    /// Every transition.
    fn iter(&self) -> Vec<(Self::Char, usize)>;
}

/// Substrings that reach the same set of nodes form one node. Extending such a substring up to
/// the end of the text makes it a suffix, and every suffix that has it as a prefix is gathered
/// here, so the nodes are the classes of an equivalence.
#[derive(Debug, Clone)]
struct Node<T: Transition> {
    transition: T,
    /// The class of the shortest member of this class with its first character removed.
    link: usize,
    /// The length of the longest member of the class.
    max_len: usize,
    state: u8,
}

/// A suffix automaton, its nodes stored in an arena with the root first.
pub struct SuffixAutomaton<T: Transition> {
    arena: Vec<Node<T>>,
}

impl<T: Transition> SuffixAutomaton<T> {
    /// The number of nodes.
    pub closed spec fn num_nodes(&self) -> nat {
        self.arena@.len()
    }

    /// The link of node `i`.
    pub closed spec fn link(&self, i: int) -> int {
        self.arena@[i].link as int
    }

    /// The length of the longest member of node `i`.
    pub closed spec fn max_len(&self, i: int) -> int {
        self.arena@[i].max_len as int
    }

    /// The automaton of `s`; only the root is built, whatever `s` holds.
    pub fn from_str(s: &[T::Char]) -> (r: Self)
        ensures
            r.num_nodes() == 1,
            r.link(0) == 0,
            r.max_len(0) == 0,
    {
        let mut arena: Vec<Node<T>> = Vec::new();
        arena.push(Node { transition: T::default(), link: 0, max_len: 0, state: 0 });
        SuffixAutomaton { arena }
    }

}

} // verus!
