//! A growable list of moves.
use vstd::prelude::*;

use crate::mov::ChessMove;
use vstd::std_specs::iter::IteratorSpec;

verus! {

/// Number of moves `push` takes into one list.
pub const MAX_MOVES: usize = 256;

/// Moves in the order they were added.
#[derive(Clone)]
pub struct MoveList {
    moves: Vec<ChessMove>,
}

impl View for MoveList {
    type V = Seq<ChessMove>;

    closed spec fn view(&self) -> Seq<ChessMove> {
        self.moves@
    }
}

impl MoveList {
    /// An empty list.
    pub fn new() -> (r: Self)
        ensures
            r@ == Seq::<ChessMove>::empty(),
    {
        MoveList { moves: Vec::new() }
    }

    /// Appends `mv` to a list holding fewer than `MAX_MOVES` moves.
    pub fn push(&mut self, mv: ChessMove)
        requires
            old(self)@.len() < MAX_MOVES,
        ensures
            final(self)@ == old(self)@.push(mv),
    {
        self.moves.push(mv);
    }

    /// Number of moves.
    pub fn len(&self) -> (r: usize)
        ensures
            r == self@.len(),
    {
        self.moves.len()
    }

    /// The list holds no move.
    pub fn is_empty(&self) -> (r: bool)
        ensures
            r <==> self@.len() == 0,
    {
        self.moves.len() == 0
    }

    /// Removes every move.
    pub fn clear(&mut self)
        ensures
            final(self)@ == Seq::<ChessMove>::empty(),
    {
        self.moves.clear();
    }

    /// The moves as a slice.
    pub fn as_slice(&self) -> (r: &[ChessMove])
        ensures
            r@ == self@,
    {
        self.moves.as_slice()
    }

    /// The moves as a mutable slice; what is written through it becomes the list.
    pub fn as_mut_slice(&mut self) -> (r: &mut [ChessMove])
        ensures
            r@ == old(self)@,
            final(r)@ == final(self)@,
    {
        self.moves.as_mut_slice()
    }

    /// An iterator over the moves, in order.
    pub fn iter(&self) -> (r: std::slice::Iter<'_, ChessMove>)
        ensures
            IteratorSpec::remaining(&r).unref() == self@,
    {
        let sl = self.moves.as_slice();
        let it = sl.iter();
        proof {
            vstd::std_specs::slice::axiom_spec_slice_iter(sl);
        }
        it
    }

    /// The move at `index`, if there is one.
    pub fn get(&self, index: usize) -> (r: Option<&ChessMove>)
        ensures
            r is Some <==> index < self@.len(),
            r is Some ==> *r->0 == self@[index as int],
    {
        if index < self.moves.len() {
            Some(&self.moves[index])
        } else {
            None
        }
    }

    /// Exchanges the moves at `a` and `b` when both are in range; otherwise does nothing.
    pub fn swap(&mut self, a: usize, b: usize)
        ensures
            (a < old(self)@.len() && b < old(self)@.len()) ==> final(self)@ == old(self)@.update(
                a as int,
                old(self)@[b as int],
            ).update(b as int, old(self)@[a as int]),
            !(a < old(self)@.len() && b < old(self)@.len()) ==> final(self)@ == old(self)@,
    {
        if a < self.moves.len() && b < self.moves.len() {
            let ma = self.moves[a];
            let mb = self.moves[b];
            self.moves.set(a, mb);
            self.moves.set(b, ma);
        }
    }

    /// The moves as a vector.
    pub fn to_vec(&self) -> (r: Vec<ChessMove>)
        ensures
            r@ == self@,
    {
        self.moves.clone()
    }

    /// A list holding the moves of `vec`, in order.
    pub fn from_vec(vec: Vec<ChessMove>) -> (r: Self)
        ensures
            r@ == vec@,
    {
        MoveList { moves: vec }
    }
}


impl Default for MoveList {
    /// An empty list.
    fn default() -> (r: Self)
        ensures
            r@ == Seq::<ChessMove>::empty(),
    {
        Self::new()
    }
}

impl core::ops::Index<usize> for MoveList {
    type Output = ChessMove;

    fn index(&self, index: usize) -> (r: &ChessMove)
        ensures
            *r == self@[index as int],
    {
        &self.moves[index]
    }
}

impl vstd::std_specs::core::IndexSpecImpl<usize> for MoveList {
    open spec fn index_req(&self, index: &usize) -> bool {
        *index < self@.len()
    }
}

} // verus!
