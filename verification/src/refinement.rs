//! The rounds in which the segmentation model refines the boundaries of notes.
use vstd::prelude::*;

verus! {

/// Which frames are boundaries, in the shape in which models hand it on.
#[derive(Debug)]
pub struct BoundaryMap {
    pub shape: Vec<i64>,
    pub data: Vec<bool>,
}

/// Refinement under way: each round starts from the boundaries that the round
/// before it found.
#[derive(Debug)]
pub struct Refinement {
    /// How many rounds there are to be.
    pub rounds: usize,
    /// How many there have been.
    pub done: usize,
    /// The boundaries of the last round, or none before the first.
    pub boundaries: BoundaryMap,
}

impl BoundaryMap {
    /// Whether there is one row of that many frames, with no boundary among
    /// them.
    pub open spec fn is_blank(self, frames: int) -> bool {
        &&& self.shape@ == seq![1i64, frames as i64]
        &&& self.data@ == Seq::new(frames as nat, |i: int| false)
    }

    /// One row of frames with no boundary.
    pub fn blank(frames: usize) -> (map: BoundaryMap)
        requires
            frames <= i64::MAX,
        ensures
            map.is_blank(frames as int),
            map.shape@ == seq![1i64, frames as i64],
            map.data@.len() == frames,
            forall|i: int| 0 <= i < frames ==> !(#[trigger] map.data@[i]),
    {
        let mut shape: Vec<i64> = Vec::new();
        shape.push(1);
        shape.push(frames as i64);
        let mut data: Vec<bool> = Vec::new();
        let mut i: usize = 0;
        while i < frames
            invariant
                i <= frames,
                data@ == Seq::new(i as nat, |i: int| false),
            decreases frames - i,
        {
            data.push(false);
            i = i + 1;
        }
        proof {
            assert(shape@ =~= seq![1i64, frames as i64]);
        }
        BoundaryMap { shape, data }
    }
}

impl Refinement {
    /// The state after a round that found `boundaries`.
    pub open spec fn after_round(self, boundaries: BoundaryMap) -> Refinement {
        Refinement { rounds: self.rounds, done: (self.done + 1) as usize, boundaries }
    }

    /// The number of the round that comes next, if one does.
    pub open spec fn coming(self) -> Option<usize> {
        if self.done < self.rounds {
            Some(self.done)
        } else {
            None
        }
    }

    /// The state after rounds that found each of `found` in turn.
    pub open spec fn after_rounds(self, found: Seq<BoundaryMap>) -> Refinement
        decreases found.len(),
    {
        if found.len() == 0 {
            self
        } else {
            self.after_rounds(found.drop_last()).after_round(found.last())
        }
    }

    /// Refinement in that many rounds, before the first of them.
    pub fn new(rounds: usize, frames: usize) -> (refinement: Refinement)
        requires
            frames <= i64::MAX,
        ensures
            refinement.rounds == rounds,
            refinement.done == 0,
            refinement.boundaries.is_blank(frames as int),
            refinement.boundaries.shape@ == seq![1i64, frames as i64],
            refinement.boundaries.data@.len() == frames,
            forall|i: int| 0 <= i < frames ==> !(#[trigger] refinement.boundaries.data@[i]),
    {
        Refinement { rounds, done: 0, boundaries: BoundaryMap::blank(frames) }
    }

    /// The number of the round that comes next, if one does.
    pub fn next_round(&self) -> (round: Option<usize>)
        ensures
            round == self.coming(),
            self.done < self.rounds ==> round == Some(self.done),
            self.done >= self.rounds ==> round is None,
    {
        if self.done < self.rounds {
            Some(self.done)
        } else {
            None
        }
    }

    /// Takes over the boundaries that a round found.
    pub fn accept(&mut self, boundaries: BoundaryMap)
        requires
            old(self).coming() is Some,
        ensures
            *final(self) == old(self).after_round(boundaries),
            final(self).boundaries == boundaries,
            final(self).done == old(self).done + 1,
            final(self).rounds == old(self).rounds,
    {
        self.boundaries = boundaries;
        self.done = self.done + 1;
    }
}

/// Each round is run once, in order, and no more: after some rounds the next is
/// the one with their number, as long as that is less than the number of rounds,
/// and the boundaries are those of the last round, or the first ones where there
/// was none.
pub proof fn lemma_rounds_are_run_in_order(start: Refinement, found: Seq<BoundaryMap>)
    requires
        start.done == 0,
        found.len() <= start.rounds,
    ensures
        start.after_rounds(found).coming() == if found.len() < start.rounds {
            Some(found.len() as usize)
        } else {
            None
        },
        start.after_rounds(found).boundaries == if found.len() == 0 {
            start.boundaries
        } else {
            found.last()
        },
        start.after_rounds(found).rounds == start.rounds,
        start.after_rounds(found).done == found.len(),
    decreases found.len(),
{
    if found.len() > 0 {
        lemma_rounds_are_run_in_order(start, found.drop_last());
    }
}

/// A round comes as long as fewer have been than are to be, and its number is how
/// many have been.
pub proof fn lemma_which_round_comes(state: Refinement)
    ensures
        state.coming() is Some <==> state.done < state.rounds,
        state.coming() is Some ==> state.coming() == Some(state.done),
{
}

/// What a round finds is what the next one starts from, whatever was before.
pub proof fn lemma_round_hands_on_its_boundaries(state: Refinement, found: BoundaryMap)
    requires
        state.done < state.rounds,
    ensures
        state.after_round(found).boundaries == found,
        state.after_round(found).done == state.done + 1,
        state.after_round(found).rounds == state.rounds,
{
}

} // verus!
