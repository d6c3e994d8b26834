//! Which positions are made into records, and how many.
use vstd::prelude::*;

verus! {

/// The first ply of a game whose positions are kept.
pub const MIN_PLY: u16 = 16;

/// The highest score, for either side, of the positions that are kept.
pub const MAX_SCORE: u16 = 10000;

/// Whether a position is kept for training: it is not one of the first of its game, the side to
/// move is not in check, the score is not decisive, and the move played is an ordinary one to an
/// empty square.
pub fn filter(
    ply: u16,
    in_check: bool,
    score: i16,
    is_normal_move: bool,
    is_target_empty: bool,
) -> (r: bool)
    ensures
        r <==> {
            &&& ply >= MIN_PLY
            &&& !in_check
            &&& -MAX_SCORE <= score <= MAX_SCORE
            &&& is_normal_move
            &&& is_target_empty
        },
        r <==> ply >= 16 && !in_check && -10000 <= score <= 10000 && is_normal_move
            && is_target_empty,
{
    ply >= MIN_PLY && !in_check && -10000 <= score && score <= 10000 && is_normal_move
        && is_target_empty
}

/// How many records have been written, how many of them had room for only a part of their features,
/// and whether the limit has been met.
#[derive(Copy, Clone, Eq, PartialEq, Structural, Debug)]
pub struct Tally {
    pub written: usize,
    pub clamped: usize,
    pub done: bool,
}

impl Tally {
    /// Whether the counts are in order: only records that were written are counted as clamped.
    pub open spec fn wf(self) -> bool {
        self.clamped <= self.written
    }

    /// Nothing has been written.
    pub fn new() -> (r: Self)
        ensures
            r == (Tally { written: 0, clamped: 0, done: false }),
            r.wf(),
    {
        Tally { written: 0, clamped: 0, done: false }
    }

    /// Counts a record and tells whether it is to be written; once there are `limit` records, it is
    /// not, and the work is done.
    pub fn count_record(&mut self, is_clamped: bool, limit: usize) -> (r: bool)
        requires
            old(self).wf(),
        ensures
            r == (old(self).written < limit),
            r ==> *final(self) == (Tally {
                written: (old(self).written + 1) as usize,
                clamped: if is_clamped {
                    (old(self).clamped + 1) as usize
                } else {
                    old(self).clamped
                },
                done: old(self).done,
            }),
            !r ==> *final(self) == (Tally { done: true, ..*old(self) }),
            final(self).wf(),
            old(self).written <= limit ==> final(self).written <= limit,
    {
        if self.written >= limit {
            self.done = true;
            return false;
        }
        if is_clamped {
            self.clamped = self.clamped + 1;
        }
        self.written = self.written + 1;
        true
    }
}

} // verus!
