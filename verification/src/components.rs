//! What the engine shares with the presentation layer: the viewport
//! dimensions that visibility is judged against, and the scoreboard
//! derived from a universe's live set.

use vstd::prelude::*;

use crate::life::lemma_filter_counts_set;
use crate::universe::{visible_pred, Universe};

verus! {

/// A viewport size, in pixels.
#[derive(Clone, Copy, Debug, PartialEq, Eq, Structural)]
pub struct Dimensions {
    pub height: i32,
    pub width: i32,
}

/// The scoreboard shown beside the grid: how many cells are live, and
/// how many of those are visible in the viewport.
pub struct Score {
    universe: Box<Universe>,
}

impl View for Score {
    type V = Set<(int, int)>;

    closed spec fn view(&self) -> Set<(int, int)> {
        (*self.universe)@
    }
}

impl Score {
    /// Wraps the universe whose counts are to be reported.
    pub fn new(universe: Box<Universe>) -> (s: Score)
        ensures
            s@ == universe@,
    {
        Score { universe }
    }

    /// Gives the wrapped universe back.
    pub fn into_universe(self) -> (u: Box<Universe>)
        ensures
            u@ == self@,
    {
        self.universe
    }

    /// The number of live cells.
    pub fn elements(&self) -> (n: usize)
        ensures
            n == self@.len(),
    {
        self.universe.len()
    }

    /// The number of live cells whose pixel position falls within a
    /// viewport of the given dimensions.
    pub fn visible(&self, dimensions: &Dimensions) -> (n: usize)
        ensures
            n == self@.filter(visible_pred(*dimensions)).len(),
    {
        let es = self.universe.entities();
        let ghost ord = self.universe.ordered();
        let ghost pred = visible_pred(*dimensions);
        let mut n: usize = 0;
        let mut i: usize = 0;
        while i < es.len()
            invariant
                i <= es@.len(),
                n <= i,
                n == ord.take(i as int).filter(pred).len(),
            decreases es@.len() - i,
        {
            let e = es[i];
            proof {
                assert(ord.take(i as int).push(ord[i as int]) =~= ord.take(i + 1));
                ord.take(i as int).lemma_filter_len_push(pred, ord[i as int]);
                assert(ord[i as int] == e@);
            }
            if e.is_visible(dimensions) {
                proof {
                    assert(pred(e@));
                }
                n += 1;
            } else {
                proof {
                    assert(!pred(e@));
                }
            }
            i += 1;
        }
        proof {
            assert(ord.take(es@.len() as int) =~= ord);
            lemma_filter_counts_set(ord, pred);
        }
        n
    }
}

} // verus!
