//! The simulation engine over 64-bit coordinates.  It keeps the live
//! cells as a vector in strictly ascending `(line, column)` order and
//! steps them with the same padded bounding-box scan as the 32-bit
//! engine, against the shared rule specification.

use vstd::prelude::*;

use crate::life::{
    alive_next, lemma_alive_next_within, lemma_next_gen_empty,
    lemma_strictly_ordered_no_duplicates, neighbor_count, next_gen, pos_lt, strictly_ordered,
};

verus! {

/// One live cell, identified by its grid position.
#[derive(Clone, Copy, Debug, PartialEq, Eq, PartialOrd, Ord, Hash, Structural)]
pub struct Cell {
    pub line: i64,
    pub column: i64,
}

impl View for Cell {
    type V = (int, int);

    open spec fn view(&self) -> (int, int) {
        (self.line as int, self.column as int)
    }
}

/// The whole state of the simulation: the set of live cells.
#[derive(Debug)]
pub struct Cells {
    universe: Vec<Cell>,
}

impl View for Cells {
    type V = Set<(int, int)>;

    closed spec fn view(&self) -> Set<(int, int)> {
        self.ordered().to_set()
    }
}

/// The sequence of grid positions of a sequence of cells.
spec fn cell_positions(cs: Seq<Cell>) -> Seq<(int, int)> {
    cs.map_values(|c: Cell| c@)
}

/// Positions at least two cells away from the ends of the 64-bit
/// coordinate range; `update` scans one cell beyond the bounding box and
/// probes one cell further for neighbors, so live cells must keep this
/// margin for every probed position to stay representable.
pub open spec fn within_cell_margin(p: (int, int)) -> bool {
    i64::MIN + 2 <= p.0 <= i64::MAX - 2 && i64::MIN + 2 <= p.1 <= i64::MAX - 2
}

/// The positions already visited by a row-major scan that starts at
/// `(lo_r, lo_c)`, runs each row up to column `hi_c`, and currently
/// stands at `(line, column)`.
spec fn scanned(q: (int, int), lo_r: int, lo_c: int, hi_c: int, line: int, column: int) -> bool {
    lo_r <= q.0 && lo_c <= q.1 <= hi_c && (q.0 < line || (q.0 == line && q.1 < column))
}

/// The extremes of the live cells' coordinates: the minimal rectangle
/// containing the current generation, by row and column.
#[derive(Clone, Copy, Debug, PartialEq, Eq, Structural)]
pub struct Boundaries {
    pub line_max: i64,
    pub line_min: i64,
    pub column_max: i64,
    pub column_min: i64,
}

impl Cells {
    /// The live positions in iteration order.
    pub closed spec fn ordered(self) -> Seq<(int, int)> {
        self.universe@.map_values(|c: Cell| c@)
    }

    #[verifier::type_invariant]
    spec fn wf(self) -> bool {
        strictly_ordered(self.ordered())
    }

    /// A universe with no live cells.
    pub fn empty() -> (u: Cells)
        ensures
            u@ == Set::<(int, int)>::empty(),
            u.ordered() == Seq::<(int, int)>::empty(),
    {
        let u = Cells { universe: Vec::new() };
        proof {
            assert(u.ordered() =~= Seq::<(int, int)>::empty());
            assert(u@ =~= Set::<(int, int)>::empty());
        }
        u
    }

    /// The number of live cells.
    pub fn len(&self) -> (n: usize)
        ensures
            n == self@.len(),
            n == self.ordered().len(),
    {
        proof {
            use_type_invariant(&*self);
            lemma_strictly_ordered_no_duplicates(self.ordered());
            self.ordered().unique_seq_to_set();
        }
        self.universe.len()
    }

    /// Read-only access to the live cells for iteration, in ascending
    /// `(line, column)` order.
    pub fn cells(&self) -> (r: &Vec<Cell>)
        ensures
            r@.map_values(|c: Cell| c@) == self.ordered(),
            strictly_ordered(self.ordered()),
            self.ordered().no_duplicates(),
            self.ordered().to_set() == self@,
            self.ordered().len() == self@.len(),
            forall|k: int|
                0 <= k < self.ordered().len() ==> self@.contains(#[trigger] self.ordered()[k]),
    {
        proof {
            use_type_invariant(&*self);
            lemma_strictly_ordered_no_duplicates(self.ordered());
            self.ordered().unique_seq_to_set();
        }
        &self.universe
    }

    /// Whether the cell at `(line, column)` is live.
    fn contains_pos(&self, line: i64, column: i64) -> (present: bool)
        ensures
            present == self@.contains((line as int, column as int)),
    {
        let ghost p = (line as int, column as int);
        let mut i: usize = 0;
        while i < self.universe.len()
            invariant
                i <= self.universe@.len(),
                forall|k: int| 0 <= k < i ==> #[trigger] self.ordered()[k] != p,
            decreases self.universe@.len() - i,
        {
            let c = self.universe[i];
            if c.line == line && c.column == column {
                proof {
                    assert(self.ordered()[i as int] == p);
                    assert(self.ordered().contains(p));
                }
                return true;
            }
            i += 1;
        }
        proof {
            assert(!self.ordered().contains(p));
        }
        false
    }

    /// The index of the first cell not below `cell` in the canonical
    /// order; the length when every cell is below it.
    fn insertion_point(&self, cell: Cell) -> (i: usize)
        ensures
            i <= self.universe@.len(),
            forall|k: int| 0 <= k < i ==> pos_lt(#[trigger] self.ordered()[k], cell@),
            i < self.universe@.len() ==> !pos_lt(self.ordered()[i as int], cell@),
    {
        let mut i: usize = 0;
        while i < self.universe.len()
            invariant
                i <= self.universe@.len(),
                forall|k: int| 0 <= k < i ==> pos_lt(#[trigger] self.ordered()[k], cell@),
            decreases self.universe@.len() - i,
        {
            let c = self.universe[i];
            if c.line > cell.line || (c.line == cell.line && c.column >= cell.column) {
                proof {
                    assert(!pos_lt(self.ordered()[i as int], cell@));
                }
                return i;
            }
            i += 1;
        }
        i
    }

    /// Adds a live cell; a no-op when the cell is already present.
    #[verifier::rlimit(30)]
    pub fn insert(&mut self, cell: Cell)
        ensures
            final(self)@ == old(self)@.insert(cell@),
    {
        proof {
            use_type_invariant(&*self);
        }
        let ghost s0 = self.ordered();
        let i = self.insertion_point(cell);
        if i < self.universe.len() {
            let c = self.universe[i];
            if c.line == cell.line && c.column == cell.column {
                proof {
                    assert(s0[i as int] == cell@);
                    assert(s0.contains(cell@));
                    assert(self@.insert(cell@) =~= self@);
                }
                return;
            }
            proof {
                assert(pos_lt(cell@, s0[i as int]));
            }
        }
        let mut cs: Vec<Cell> = Vec::new();
        std::mem::swap(&mut cs, &mut self.universe);
        let ghost cs0 = cs@;
        cs.insert(i, cell);
        proof {
            cs0.insert_ensures(i as int, cell);
            let s1 = cs@.map_values(|c: Cell| c@);
            assert(s1.len() == s0.len() + 1);
            assert(forall|k: int| 0 <= k < i ==> s1[k] == s0[k]);
            assert(s1[i as int] == cell@);
            assert(forall|k: int| i < k < s1.len() ==> s1[k] == s0[k - 1]);
            // every earlier entry is below the new one, every later one above it
            assert forall|k: int| i < k < s1.len() implies pos_lt(cell@, s1[k]) by {
                assert(!pos_lt(s0[i as int], cell@));
                if k > i + 1 {
                    assert(pos_lt(s0[i as int], s0[k - 1]));
                }
                assert(s0[k - 1] != cell@);
            }
            // the new sequence is still strictly ascending
            assert forall|m: int, n: int| 0 <= m < n < s1.len() implies pos_lt(s1[m], s1[n]) by {
                if n < i {
                } else if m > i {
                    assert(s1[m] == s0[m - 1] && s1[n] == s0[n - 1]);
                } else if n == i {
                    assert(pos_lt(s1[m], cell@));
                } else if m == i {
                    assert(pos_lt(cell@, s1[n]));
                } else {
                    // m < i < n, both sides relate through the new entry
                    assert(pos_lt(s1[m], cell@));
                    assert(pos_lt(cell@, s1[n]));
                }
            }
            // the set gains exactly the new position
            assert forall|q: (int, int)| #[trigger] s1.to_set().contains(q) implies s0.to_set().insert(
                cell@,
            ).contains(q) by {
                let k = choose|k: int| 0 <= k < s1.len() && s1[k] == q;
                if k < i {
                    assert(s0[k] == q);
                } else if k > i {
                    assert(s0[k - 1] == q);
                }
            }
            assert forall|q: (int, int)| #[trigger]
                s0.to_set().insert(cell@).contains(q) implies s1.to_set().contains(q) by {
                if q == cell@ {
                    assert(s1[i as int] == q);
                } else {
                    let k = choose|k: int| 0 <= k < s0.len() && s0[k] == q;
                    if k < i {
                        assert(s1[k] == q);
                    } else {
                        assert(s1[k + 1] == q);
                    }
                }
            }
            assert(strictly_ordered(s1));
            assert(s1.to_set() =~= s0.to_set().insert(cell@));
        }
        self.universe = cs;
        proof {
            assert(self.ordered() == cs@.map_values(|c: Cell| c@));
            assert(self@ == old(self)@.insert(cell@));
        }
    }

    /// The bounding box of the live set.  It is undefined on an empty
    /// universe, so an empty universe is ruled out.
    pub fn boundaries(&self) -> (b: Boundaries)
        requires
            self@.len() != 0,
        ensures
            forall|p: (int, int)| #[trigger]
                self@.contains(p) ==> b.line_min <= p.0 <= b.line_max && b.column_min <= p.1
                    <= b.column_max,
            exists|p: (int, int)| #[trigger] self@.contains(p) && p.0 == b.line_min,
            exists|p: (int, int)| #[trigger] self@.contains(p) && p.0 == b.line_max,
            exists|p: (int, int)| #[trigger] self@.contains(p) && p.1 == b.column_min,
            exists|p: (int, int)| #[trigger] self@.contains(p) && p.1 == b.column_max,
    {
        proof {
            use_type_invariant(&*self);
            lemma_strictly_ordered_no_duplicates(self.ordered());
            self.ordered().unique_seq_to_set();
        }
        let ghost s0 = self.ordered();
        let c0 = self.universe[0];
        proof {
            assert(s0[0] == c0@);
        }
        let mut line_min = c0.line;
        let mut line_max = c0.line;
        let mut column_min = c0.column;
        let mut column_max = c0.column;
        let mut i: usize = 1;
        while i < self.universe.len()
            invariant
                1 <= i <= s0.len(),
                forall|k: int|
                    0 <= k < i ==> line_min <= (#[trigger] s0[k]).0 <= line_max && column_min
                        <= s0[k].1 <= column_max,
                exists|k: int| 0 <= k < i && (#[trigger] s0[k]).0 == line_min,
                exists|k: int| 0 <= k < i && (#[trigger] s0[k]).0 == line_max,
                exists|k: int| 0 <= k < i && (#[trigger] s0[k]).1 == column_min,
                exists|k: int| 0 <= k < i && (#[trigger] s0[k]).1 == column_max,
            decreases s0.len() - i,
        {
            let c = self.universe[i];
            proof {
                assert(s0[i as int] == c@);
            }
            if c.line < line_min {
                line_min = c.line;
            }
            if c.line > line_max {
                line_max = c.line;
            }
            if c.column < column_min {
                column_min = c.column;
            }
            if c.column > column_max {
                column_max = c.column;
            }
            i += 1;
        }
        proof {
            assert forall|p: (int, int)| #[trigger]
                self@.contains(p) implies line_min <= p.0 <= line_max && column_min <= p.1
                <= column_max by {
                let k = choose|k: int| 0 <= k < s0.len() && s0[k] == p;
                assert(s0[k] == p);
            }
            let k1 = choose|k: int| 0 <= k < s0.len() && (#[trigger] s0[k]).0 == line_min;
            assert(self@.contains(s0[k1]));
            let k2 = choose|k: int| 0 <= k < s0.len() && (#[trigger] s0[k]).0 == line_max;
            assert(self@.contains(s0[k2]));
            let k3 = choose|k: int| 0 <= k < s0.len() && (#[trigger] s0[k]).1 == column_min;
            assert(self@.contains(s0[k3]));
            let k4 = choose|k: int| 0 <= k < s0.len() && (#[trigger] s0[k]).1 == column_max;
            assert(self@.contains(s0[k4]));
        }
        Boundaries { line_max, line_min, column_max, column_min }
    }

    /// Counts the live cells among the eight Moore neighbors of
    /// `(line, column)`; the probed positions must not leave the
    /// coordinate range.
    pub fn number_of_neighbors(&self, line: i64, column: i64) -> (n: usize)
        requires
            i64::MIN < line < i64::MAX,
            i64::MIN < column < i64::MAX,
        ensures
            n == neighbor_count(self@, line as int, column as int),
    {
        let mut n: usize = 0;
        if self.contains_pos(line - 1, column - 1) {
            n += 1;  // top left
        }
        if self.contains_pos(line - 1, column) {
            n += 1;  // top
        }
        if self.contains_pos(line - 1, column + 1) {
            n += 1;  // top right
        }
        if self.contains_pos(line + 1, column - 1) {
            n += 1;  // bottom left
        }
        if self.contains_pos(line + 1, column) {
            n += 1;  // bottom
        }
        if self.contains_pos(line + 1, column + 1) {
            n += 1;  // bottom right
        }
        if self.contains_pos(line, column - 1) {
            n += 1;  // left
        }
        if self.contains_pos(line, column + 1) {
            n += 1;  // right
        }
        n
    }

    /// One simulation step: replaces the live set, atomically and as a
    /// whole, with the next generation under the standard rule.  An empty
    /// universe stays empty without scanning anything.
    pub fn update(&mut self)
        requires
            forall|p: (int, int)| #[trigger] old(self)@.contains(p) ==> within_cell_margin(p),
        ensures
            final(self)@ == next_gen(old(self)@),
    {
        proof {
            use_type_invariant(&*self);
            lemma_strictly_ordered_no_duplicates(self.ordered());
            self.ordered().unique_seq_to_set();
        }
        let ghost s = self@;
        if self.universe.len() == 0 {
            proof {
                assert(s =~= Set::<(int, int)>::empty());
                lemma_next_gen_empty();
            }
            return;
        }
        let b = self.boundaries();
        proof {
            let p1 = choose|p: (int, int)| #[trigger] self@.contains(p) && p.0 == b.line_min;
            let p2 = choose|p: (int, int)| #[trigger] self@.contains(p) && p.0 == b.line_max;
            let p3 = choose|p: (int, int)| #[trigger] self@.contains(p) && p.1 == b.column_min;
            let p4 = choose|p: (int, int)| #[trigger] self@.contains(p) && p.1 == b.column_max;
            assert(within_cell_margin(p1) && within_cell_margin(p2) && within_cell_margin(p3)
                && within_cell_margin(p4));
        }
        let lo_r = b.line_min - 1;
        let hi_r = b.line_max + 1;
        let lo_c = b.column_min - 1;
        let hi_c = b.column_max + 1;
        let mut next: Vec<Cell> = Vec::new();
        let mut line = lo_r;
        while line <= hi_r
            invariant
                lo_r <= line <= hi_r + 1,
                strictly_ordered(cell_positions(next@)),
                forall|q: (int, int)|
                    #![trigger cell_positions(next@).contains(q)]
                    #![trigger alive_next(s, q.0, q.1)]
                    cell_positions(next@).contains(q) <==> (alive_next(s, q.0, q.1) && scanned(
                        q,
                        lo_r as int,
                        lo_c as int,
                        hi_c as int,
                        line as int,
                        lo_c as int,
                    )),
            decreases hi_r + 1 - line,
        {
            let mut column = lo_c;
            while column <= hi_c
                invariant
                    lo_r <= line <= hi_r,
                    lo_c <= column <= hi_c + 1,
                    strictly_ordered(cell_positions(next@)),
                    forall|q: (int, int)|
                        #![trigger cell_positions(next@).contains(q)]
                        #![trigger alive_next(s, q.0, q.1)]
                        cell_positions(next@).contains(q) <==> (alive_next(s, q.0, q.1) && scanned(
                            q,
                            lo_r as int,
                            lo_c as int,
                            hi_c as int,
                            line as int,
                            column as int,
                        )),
                decreases hi_c + 1 - column,
            {
                let ghost m0 = cell_positions(next@);
                let ghost p = (line as int, column as int);
                let neighbors = self.number_of_neighbors(line, column);
                let exist = self.contains_pos(line, column);
                let lives = if !exist {
                    neighbors == 3
                } else {
                    neighbors == 3 || neighbors == 2
                };
                proof {
                    assert(lives == alive_next(s, p.0, p.1));
                }
                if lives {
                    proof {
                        assert(!m0.contains(p));
                        assert forall|k: int| 0 <= k < m0.len() implies pos_lt(m0[k], p) by {
                            assert(m0.contains(m0[k]));
                        }
                    }
                    next.push(Cell { line, column });
                    proof {
                        let m1 = cell_positions(next@);
                        assert(m1 =~= m0.push(p));
                        assert(m1[m1.len() - 1] == p);
                        assert(strictly_ordered(m1));
                        assert forall|q: (int, int)|
                            #![trigger m1.contains(q)]
                            #![trigger alive_next(s, q.0, q.1)]
                            m1.contains(q) <==> (alive_next(s, q.0, q.1) && scanned(
                            q,
                            lo_r as int,
                            lo_c as int,
                            hi_c as int,
                            line as int,
                            column as int + 1,
                        )) by {
                            if m1.contains(q) {
                                let k = choose|k: int| 0 <= k < m1.len() && m1[k] == q;
                                if k < m0.len() {
                                    assert(m0[k] == q);
                                    assert(m0.contains(q));
                                }
                            }
                            if alive_next(s, q.0, q.1) && scanned(
                                q,
                                lo_r as int,
                                lo_c as int,
                                hi_c as int,
                                line as int,
                                column as int + 1,
                            ) {
                                if q != p {
                                    assert(m0.contains(q));
                                    let k = choose|k: int| 0 <= k < m0.len() && m0[k] == q;
                                    assert(m1[k] == q);
                                }
                            }
                        }
                    }
                } else {
                    proof {
                        let m1 = cell_positions(next@);
                        assert forall|q: (int, int)|
                            #![trigger m1.contains(q)]
                            #![trigger alive_next(s, q.0, q.1)]
                            m1.contains(q) <==> (alive_next(s, q.0, q.1) && scanned(
                            q,
                            lo_r as int,
                            lo_c as int,
                            hi_c as int,
                            line as int,
                            column as int + 1,
                        )) by {
                            assert(!alive_next(s, p.0, p.1));
                        }
                    }
                }
                column += 1;
            }
            line += 1;
        }
        proof {
            let m = cell_positions(next@);
            assert forall|q: (int, int)| #[trigger]
                m.to_set().contains(q) <==> next_gen(s).contains(q) by {
                if alive_next(s, q.0, q.1) {
                    lemma_alive_next_within(
                        s,
                        b.line_min as int,
                        b.line_max as int,
                        b.column_min as int,
                        b.column_max as int,
                        q.0,
                        q.1,
                    );
                    assert(scanned(
                        q,
                        lo_r as int,
                        lo_c as int,
                        hi_c as int,
                        hi_r as int + 1,
                        lo_c as int,
                    ));
                }
            }
            assert(m.to_set() =~= next_gen(s));
        }
        self.universe = next;
    }
}

} // verus!
