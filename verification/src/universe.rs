//! The simulation engine over 32-bit coordinates: a sparse set of live
//! cells, mutation primitives for an external editor, pattern parsing and
//! the per-generation transition.  The live set is kept as a vector of
//! entities in strictly ascending `(line, column)` order, so iteration is
//! deterministic and membership is unambiguous.

use vstd::prelude::*;

use crate::components::Dimensions;
use crate::life::{
    alive_next, lemma_alive_next_within, lemma_next_gen_empty,
    lemma_strictly_ordered_canonical, lemma_strictly_ordered_no_duplicates, neighbor_count,
    next_gen, nth_gen, pos_lt, strictly_ordered,
};

verus! {

/// Edge length, in pixels, of one rendered cell; the fixed scale between
/// grid coordinates and screen coordinates.
pub const CELL_SIZE: i32 = 20;

/// One live cell, identified by its grid position.
#[derive(Clone, Copy, Debug, PartialEq, Eq, PartialOrd, Ord, Hash, Structural)]
pub struct Entity {
    pub line: i32,
    pub column: i32,
}

impl View for Entity {
    type V = (int, int);

    open spec fn view(&self) -> (int, int) {
        (self.line as int, self.column as int)
    }
}

/// The whole state of the simulation: the set of live cells.
#[derive(Debug)]
pub struct Universe {
    entities: Vec<Entity>,
}

impl View for Universe {
    type V = Set<(int, int)>;

    closed spec fn view(&self) -> Set<(int, int)> {
        self.ordered().to_set()
    }
}

impl Universe {
    /// The live positions in iteration order.
    pub closed spec fn ordered(self) -> Seq<(int, int)> {
        self.entities@.map_values(|e: Entity| e@)
    }

    #[verifier::type_invariant]
    spec fn wf(self) -> bool {
        strictly_ordered(self.ordered())
    }

    /// A universe with no live cells.
    pub fn empty() -> (u: Universe)
        ensures
            u@ == Set::<(int, int)>::empty(),
            u.ordered() == Seq::<(int, int)>::empty(),
    {
        let u = Universe { entities: Vec::new() };
        proof {
            assert(u.ordered() =~= Seq::<(int, int)>::empty());
            assert(u@ =~= Set::<(int, int)>::empty());
        }
        u
    }

    /// The number of live cells.
    pub fn len(&self) -> (n: usize)
        ensures
            n == self@.len(),
            n == self.ordered().len(),
    {
        proof {
            use_type_invariant(&*self);
            lemma_strictly_ordered_no_duplicates(self.ordered());
            self.ordered().unique_seq_to_set();
        }
        self.entities.len()
    }

    /// Whether the cell at `(line, column)` is live.
    fn contains_pos(&self, line: i32, column: i32) -> (present: bool)
        ensures
            present == self@.contains((line as int, column as int)),
    {
        let ghost p = (line as int, column as int);
        let mut i: usize = 0;
        while i < self.entities.len()
            invariant
                i <= self.entities@.len(),
                forall|k: int| 0 <= k < i ==> #[trigger] self.ordered()[k] != p,
            decreases self.entities@.len() - i,
        {
            let e = self.entities[i];
            if e.line == line && e.column == column {
                proof {
                    assert(self.ordered()[i as int] == p);
                    assert(self.ordered().contains(p));
                }
                return true;
            }
            i += 1;
        }
        proof {
            assert(!self.ordered().contains(p));
        }
        false
    }

    /// The index of the first entity not below `entity` in the canonical
    /// order; the length when every entity is below it.
    fn insertion_point(&self, entity: Entity) -> (i: usize)
        ensures
            i <= self.entities@.len(),
            forall|k: int| 0 <= k < i ==> pos_lt(#[trigger] self.ordered()[k], entity@),
            i < self.entities@.len() ==> !pos_lt(self.ordered()[i as int], entity@),
    {
        let mut i: usize = 0;
        while i < self.entities.len()
            invariant
                i <= self.entities@.len(),
                forall|k: int| 0 <= k < i ==> pos_lt(#[trigger] self.ordered()[k], entity@),
            decreases self.entities@.len() - i,
        {
            let e = self.entities[i];
            if e.line > entity.line || (e.line == entity.line && e.column >= entity.column) {
                proof {
                    assert(!pos_lt(self.ordered()[i as int], entity@));
                }
                return i;
            }
            i += 1;
        }
        i
    }

    /// Adds a live cell; a no-op when the cell is already present.
    #[verifier::rlimit(30)]
    pub fn insert(&mut self, entity: Entity)
        ensures
            final(self)@ == old(self)@.insert(entity@),
    {
        proof {
            use_type_invariant(&*self);
        }
        let ghost s0 = self.ordered();
        let i = self.insertion_point(entity);
        if i < self.entities.len() {
            let e = self.entities[i];
            if e.line == entity.line && e.column == entity.column {
                proof {
                    assert(s0[i as int] == entity@);
                    assert(s0.contains(entity@));
                    assert(self@.insert(entity@) =~= self@);
                }
                return;
            }
            proof {
                assert(pos_lt(entity@, s0[i as int]));
            }
        }
        let mut es: Vec<Entity> = Vec::new();
        std::mem::swap(&mut es, &mut self.entities);
        let ghost es0 = es@;
        es.insert(i, entity);
        proof {
            es0.insert_ensures(i as int, entity);
            let s1 = es@.map_values(|e: Entity| e@);
            assert(s1.len() == s0.len() + 1);
            assert(forall|k: int| 0 <= k < i ==> s1[k] == s0[k]);
            assert(s1[i as int] == entity@);
            assert(forall|k: int| i < k < s1.len() ==> s1[k] == s0[k - 1]);
            // every earlier entry is below the new one, every later one above it
            assert forall|k: int| i < k < s1.len() implies pos_lt(entity@, s1[k]) by {
                assert(!pos_lt(s0[i as int], entity@));
                if k > i + 1 {
                    assert(pos_lt(s0[i as int], s0[k - 1]));
                }
                assert(s0[k - 1] != entity@);
            }
            // the new sequence is still strictly ascending
            assert forall|m: int, n: int| 0 <= m < n < s1.len() implies pos_lt(s1[m], s1[n]) by {
                if n < i {
                } else if m > i {
                    assert(s1[m] == s0[m - 1] && s1[n] == s0[n - 1]);
                } else if n == i {
                    assert(pos_lt(s1[m], entity@));
                } else if m == i {
                    assert(pos_lt(entity@, s1[n]));
                } else {
                    // m < i < n, both sides relate through the new entry
                    assert(pos_lt(s1[m], entity@));
                    assert(pos_lt(entity@, s1[n]));
                }
            }
            // the set gains exactly the new position
            assert forall|q: (int, int)| #[trigger] s1.to_set().contains(q) implies s0.to_set().insert(
                entity@,
            ).contains(q) by {
                let k = choose|k: int| 0 <= k < s1.len() && s1[k] == q;
                if k < i {
                    assert(s0[k] == q);
                } else if k > i {
                    assert(s0[k - 1] == q);
                }
            }
            assert forall|q: (int, int)| #[trigger]
                s0.to_set().insert(entity@).contains(q) implies s1.to_set().contains(q) by {
                if q == entity@ {
                    assert(s1[i as int] == q);
                } else {
                    let k = choose|k: int| 0 <= k < s0.len() && s0[k] == q;
                    if k < i {
                        assert(s1[k] == q);
                    } else {
                        assert(s1[k + 1] == q);
                    }
                }
            }
            assert(strictly_ordered(s1));
            assert(s1.to_set() =~= s0.to_set().insert(entity@));
        }
        self.entities = es;
        proof {
            assert(self.ordered() == es@.map_values(|e: Entity| e@));
            assert(self@ == old(self)@.insert(entity@));
        }
    }

    /// Removes the cell at `entity`'s position if it is live; reports
    /// whether a removal happened, so a caller can tell whether anything
    /// changed.
    pub fn remove(&mut self, entity: Entity) -> (removed: bool)
        ensures
            removed == old(self)@.contains(entity@),
            final(self)@ == old(self)@.remove(entity@),
    {
        proof {
            use_type_invariant(&*self);
            lemma_strictly_ordered_no_duplicates(self.ordered());
        }
        let ghost s0 = self.ordered();
        let mut i: usize = 0;
        while i < self.entities.len()
            invariant
                i <= s0.len(),
                self.entities@ == old(self).entities@,
                forall|k: int| 0 <= k < i ==> #[trigger] s0[k] != entity@,
            decreases s0.len() - i,
        {
            let e = self.entities[i];
            proof {
                assert(s0[i as int] == e@);
            }
            if e.line == entity.line && e.column == entity.column {
                proof {
                    assert(s0[i as int] == entity@);
                    assert(s0.contains(entity@));
                }
                let mut es: Vec<Entity> = Vec::new();
                std::mem::swap(&mut es, &mut self.entities);
                let ghost es0 = es@;
                es.remove(i);
                proof {
                    es0.remove_ensures(i as int);
                    let s1 = es@.map_values(|e: Entity| e@);
                    assert(s1.len() == s0.len() - 1);
                    assert(forall|k: int| 0 <= k < i ==> s1[k] == s0[k]);
                    assert(forall|k: int| i <= k < s1.len() ==> s1[k] == s0[k + 1]);
                    assert forall|m: int, n: int| 0 <= m < n < s1.len() implies pos_lt(
                        s1[m],
                        s1[n],
                    ) by {
                        if m < i && n >= i {
                            assert(s1[m] == s0[m] && s1[n] == s0[n + 1]);
                        }
                    }
                    assert(strictly_ordered(s1));
                    // exactly the one occurrence disappears
                    assert forall|q: (int, int)| #[trigger] s1.to_set().contains(q) implies s0.to_set().remove(
                        entity@,
                    ).contains(q) by {
                        let k = choose|k: int| 0 <= k < s1.len() && s1[k] == q;
                        if k < i {
                            assert(s0[k] == q);
                        } else {
                            assert(s0[k + 1] == q);
                        }
                    }
                    assert forall|q: (int, int)| #[trigger]
                        s0.to_set().remove(entity@).contains(q) implies s1.to_set().contains(
                        q,
                    ) by {
                        let k = choose|k: int| 0 <= k < s0.len() && s0[k] == q;
                        if k < i {
                            assert(s1[k] == q);
                        } else {
                            assert(k != i);
                            assert(s1[k - 1] == q);
                        }
                    }
                    assert(s1.to_set() =~= s0.to_set().remove(entity@));
                }
                self.entities = es;
                return true;
            }
            i += 1;
        }
        proof {
            assert(!s0.contains(entity@));
            assert(self@.remove(entity@) =~= self@);
        }
        false
    }

    /// Removes every live cell.
    pub fn clear(&mut self)
        ensures
            final(self)@ == Set::<(int, int)>::empty(),
    {
        self.entities = Vec::new();
        proof {
            assert(self.ordered() =~= Seq::<(int, int)>::empty());
            assert(self@ =~= Set::<(int, int)>::empty());
        }
    }

    /// Read-only access to the live cells for iteration, in ascending
    /// `(line, column)` order.
    pub fn entities(&self) -> (r: &Vec<Entity>)
        ensures
            r@.map_values(|e: Entity| e@) == self.ordered(),
            strictly_ordered(self.ordered()),
            self.ordered().no_duplicates(),
            self.ordered().to_set() == self@,
            self.ordered().len() == self@.len(),
            forall|k: int|
                0 <= k < self.ordered().len() ==> self@.contains(#[trigger] self.ordered()[k]),
    {
        proof {
            use_type_invariant(&*self);
            lemma_strictly_ordered_no_duplicates(self.ordered());
            self.ordered().unique_seq_to_set();
        }
        &self.entities
    }

    /// Counts the live cells among the eight Moore neighbors of
    /// `(line, column)`; the probed positions must not leave the
    /// coordinate range.
    pub fn number_of_neighbors(&self, line: i32, column: i32) -> (n: usize)
        requires
            i32::MIN < line < i32::MAX,
            i32::MIN < column < i32::MAX,
        ensures
            n == neighbor_count(self@, line as int, column as int),
    {
        let mut n: usize = 0;
        if self.contains_pos(line - 1, column - 1) {
            n += 1;  // top left
        }
        if self.contains_pos(line - 1, column) {
            n += 1;  // top
        }
        if self.contains_pos(line - 1, column + 1) {
            n += 1;  // top right
        }
        if self.contains_pos(line + 1, column - 1) {
            n += 1;  // bottom left
        }
        if self.contains_pos(line + 1, column) {
            n += 1;  // bottom
        }
        if self.contains_pos(line + 1, column + 1) {
            n += 1;  // bottom right
        }
        if self.contains_pos(line, column - 1) {
            n += 1;  // left
        }
        if self.contains_pos(line, column + 1) {
            n += 1;  // right
        }
        n
    }
}

/// The extremes of the live cells' coordinates: the minimal rectangle
/// containing the current generation, by row and column.
#[derive(Clone, Copy, Debug, PartialEq, Eq, Structural)]
pub struct Boundaries {
    pub line_max: i32,
    pub line_min: i32,
    pub column_max: i32,
    pub column_min: i32,
}

impl Universe {
    /// The bounding box of the live set.  It is undefined on an empty
    /// universe, so an empty universe is ruled out.
    pub fn boundaries(&self) -> (b: Boundaries)
        requires
            self@.len() != 0,
        ensures
            forall|p: (int, int)| #[trigger]
                self@.contains(p) ==> b.line_min <= p.0 <= b.line_max && b.column_min <= p.1
                    <= b.column_max,
            exists|p: (int, int)| #[trigger] self@.contains(p) && p.0 == b.line_min,
            exists|p: (int, int)| #[trigger] self@.contains(p) && p.0 == b.line_max,
            exists|p: (int, int)| #[trigger] self@.contains(p) && p.1 == b.column_min,
            exists|p: (int, int)| #[trigger] self@.contains(p) && p.1 == b.column_max,
    {
        proof {
            use_type_invariant(&*self);
            lemma_strictly_ordered_no_duplicates(self.ordered());
            self.ordered().unique_seq_to_set();
        }
        let ghost s0 = self.ordered();
        let e0 = self.entities[0];
        proof {
            assert(s0[0] == e0@);
        }
        let mut line_min = e0.line;
        let mut line_max = e0.line;
        let mut column_min = e0.column;
        let mut column_max = e0.column;
        let mut i: usize = 1;
        while i < self.entities.len()
            invariant
                1 <= i <= s0.len(),
                forall|k: int|
                    0 <= k < i ==> line_min <= (#[trigger] s0[k]).0 <= line_max && column_min
                        <= s0[k].1 <= column_max,
                exists|k: int| 0 <= k < i && (#[trigger] s0[k]).0 == line_min,
                exists|k: int| 0 <= k < i && (#[trigger] s0[k]).0 == line_max,
                exists|k: int| 0 <= k < i && (#[trigger] s0[k]).1 == column_min,
                exists|k: int| 0 <= k < i && (#[trigger] s0[k]).1 == column_max,
            decreases s0.len() - i,
        {
            let e = self.entities[i];
            proof {
                assert(s0[i as int] == e@);
            }
            if e.line < line_min {
                line_min = e.line;
            }
            if e.line > line_max {
                line_max = e.line;
            }
            if e.column < column_min {
                column_min = e.column;
            }
            if e.column > column_max {
                column_max = e.column;
            }
            i += 1;
        }
        proof {
            assert forall|p: (int, int)| #[trigger]
                self@.contains(p) implies line_min <= p.0 <= line_max && column_min <= p.1
                <= column_max by {
                let k = choose|k: int| 0 <= k < s0.len() && s0[k] == p;
                assert(s0[k] == p);
            }
            let k1 = choose|k: int| 0 <= k < s0.len() && (#[trigger] s0[k]).0 == line_min;
            assert(self@.contains(s0[k1]));
            let k2 = choose|k: int| 0 <= k < s0.len() && (#[trigger] s0[k]).0 == line_max;
            assert(self@.contains(s0[k2]));
            let k3 = choose|k: int| 0 <= k < s0.len() && (#[trigger] s0[k]).1 == column_min;
            assert(self@.contains(s0[k3]));
            let k4 = choose|k: int| 0 <= k < s0.len() && (#[trigger] s0[k]).1 == column_max;
            assert(self@.contains(s0[k4]));
        }
        Boundaries { line_max, line_min, column_max, column_min }
    }
}

/// The sequence of grid positions of a sequence of entities.
spec fn positions(es: Seq<Entity>) -> Seq<(int, int)> {
    es.map_values(|e: Entity| e@)
}

/// Positions at least two cells away from the ends of the 32-bit
/// coordinate range.  `tick` scans one cell beyond the bounding box and
/// probes one cell further for neighbors, so live cells must keep this
/// margin for every probed position to stay representable.
pub open spec fn within_margin(p: (int, int)) -> bool {
    i32::MIN + 2 <= p.0 <= i32::MAX - 2 && i32::MIN + 2 <= p.1 <= i32::MAX - 2
}

/// The positions already visited by a row-major scan that starts at
/// `(lo_r, lo_c)`, runs each row up to column `hi_c`, and currently
/// stands at `(line, column)`.
spec fn scanned(q: (int, int), lo_r: int, lo_c: int, hi_c: int, line: int, column: int) -> bool {
    lo_r <= q.0 && lo_c <= q.1 <= hi_c && (q.0 < line || (q.0 == line && q.1 < column))
}

impl Universe {
    /// One simulation step: replaces the live set, atomically and as a
    /// whole, with the next generation under the standard rule.  An empty
    /// universe stays empty without scanning anything.
    pub fn tick(&mut self)
        requires
            forall|p: (int, int)| #[trigger] old(self)@.contains(p) ==> within_margin(p),
        ensures
            final(self)@ == next_gen(old(self)@),
    {
        proof {
            use_type_invariant(&*self);
            lemma_strictly_ordered_no_duplicates(self.ordered());
            self.ordered().unique_seq_to_set();
        }
        let ghost s = self@;
        if self.entities.len() == 0 {
            proof {
                assert(s =~= Set::<(int, int)>::empty());
                lemma_next_gen_empty();
            }
            return;
        }
        let b = self.boundaries();
        proof {
            let p1 = choose|p: (int, int)| #[trigger] self@.contains(p) && p.0 == b.line_min;
            let p2 = choose|p: (int, int)| #[trigger] self@.contains(p) && p.0 == b.line_max;
            let p3 = choose|p: (int, int)| #[trigger] self@.contains(p) && p.1 == b.column_min;
            let p4 = choose|p: (int, int)| #[trigger] self@.contains(p) && p.1 == b.column_max;
            assert(within_margin(p1) && within_margin(p2) && within_margin(p3) && within_margin(
                p4,
            ));
        }
        let lo_r = b.line_min - 1;
        let hi_r = b.line_max + 1;
        let lo_c = b.column_min - 1;
        let hi_c = b.column_max + 1;
        let mut next: Vec<Entity> = Vec::new();
        let mut line = lo_r;
        while line <= hi_r
            invariant
                lo_r <= line <= hi_r + 1,
                strictly_ordered(positions(next@)),
                forall|q: (int, int)|
                    #![trigger positions(next@).contains(q)]
                    #![trigger alive_next(s, q.0, q.1)]
                    positions(next@).contains(q) <==> (alive_next(s, q.0, q.1)
                        && scanned(q, lo_r as int, lo_c as int, hi_c as int, line as int, lo_c as int)),
            decreases hi_r + 1 - line,
        {
            let mut column = lo_c;
            while column <= hi_c
                invariant
                    lo_r <= line <= hi_r,
                    lo_c <= column <= hi_c + 1,
                    strictly_ordered(positions(next@)),
                    forall|q: (int, int)|
                        #![trigger positions(next@).contains(q)]
                        #![trigger alive_next(s, q.0, q.1)]
                        positions(next@).contains(q) <==> (alive_next(s, q.0, q.1)
                            && scanned(q, lo_r as int, lo_c as int, hi_c as int, line as int, column as int)),
                decreases hi_c + 1 - column,
            {
                let ghost m0 = positions(next@);
                let ghost p = (line as int, column as int);
                let neighbors = self.number_of_neighbors(line, column);
                let exist = self.contains_pos(line, column);
                let lives = if !exist {
                    neighbors == 3
                } else {
                    neighbors == 3 || neighbors == 2
                };
                proof {
                    assert(lives == alive_next(s, p.0, p.1));
                }
                if lives {
                    proof {
                        assert(!m0.contains(p));
                        assert forall|k: int| 0 <= k < m0.len() implies pos_lt(m0[k], p) by {
                            assert(m0.contains(m0[k]));
                        }
                    }
                    next.push(Entity { line, column });
                    proof {
                        let m1 = positions(next@);
                        assert(m1 =~= m0.push(p));
                        assert(m1[m1.len() - 1] == p);
                        assert(strictly_ordered(m1));
                        assert forall|q: (int, int)|
                            #![trigger m1.contains(q)]
                            #![trigger alive_next(s, q.0, q.1)]
                            m1.contains(q) <==> (alive_next(s, q.0, q.1) && scanned(
                            q,
                            lo_r as int,
                            lo_c as int,
                            hi_c as int,
                            line as int,
                            column as int + 1,
                        )) by {
                            if m1.contains(q) {
                                let k = choose|k: int| 0 <= k < m1.len() && m1[k] == q;
                                if k < m0.len() {
                                    assert(m0[k] == q);
                                    assert(m0.contains(q));
                                }
                            }
                            if alive_next(s, q.0, q.1) && scanned(
                                q,
                                lo_r as int,
                                lo_c as int,
                                hi_c as int,
                                line as int,
                                column as int + 1,
                            ) {
                                if q != p {
                                    assert(m0.contains(q));
                                    let k = choose|k: int| 0 <= k < m0.len() && m0[k] == q;
                                    assert(m1[k] == q);
                                }
                            }
                        }
                    }
                } else {
                    proof {
                        let m1 = positions(next@);
                        assert forall|q: (int, int)|
                            #![trigger m1.contains(q)]
                            #![trigger alive_next(s, q.0, q.1)]
                            m1.contains(q) <==> (alive_next(s, q.0, q.1) && scanned(
                            q,
                            lo_r as int,
                            lo_c as int,
                            hi_c as int,
                            line as int,
                            column as int + 1,
                        )) by {
                            assert(!alive_next(s, p.0, p.1));
                        }
                    }
                }
                column += 1;
            }
            line += 1;
        }
        proof {
            let m = positions(next@);
            assert forall|q: (int, int)| #[trigger]
                m.to_set().contains(q) <==> next_gen(s).contains(q) by {
                if alive_next(s, q.0, q.1) {
                    lemma_alive_next_within(
                        s,
                        b.line_min as int,
                        b.line_max as int,
                        b.column_min as int,
                        b.column_max as int,
                        q.0,
                        q.1,
                    );
                    assert(scanned(
                        q,
                        lo_r as int,
                        lo_c as int,
                        hi_c as int,
                        hi_r as int + 1,
                        lo_c as int,
                    ));
                }
            }
            assert(m.to_set() =~= next_gen(s));
        }
        self.entities = next;
    }
}

/// The whitespace the parser strips from both ends of a pattern: the
/// Unicode white-space characters, the set `str::trim` removes.
pub open spec fn is_space_char(c: char) -> bool {
    c == '\u{0009}' || c == '\u{000A}' || c == '\u{000B}' || c == '\u{000C}' || c == '\u{000D}'
        || c == '\u{0020}' || c == '\u{0085}' || c == '\u{00A0}' || c == '\u{1680}'
        || c == '\u{2000}' || c == '\u{2001}' || c == '\u{2002}' || c == '\u{2003}'
        || c == '\u{2004}' || c == '\u{2005}' || c == '\u{2006}' || c == '\u{2007}'
        || c == '\u{2008}' || c == '\u{2009}' || c == '\u{200A}' || c == '\u{2028}'
        || c == '\u{2029}' || c == '\u{202F}' || c == '\u{205F}' || c == '\u{3000}'
}

/// `s` without its leading whitespace.
pub open spec fn trim_start_spec(s: Seq<char>) -> Seq<char>
    decreases s.len(),
{
    if s.len() > 0 && is_space_char(s[0]) {
        trim_start_spec(s.drop_first())
    } else {
        s
    }
}

/// `s` without its trailing whitespace.
pub open spec fn trim_end_spec(s: Seq<char>) -> Seq<char>
    decreases s.len(),
{
    if s.len() > 0 && is_space_char(s.last()) {
        trim_end_spec(s.drop_last())
    } else {
        s
    }
}

/// `s` without leading and trailing whitespace.
pub open spec fn trim_spec(s: Seq<char>) -> Seq<char> {
    trim_end_spec(trim_start_spec(s))
}

/// The line index of position `i` in `s`: the number of newlines before it.
pub open spec fn row_of(s: Seq<char>, i: int) -> int
    decreases i,
{
    if i <= 0 {
        0
    } else if s[i - 1] == '\n' {
        row_of(s, i - 1) + 1
    } else {
        row_of(s, i - 1)
    }
}

/// The column index of position `i` in `s`: its distance to the nearest
/// newline before it, or to the start of the text.
pub open spec fn col_of(s: Seq<char>, i: int) -> int
    decreases i,
{
    if i <= 0 {
        0
    } else if s[i - 1] == '\n' {
        0
    } else {
        col_of(s, i - 1) + 1
    }
}

/// The cells a block of text describes: `(l, c)` is live exactly when the
/// character at line `l`, column `c` of the block is `'1'`.
pub open spec fn grid_set(s: Seq<char>) -> Set<(int, int)> {
    Set::new(
        |p: (int, int)|
            exists|i: int|
                0 <= i < s.len() && s[i] == '1' && p.0 == row_of(s, i) && p.1 == col_of(s, i),
    )
}

/// The live set that a pattern text denotes: its grid, read after
/// trimming surrounding whitespace.
pub open spec fn pattern_set(text: Seq<char>) -> Set<(int, int)> {
    grid_set(trim_spec(text))
}

/// When the first `k` characters are whitespace and the next one is not,
/// trimming from the start is the same as cutting at `k`.
proof fn lemma_trim_start_prefix(s: Seq<char>, k: int)
    requires
        0 <= k <= s.len(),
        forall|j: int| 0 <= j < k ==> is_space_char(s[j]),
        k < s.len() ==> !is_space_char(s[k]),
    ensures
        trim_start_spec(s) == s.subrange(k, s.len() as int),
    decreases k,
{
    if k == 0 {
        assert(s.subrange(0, s.len() as int) =~= s);
    } else {
        let s1 = s.drop_first();
        assert(s1 =~= s.subrange(1, s.len() as int));
        lemma_trim_start_prefix(s1, k - 1);
        assert(s1.subrange(k - 1, s1.len() as int) =~= s.subrange(k, s.len() as int));
    }
}

/// When every character from `e` on is whitespace and the one before `e`
/// is not, trimming from the end is the same as cutting at `e`.
proof fn lemma_trim_end_suffix(s: Seq<char>, e: int)
    requires
        0 <= e <= s.len(),
        forall|j: int| e <= j < s.len() ==> is_space_char(s[j]),
        e > 0 ==> !is_space_char(s[e - 1]),
    ensures
        trim_end_spec(s) == s.subrange(0, e),
    decreases s.len(),
{
    if e == s.len() {
        if s.len() > 0 && is_space_char(s.last()) {
            assert(!is_space_char(s[e - 1]));
        }
        assert(s.subrange(0, s.len() as int) =~= s);
    } else {
        let s1 = s.drop_last();
        lemma_trim_end_suffix(s1, e);
        assert(s1.subrange(0, e) =~= s.subrange(0, e));
    }
}

/// Whether `c` counts as whitespace for trimming.
fn is_space(c: char) -> (r: bool)
    ensures
        r == is_space_char(c),
{
    c == '\u{0009}' || c == '\u{000A}' || c == '\u{000B}' || c == '\u{000C}' || c == '\u{000D}'
        || c == '\u{0020}' || c == '\u{0085}' || c == '\u{00A0}' || c == '\u{1680}'
        || c == '\u{2000}' || c == '\u{2001}' || c == '\u{2002}' || c == '\u{2003}'
        || c == '\u{2004}' || c == '\u{2005}' || c == '\u{2006}' || c == '\u{2007}'
        || c == '\u{2008}' || c == '\u{2009}' || c == '\u{200A}' || c == '\u{2028}'
        || c == '\u{2029}' || c == '\u{202F}' || c == '\u{205F}' || c == '\u{3000}'
}

impl Universe {
    /// Parses a pattern: after surrounding whitespace is trimmed, the
    /// character `'1'` at line `l`, column `c` of the text block becomes
    /// the live cell `(l, c)`; any other character is dead.  Rows may be
    /// ragged; each row is indexed independently.  Empty text gives an
    /// empty universe.
    pub fn new(matrix: &str) -> (u: Universe)
        requires
            matrix@.len() <= i32::MAX,
        ensures
            u@ == pattern_set(matrix@),
    {
        let n = matrix.unicode_len();
        let mut start: usize = 0;
        while start < n && is_space(matrix.get_char(start))
            invariant
                start <= n,
                forall|j: int| 0 <= j < start ==> is_space_char(matrix@[j]),
            decreases n - start,
        {
            start += 1;
        }
        let mut end: usize = n;
        while end > start && is_space(matrix.get_char(end - 1))
            invariant
                start <= end <= n,
                forall|j: int| end <= j < n ==> is_space_char(matrix@[j]),
            decreases end,
        {
            end -= 1;
        }
        let ghost t = matrix@.subrange(start as int, end as int);
        proof {
            lemma_trim_start_prefix(matrix@, start as int);
            let u0 = matrix@.subrange(start as int, matrix@.len() as int);
            assert forall|j: int| end - start <= j < u0.len() implies is_space_char(u0[j]) by {
                assert(u0[j] == matrix@[start + j]);
            }
            lemma_trim_end_suffix(u0, end as int - start as int);
            assert(u0.subrange(0, end as int - start as int) =~= t);
            assert(trim_spec(matrix@) == t);
        }
        let mut out: Vec<Entity> = Vec::new();
        let mut row: i32 = 0;
        let mut col: i32 = 0;
        let mut i = start;
        while i < end
            invariant
                start <= i <= end <= n,
                n == matrix@.len() <= i32::MAX,
                t == matrix@.subrange(start as int, end as int),
                0 <= row <= i - start,
                0 <= col <= i - start,
                row as int == row_of(t, i - start),
                col as int == col_of(t, i - start),
                strictly_ordered(positions(out@)),
                forall|k: int|
                    0 <= k < out@.len() ==> pos_lt(
                        #[trigger] positions(out@)[k],
                        (row as int, col as int),
                    ),
                forall|q: (int, int)|
                    #![trigger positions(out@).contains(q)]
                    positions(out@).contains(q) <==> (exists|j: int|
                        0 <= j < i - start && t[j] == '1' && q.0 == row_of(t, j) && q.1 == col_of(
                            t,
                            j,
                        )),
            decreases end - i,
        {
            let ghost m0 = positions(out@);
            let ghost j = i - start;
            let c = matrix.get_char(i);
            proof {
                assert(t[j] == matrix@[i as int]);
            }
            if c == '\n' {
                row = row + 1;
                col = 0;
            } else {
                if c == '1' {
                    let ghost p = (row as int, col as int);
                    out.push(Entity { line: row, column: col });
                    proof {
                        let m1 = positions(out@);
                        assert(m1 =~= m0.push(p));
                        assert(m1[m1.len() - 1] == p);
                        assert(strictly_ordered(m1));
                        assert forall|q: (int, int)|
                            #![trigger m1.contains(q)]
                            m1.contains(q) <==> (exists|j2: int|
                                0 <= j2 < j + 1 && t[j2] == '1' && q.0 == row_of(t, j2) && q.1
                                    == col_of(t, j2)) by {
                            if m1.contains(q) {
                                let k = choose|k: int| 0 <= k < m1.len() && m1[k] == q;
                                if k < m0.len() {
                                    assert(m0[k] == q);
                                    assert(m0.contains(q));
                                } else {
                                    assert(q == p);
                                    assert(t[j] == '1' && q.0 == row_of(t, j) && q.1 == col_of(
                                        t,
                                        j,
                                    ));
                                }
                            }
                            if exists|j2: int|
                                0 <= j2 < j + 1 && t[j2] == '1' && q.0 == row_of(t, j2) && q.1
                                    == col_of(t, j2) {
                                let j2 = choose|j2: int|
                                    0 <= j2 < j + 1 && t[j2] == '1' && q.0 == row_of(t, j2) && q.1
                                        == col_of(t, j2);
                                if j2 < j {
                                    assert(m0.contains(q));
                                    let k = choose|k: int| 0 <= k < m0.len() && m0[k] == q;
                                    assert(m1[k] == q);
                                } else {
                                    assert(q.0 == p.0 && q.1 == p.1);
                                    assert(m1[m1.len() - 1] == q);
                                }
                            }
                        }
                    }
                }
                col = col + 1;
            }
            i += 1;
        }
        let u = Universe { entities: out };
        proof {
            assert forall|q: (int, int)| #[trigger]
                u@.contains(q) <==> pattern_set(matrix@).contains(q) by {
                assert(u@.contains(q) == positions(out@).contains(q));
            }
            assert(u@ =~= pattern_set(matrix@));
        }
        u
    }
}

/// Whether a cell at position `p`, drawn at `CELL_SIZE` pixels per cell,
/// falls within a viewport of size `d`: its pixel position must lie in
/// `[0, width]` by `[0, height]`.
pub open spec fn visible_at(p: (int, int), d: Dimensions) -> bool {
    0 <= p.0 && 0 <= p.1 && p.0 * (CELL_SIZE as int) <= d.height && p.1 * (CELL_SIZE as int)
        <= d.width
}

/// The visibility test for one viewport, as a predicate on positions.
pub open spec fn visible_pred(d: Dimensions) -> spec_fn((int, int)) -> bool {
    |p: (int, int)| visible_at(p, d)
}

impl Entity {
    /// Whether this cell's pixel-mapped position falls within the given
    /// viewport.
    pub fn is_visible(&self, dimensions: &Dimensions) -> (r: bool)
        ensures
            r == visible_at(self@, *dimensions),
    {
        if self.column < 0 || self.line < 0 {
            return false;
        }
        let outside_width = (self.column as i64) * (CELL_SIZE as i64) > (dimensions.width as i64);
        let outside_height = (self.line as i64) * (CELL_SIZE as i64) > (dimensions.height as i64);
        !(outside_height || outside_width)
    }
}

impl PartialEq for Universe {
    /// Universes are equal exactly when their live-cell sets are equal;
    /// with the canonical order, that is the same as listing the same
    /// cells in the same order.
    fn eq(&self, other: &Universe) -> (r: bool) {
        proof {
            use_type_invariant(&*self);
            use_type_invariant(&*other);
        }
        if self.entities.len() != other.entities.len() {
            proof {
                if self@ == other@ {
                    lemma_strictly_ordered_canonical(self.ordered(), other.ordered());
                }
            }
            return false;
        }
        let mut i: usize = 0;
        while i < self.entities.len()
            invariant
                i <= self.entities@.len(),
                self.entities@.len() == other.entities@.len(),
                forall|k: int| 0 <= k < i ==> #[trigger] self.ordered()[k] == other.ordered()[k],
            decreases self.entities@.len() - i,
        {
            let a = self.entities[i];
            let b = other.entities[i];
            if a.line != b.line || a.column != b.column {
                proof {
                    assert(self.ordered()[i as int] != other.ordered()[i as int]);
                    if self@ == other@ {
                        lemma_strictly_ordered_canonical(self.ordered(), other.ordered());
                    }
                }
                return false;
            }
            proof {
                assert(self.ordered()[i as int] == other.ordered()[i as int]);
            }
            i += 1;
        }
        proof {
            assert(self.ordered() =~= other.ordered());
        }
        true
    }
}

impl vstd::std_specs::cmp::PartialEqSpecImpl for Universe {
    open spec fn obeys_eq_spec() -> bool {
        true
    }

    open spec fn eq_spec(&self, other: &Universe) -> bool {
        self@ == other@
    }
}

/// Determinism of the engine: universes over equal live sets list their
/// cells in the same order, and their sets agree after any number of
/// steps of the rule.  Since `new` and `tick` fix their results
/// completely, two universes built from the same pattern text and ticked
/// the same number of times are equal.
pub proof fn lemma_deterministic(a: Universe, b: Universe, n: nat)
    requires
        strictly_ordered(a.ordered()),
        strictly_ordered(b.ordered()),
        a@ == b@,
    ensures
        a.ordered() == b.ordered(),
        nth_gen(a@, n) == nth_gen(b@, n),
{
    lemma_strictly_ordered_canonical(a.ordered(), b.ordered());
}


} // verus!
