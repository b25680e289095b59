//! The mathematical model of the simulation: a generation is a set of live
//! cell positions, a position being a `(row, column)` pair of unbounded
//! integers.  The transition rule, the lexicographic order on positions and
//! the facts the engine implementations rely on are all stated here, so the
//! fixed-width engines share one specification.

use vstd::prelude::*;

verus! {

/// 1 when the position `(r, c)` is live in `s`, 0 otherwise.
pub open spec fn occupied(s: Set<(int, int)>, r: int, c: int) -> int {
    if s.contains((r, c)) {
        1
    } else {
        0
    }
}

/// The number of live cells among the eight Moore neighbors of `(r, c)`.
pub open spec fn neighbor_count(s: Set<(int, int)>, r: int, c: int) -> int {
    occupied(s, r - 1, c - 1) + occupied(s, r - 1, c) + occupied(s, r - 1, c + 1)
        + occupied(s, r, c - 1) + occupied(s, r, c + 1) + occupied(s, r + 1, c - 1)
        + occupied(s, r + 1, c) + occupied(s, r + 1, c + 1)
}

/// The standard rule: a live cell survives with two or three live neighbors,
/// a dead cell is born with exactly three.
pub open spec fn alive_next(s: Set<(int, int)>, r: int, c: int) -> bool {
    if s.contains((r, c)) {
        neighbor_count(s, r, c) == 2 || neighbor_count(s, r, c) == 3
    } else {
        neighbor_count(s, r, c) == 3
    }
}

/// The next generation of `s`, over the whole unbounded grid.
pub open spec fn next_gen(s: Set<(int, int)>) -> Set<(int, int)> {
    Set::new(|p: (int, int)| alive_next(s, p.0, p.1))
}

/// Lexicographic order on positions: by row, then by column.
pub open spec fn pos_lt(a: (int, int), b: (int, int)) -> bool {
    a.0 < b.0 || (a.0 == b.0 && a.1 < b.1)
}

/// A strictly ascending sequence of positions; such a sequence lists each
/// position at most once.
pub open spec fn strictly_ordered(s: Seq<(int, int)>) -> bool {
    forall|i: int, j: int| 0 <= i < j < s.len() ==> pos_lt(s[i], s[j])
}

/// An empty generation stays empty: nothing is live, so nothing has three
/// live neighbors.
pub proof fn lemma_next_gen_empty()
    ensures
        next_gen(Set::<(int, int)>::empty()) == Set::<(int, int)>::empty(),
{
    assert(next_gen(Set::<(int, int)>::empty()) =~= Set::<(int, int)>::empty());
}

/// A single live cell has no live neighbors, so it dies and nothing is
/// born: the next generation of a singleton is empty.
pub proof fn lemma_lone_cell_dies(p: (int, int))
    ensures
        next_gen(set![p]) == Set::<(int, int)>::empty(),
{
    let s = set![p];
    assert forall|q: (int, int)| !(#[trigger] next_gen(s).contains(q)) by {
        assert(neighbor_count(s, q.0, q.1) <= 1);
    }
    assert(next_gen(s) =~= Set::<(int, int)>::empty());
}

/// Every cell of the next generation lies within the bounding box of the
/// current one, padded by one cell in each direction: a survivor is in the
/// box itself, and a newborn touches one of its three live neighbors.
pub proof fn lemma_alive_next_within(
    s: Set<(int, int)>,
    r_min: int,
    r_max: int,
    c_min: int,
    c_max: int,
    r: int,
    c: int,
)
    requires
        forall|p: (int, int)| #[trigger]
            s.contains(p) ==> r_min <= p.0 <= r_max && c_min <= p.1 <= c_max,
        alive_next(s, r, c),
    ensures
        r_min - 1 <= r <= r_max + 1,
        c_min - 1 <= c <= c_max + 1,
{
    if s.contains((r, c)) {
    } else {
        assert(neighbor_count(s, r, c) == 3);
        assert(s.contains((r - 1, c - 1)) || s.contains((r - 1, c)) || s.contains((r - 1, c + 1))
            || s.contains((r, c - 1)) || s.contains((r, c + 1)) || s.contains((r + 1, c - 1))
            || s.contains((r + 1, c)) || s.contains((r + 1, c + 1)));
    }
}

/// A strictly ascending sequence has no duplicate positions.
pub proof fn lemma_strictly_ordered_no_duplicates(s: Seq<(int, int)>)
    requires
        strictly_ordered(s),
    ensures
        s.no_duplicates(),
{
    assert forall|i: int, j: int| 0 <= i < s.len() && 0 <= j < s.len() && i != j implies s[i]
        != s[j] by {
        if i < j {
            assert(pos_lt(s[i], s[j]));
        } else {
            assert(pos_lt(s[j], s[i]));
        }
    }
}

/// Two strictly ascending sequences that list the same set of positions are
/// the same sequence: the order leaves no representation choice.
pub proof fn lemma_strictly_ordered_canonical(a: Seq<(int, int)>, b: Seq<(int, int)>)
    requires
        strictly_ordered(a),
        strictly_ordered(b),
        a.to_set() == b.to_set(),
    ensures
        a == b,
    decreases a.len(),
{
    if a.len() == 0 {
        if b.len() > 0 {
            assert(a.to_set().contains(b[0]));
        }
        assert(a =~= b);
    } else {
        assert(b.to_set().contains(a[0]));
        assert(a.to_set().contains(b[0]));
        let i = choose|i: int| 0 <= i < b.len() && b[i] == a[0];
        let j = choose|j: int| 0 <= j < a.len() && a[j] == b[0];
        if i > 0 {
            assert(pos_lt(b[0], b[i]));
        }
        if j > 0 {
            assert(pos_lt(a[0], a[j]));
        }
        assert(a[0] == b[0]);
        let a1 = a.drop_first();
        let b1 = b.drop_first();
        assert(strictly_ordered(a1)) by {
            assert(forall|i: int, j: int|
                0 <= i < j < a1.len() ==> a1[i] == a[i + 1] && a1[j] == a[j + 1]);
        }
        assert(strictly_ordered(b1)) by {
            assert(forall|i: int, j: int|
                0 <= i < j < b1.len() ==> b1[i] == b[i + 1] && b1[j] == b[j + 1]);
        }
        assert(a1.to_set() =~= b1.to_set()) by {
            assert forall|q: (int, int)| #[trigger] a1.to_set().contains(q) implies b1.to_set().contains(
                q,
            ) by {
                let k = choose|k: int| 0 <= k < a1.len() && a1[k] == q;
                assert(a[k + 1] == q);
                assert(pos_lt(a[0], q));
                assert(b.to_set().contains(q));
                let m = choose|m: int| 0 <= m < b.len() && b[m] == q;
                assert(m > 0);
                assert(b1[m - 1] == q);
            }
            assert forall|q: (int, int)| #[trigger] b1.to_set().contains(q) implies a1.to_set().contains(
                q,
            ) by {
                let k = choose|k: int| 0 <= k < b1.len() && b1[k] == q;
                assert(b[k + 1] == q);
                assert(pos_lt(b[0], q));
                assert(a.to_set().contains(q));
                let m = choose|m: int| 0 <= m < a.len() && a[m] == q;
                assert(m > 0);
                assert(a1[m - 1] == q);
            }
        }
        lemma_strictly_ordered_canonical(a1, b1);
        assert(a.len() == b.len());
        assert forall|k: int| 0 <= k < a.len() implies a[k] == b[k] by {
            if k > 0 {
                assert(a1[k - 1] == b1[k - 1]);
            }
        }
        assert(a =~= b);
    }
}

/// The generation reached from `s` after `n` steps of the rule.
pub open spec fn nth_gen(s: Set<(int, int)>, n: nat) -> Set<(int, int)>
    decreases n,
{
    if n == 0 {
        s
    } else {
        next_gen(nth_gen(s, (n - 1) as nat))
    }
}

/// For a sequence of positions without duplicates, filtering the
/// sequence keeps as many elements as filtering the set it lists.
pub proof fn lemma_filter_counts_set(s: Seq<(int, int)>, pred: spec_fn((int, int)) -> bool)
    requires
        s.no_duplicates(),
    ensures
        s.to_set().finite(),
        s.filter(pred).len() == s.to_set().filter(pred).len(),
    decreases s.len(),
{
    if s.len() == 0 {
        s.lemma_filter_len(pred);
        assert(s.to_set() =~= Set::<(int, int)>::empty());
        s.to_set().lemma_len_filter(pred);
        assert(s.to_set().filter(pred) =~= Set::<(int, int)>::empty());
    } else {
        let s0 = s.drop_last();
        let x = s.last();
        assert(s =~= s0.push(x));
        assert(s0.no_duplicates());
        s0.lemma_filter_len_push(pred, x);
        lemma_filter_counts_set(s0, pred);
        s0.lemma_push_to_set_commute(x);
        assert(!s0.to_set().contains(x)) by {
            if s0.to_set().contains(x) {
                let k = choose|k: int| 0 <= k < s0.len() && s0[k] == x;
                assert(s[k] == s[s.len() - 1]);
            }
        }
        s0.to_set().lemma_len_filter(pred);
        if pred(x) {
            assert(s0.to_set().insert(x).filter(pred) =~= s0.to_set().filter(pred).insert(x));
            assert(s0.to_set().filter(pred).insert(x).len() == s0.to_set().filter(pred).len() + 1);
        } else {
            assert(s0.to_set().insert(x).filter(pred) =~= s0.to_set().filter(pred));
        }
    }
}

/// Inserting a position that was absent and then removing it restores the
/// set exactly.
pub proof fn lemma_insert_remove_roundtrip(s: Set<(int, int)>, p: (int, int))
    requires
        !s.contains(p),
    ensures
        s.insert(p).remove(p) == s,
{
    assert(s.insert(p).remove(p) =~= s);
}

} // verus!
