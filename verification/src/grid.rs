//! The sparse grid: a finite mapping from `Position` to an age counter in
//! `1..=100`.  A coordinate is present exactly when the cell is alive or
//! aging; absence means dead.
//!
//! The mapping is stored as a vector of key/value pairs with pairwise
//! distinct keys; its mathematical meaning is the `Map<(int, int), u32>`
//! returned by [`Grid::view`].  Insertion order carries no meaning.

use vstd::prelude::*;

use crate::position::Position;

verus! {

/// Lookup in a key/value sequence: the value stored beside the last
/// occurrence of `p`, if any.  On sequences with distinct keys this is the
/// value of the one entry with key `p`.
pub open spec fn slook<V>(s: Seq<(Position, V)>, p: (int, int)) -> Option<V>
    decreases s.len(),
{
    if s.len() == 0 {
        None
    } else if (s.last().0)@ == p {
        Some(s.last().1)
    } else {
        slook(s.drop_last(), p)
    }
}

/// All keys of the sequence are pairwise distinct.
pub open spec fn ukeys<V>(s: Seq<(Position, V)>) -> bool {
    forall|i: int, j: int|
        0 <= i < j < s.len() ==> (#[trigger] s[i].0)@ != (#[trigger] s[j].0)@
}

/// The mapping a key/value sequence stands for.
pub open spec fn map_of<V>(s: Seq<(Position, V)>) -> Map<(int, int), V> {
    Map::new(|p: (int, int)| slook(s, p) is Some, |p: (int, int)| slook(s, p)->Some_0)
}

pub proof fn lemma_slook_push<V>(s: Seq<(Position, V)>, e: (Position, V), p: (int, int))
    ensures
        slook(s.push(e), p) == if (e.0)@ == p {
            Some(e.1)
        } else {
            slook(s, p)
        },
{
    assert(s.push(e).drop_last() =~= s);
    assert(s.push(e).last() == e);
}

pub proof fn lemma_ukeys_drop_last<V>(s: Seq<(Position, V)>)
    requires
        ukeys(s),
        s.len() > 0,
    ensures
        ukeys(s.drop_last()),
{
    assert forall|i: int, j: int| 0 <= i < j < s.drop_last().len() implies (#[trigger] s.drop_last()[
        i
    ].0)@ != (#[trigger] s.drop_last()[j].0)@ by {
        assert(s.drop_last()[i] == s[i]);
        assert(s.drop_last()[j] == s[j]);
    }
}

/// With distinct keys, looking up the key of entry `i` finds entry `i`.
pub proof fn lemma_slook_index<V>(s: Seq<(Position, V)>, i: int)
    requires
        ukeys(s),
        0 <= i < s.len(),
    ensures
        slook(s, (s[i].0)@) == Some(s[i].1),
    decreases s.len(),
{
    if i == s.len() - 1 {
        assert(s.last() == s[i]);
    } else {
        assert((s.last().0)@ != (s[i].0)@);
        lemma_ukeys_drop_last(s);
        assert(s.drop_last()[i] == s[i]);
        lemma_slook_index(s.drop_last(), i);
    }
}

/// A key is absent exactly when no entry holds it.
pub proof fn lemma_slook_none<V>(s: Seq<(Position, V)>, p: (int, int))
    ensures
        (slook(s, p) is None) <==> (forall|i: int| 0 <= i < s.len() ==> (#[trigger] s[i].0)@ != p),
    decreases s.len(),
{
    if s.len() > 0 {
        lemma_slook_none(s.drop_last(), p);
        assert forall|i: int| 0 <= i < s.len() - 1 implies s.drop_last()[i] == s[i] by {}
        assert(s.last() == s[s.len() - 1]);
    }
}

/// Overwriting the value of entry `i` changes the lookup of that entry's
/// key and no other.
pub proof fn lemma_slook_update<V>(s: Seq<(Position, V)>, i: int, v: V, p: (int, int))
    requires
        ukeys(s),
        0 <= i < s.len(),
    ensures
        slook(s.update(i, (s[i].0, v)), p) == if p == (s[i].0)@ {
            Some(v)
        } else {
            slook(s, p)
        },
    decreases s.len(),
{
    let t = s.update(i, (s[i].0, v));
    if i == s.len() - 1 {
        assert(t.last() == (s[i].0, v));
        assert(t.drop_last() =~= s.drop_last());
    } else {
        assert(t.last() == s.last());
        assert((s.last().0)@ != (s[i].0)@);
        lemma_ukeys_drop_last(s);
        assert(t.drop_last() =~= s.drop_last().update(i, (s.drop_last()[i].0, v)));
        lemma_slook_update(s.drop_last(), i, v, p);
    }
}

/// Appending an entry with a fresh key keeps the keys distinct.
pub proof fn lemma_push_keeps_ukeys<V>(s: Seq<(Position, V)>, e: (Position, V))
    requires
        ukeys(s),
        slook(s, (e.0)@) is None,
    ensures
        ukeys(s.push(e)),
{
    lemma_slook_none(s, (e.0)@);
    let t = s.push(e);
    assert forall|i: int, j: int| 0 <= i < j < t.len() implies (#[trigger] t[i].0)@ != (
    #[trigger] t[j].0)@ by {
        assert(t[i] == s[i]);
        if j < s.len() {
            assert(t[j] == s[j]);
        } else {
            assert(t[j] == e);
        }
    }
}

/// Peeling the last entry off the mapping.
pub proof fn lemma_map_of_unfold<V>(s: Seq<(Position, V)>)
    requires
        s.len() > 0,
    ensures
        map_of(s) == map_of(s.drop_last()).insert((s.last().0)@, s.last().1),
{
    let m1 = map_of(s);
    let m2 = map_of(s.drop_last()).insert((s.last().0)@, s.last().1);
    assert forall|p: (int, int)| m1.dom().contains(p) <==> m2.dom().contains(p) by {}
    assert forall|p: (int, int)| m1.dom().contains(p) implies m1[p] == m2[p] by {}
    assert(m1 =~= m2);
}

/// With distinct keys the mapping has exactly one entry per stored pair.
pub proof fn lemma_map_of_len<V>(s: Seq<(Position, V)>)
    requires
        ukeys(s),
    ensures
        map_of(s).dom().finite(),
        map_of(s).dom().len() == s.len(),
    decreases s.len(),
{
    if s.len() == 0 {
        assert(map_of(s).dom() =~= Set::<(int, int)>::empty());
    } else {
        lemma_ukeys_drop_last(s);
        lemma_map_of_len(s.drop_last());
        lemma_map_of_unfold(s);
        let k = (s.last().0)@;
        lemma_slook_none(s.drop_last(), k);
        assert forall|i: int| 0 <= i < s.drop_last().len() implies (#[trigger] s.drop_last()[i].0)@
            != k by {
            assert(s.drop_last()[i] == s[i]);
            assert(s.last() == s[s.len() - 1]);
        }
        assert(!map_of(s.drop_last()).dom().contains(k));
        assert(map_of(s).dom() =~= map_of(s.drop_last()).dom().insert(k));
    }
}

/// The mapping holding exactly the given coordinates, each at counter 1.
pub open spec fn set_map(cells: Set<(int, int)>) -> Map<(int, int), u32> {
    Map::new(|p: (int, int)| cells.contains(p), |p: (int, int)| 1u32)
}

/// Every counter a valid grid mapping stores lies in `1..=100`.
pub open spec fn valid_counts(m: Map<(int, int), u32>) -> bool {
    forall|q: (int, int)| #[trigger] m.dom().contains(q) ==> 1 <= m[q] <= 100
}

/// Lookup in a mapping, as an `Option`.
pub open spec fn grid_lookup(m: Map<(int, int), u32>, p: (int, int)) -> Option<u32> {
    if m.dom().contains(p) {
        Some(m[p])
    } else {
        None
    }
}

/// The sparse grid itself.  `cells` is the backing store; use the methods
/// and the `Map` view rather than the vector, whose order carries no
/// meaning.
#[derive(Debug)]
pub struct Grid {
    pub cells: Vec<(Position, u32)>,
}

impl View for Grid {
    type V = Map<(int, int), u32>;

    open spec fn view(&self) -> Map<(int, int), u32> {
        map_of(self.cells@)
    }
}

impl Grid {
    /// Well-formedness: one entry per coordinate, every counter in
    /// `1..=100`.
    pub open spec fn wf(&self) -> bool {
        &&& ukeys(self.cells@)
        &&& forall|i: int| 0 <= i < self.cells@.len() ==> 1 <= (#[trigger] self.cells@[i]).1 <= 100
    }

    /// The empty grid: every cell dead.
    pub fn new() -> (r: Grid)
        ensures
            r.wf(),
            r@ == Map::<(int, int), u32>::empty(),
    {
        let g = Grid { cells: Vec::new() };
        proof {
            assert(g@ =~= Map::<(int, int), u32>::empty());
        }
        g
    }

    /// Number of live (or aging) cells.
    pub fn len(&self) -> (r: usize)
        requires
            self.wf(),
        ensures
            r == self@.dom().len(),
            self@.dom().finite(),
    {
        proof {
            lemma_map_of_len(self.cells@);
        }
        self.cells.len()
    }

    /// The counter at `p`, or `None` when the cell is dead.
    pub fn get(&self, p: Position) -> (r: Option<u32>)
        requires
            self.wf(),
        ensures
            r == grid_lookup(self@, p@),
    {
        let n = self.cells.len();
        let mut i: usize = 0;
        while i < n
            invariant
                self.wf(),
                n == self.cells@.len(),
                0 <= i <= n,
                forall|t: int| 0 <= t < i ==> (#[trigger] self.cells@[t].0)@ != p@,
            decreases n - i,
        {
            if self.cells[i].0 == p {
                proof {
                    lemma_slook_index(self.cells@, i as int);
                }
                return Some(self.cells[i].1);
            }
            i = i + 1;
        }
        proof {
            lemma_slook_none(self.cells@, p@);
        }
        None
    }

    /// Insert or overwrite: afterwards `p` carries counter `v`.
    pub fn set(&mut self, p: Position, v: u32)
        requires
            old(self).wf(),
            1 <= v <= 100,
        ensures
            final(self).wf(),
            final(self)@ == old(self)@.insert(p@, v),
    {
        vec_upsert(&mut self.cells, p, v);
        proof {
            assert forall|i: int| 0 <= i < self.cells@.len() implies 1 <= (
            #[trigger] self.cells@[i]).1 <= 100 by {
                lemma_slook_index(self.cells@, i);
                if (self.cells@[i].0)@ != p@ {
                    lemma_slook_none(old(self).cells@, (self.cells@[i].0)@);
                    let j = choose|j: int|
                        0 <= j < old(self).cells@.len() && (#[trigger] old(self).cells@[j].0)@ == (
                        self.cells@[i].0)@;
                    lemma_slook_index(old(self).cells@, j);
                }
            }
            assert(self@ =~= old(self)@.insert(p@, v));
        }
    }
}

/// A well-formed grid's mapping only stores counters in `1..=100`.
pub proof fn lemma_wf_valid_counts(g: &Grid)
    requires
        g.wf(),
    ensures
        valid_counts(g@),
{
    assert forall|q: (int, int)| #[trigger] g@.dom().contains(q) implies 1 <= g@[q] <= 100 by {
        lemma_slook_none(g.cells@, q);
        let j = choose|j: int| 0 <= j < g.cells@.len() && (#[trigger] g.cells@[j].0)@ == q;
        lemma_slook_index(g.cells@, j);
    }
}

/// Insert or overwrite `p -> v` in a key/value vector with distinct keys.
pub(crate) fn vec_upsert(cells: &mut Vec<(Position, u32)>, p: Position, v: u32)
    requires
        ukeys(old(cells)@),
    ensures
        ukeys(final(cells)@),
        forall|q: (int, int)| slook(final(cells)@, q) == if q == p@ {
            Some(v)
        } else {
            slook(old(cells)@, q)
        },
{
    let n = cells.len();
    let mut i: usize = 0;
    while i < n
        invariant
            ukeys(cells@),
            cells@ == old(cells)@,
            n == cells@.len(),
            0 <= i <= n,
            forall|t: int| 0 <= t < i ==> (#[trigger] cells@[t].0)@ != p@,
        decreases n - i,
    {
        if cells[i].0 == p {
            let key = cells[i].0;
            cells.set(i, (key, v));
            proof {
                assert forall|q: (int, int)| slook(cells@, q) == (if q == p@ {
                    Some(v)
                } else {
                    slook(old(cells)@, q)
                }) by {
                    lemma_slook_update(old(cells)@, i as int, v, q);
                }
                assert forall|a: int, b: int| 0 <= a < b < cells@.len() implies (
                #[trigger] cells@[a].0)@ != (#[trigger] cells@[b].0)@ by {
                    assert((old(cells)@[a].0)@ != (old(cells)@[b].0)@);
                }
            }
            return ;
        }
        i = i + 1;
    }
    proof {
        lemma_slook_none(cells@, p@);
    }
    cells.push((p, v));
    proof {
        lemma_push_keeps_ukeys(old(cells)@, (p, v));
        assert forall|q: (int, int)| slook(cells@, q) == (if q == p@ {
            Some(v)
        } else {
            slook(old(cells)@, q)
        }) by {
            lemma_slook_push(old(cells)@, (p, v), q);
        }
    }
}

} // verus!
