//! The generation transition.  One step combines
//!
//! * an aging pass: every present cell's counter grows by one, and a cell
//!   whose counter would reach the cap of 100 is dropped;
//! * a neighbor-count pass: only cells with counter exactly 1 count as
//!   neighbors, and each point adjacent to such a cell accumulates a count;
//! * the decision rule: a point with count exactly 3 enters the next grid
//!   with counter 1 whatever it held before; a point with count exactly 2
//!   enters with counter 1 only if the pre-step grid held it with counter
//!   exactly 1.
//!
//! The whole step is a pure function of the pre-step mapping, stated by
//! [`next_spec`]; the two passes read the same immutable snapshot.

use vstd::prelude::*;

use crate::grid::{
    lemma_map_of_unfold, lemma_push_keeps_ukeys, lemma_slook_index, lemma_slook_none,
    lemma_slook_push, lemma_slook_update, lemma_ukeys_drop_last, map_of, slook, ukeys, Grid,
};
use crate::position::{adjacent, in_plane, Position};

verus! {

/// 1 when `m` holds `q` with counter exactly 1 — only such cells count as
/// neighbors for births.
pub open spec fn ind(m: Map<(int, int), u32>, q: (int, int)) -> int {
    if m.dom().contains(q) && m[q] == 1 {
        1
    } else {
        0
    }
}

/// How many of the eight neighbors of `p` are fresh (counter exactly 1)
/// in `m`.
pub open spec fn ncount(m: Map<(int, int), u32>, p: (int, int)) -> int {
    ind(m, (p.0 - 1, p.1 - 1)) + ind(m, (p.0, p.1 - 1)) + ind(m, (p.0 + 1, p.1 - 1)) + ind(
        m,
        (p.0 - 1, p.1),
    ) + ind(m, (p.0 + 1, p.1)) + ind(m, (p.0 - 1, p.1 + 1)) + ind(m, (p.0, p.1 + 1)) + ind(
        m,
        (p.0 + 1, p.1 + 1),
    )
}

/// The decision rule applied to a neighbor count `c` at point `p`.
pub open spec fn born_cond(c: int, m: Map<(int, int), u32>, p: (int, int)) -> bool {
    c == 3 || (c == 2 && m.dom().contains(p) && m[p] == 1)
}

/// Whether `p` enters the next generation with counter reset to 1.
pub open spec fn born(m: Map<(int, int), u32>, p: (int, int)) -> bool {
    born_cond(ncount(m, p), m, p)
}

/// What aging does to one cell's lookup result: the counter grows by one,
/// and a cell that would reach the cap of 100 dies of old age.
pub open spec fn age1(o: Option<u32>) -> Option<u32> {
    match o {
        None => None,
        Some(v) => if v < 100 {
            Some((v + 1) as u32)
        } else {
            None
        },
    }
}

/// The next generation as a function of the pre-step mapping: births and
/// survivals carry counter 1 and overwrite whatever aging produced; all
/// other surviving cells carry their aged counter.
pub open spec fn next_spec(m: Map<(int, int), u32>) -> Map<(int, int), u32> {
    Map::new(
        |p: (int, int)| in_plane(p) && (born(m, p) || (m.dom().contains(p) && m[p] < 100)),
        |p: (int, int)|
            if born(m, p) {
                1u32
            } else {
                ((m[p] + 1) as u32)
            },
    )
}

/// The contribution of one stored entry to the neighbor count of `p`.
pub open spec fn lcontrib(e: (Position, u32), p: (int, int)) -> int {
    if e.1 == 1 && adjacent((e.0)@, p) && in_plane(p) {
        1
    } else {
        0
    }
}

/// The neighbor count of `p` accumulated over a prefix of stored entries.
pub open spec fn pnc(s: Seq<(Position, u32)>, p: (int, int)) -> int
    decreases s.len(),
{
    if s.len() == 0 {
        0
    } else {
        pnc(s.drop_last(), p) + lcontrib(s.last(), p)
    }
}

proof fn lemma_pnc_le(s: Seq<(Position, u32)>, p: (int, int))
    ensures
        0 <= pnc(s, p) <= s.len(),
    decreases s.len(),
{
    if s.len() > 0 {
        lemma_pnc_le(s.drop_last(), p);
    }
}

/// Accumulating entry by entry computes exactly the neighbor count of the
/// mapping, for every representable point.
proof fn lemma_pnc_ncount(s: Seq<(Position, u32)>)
    requires
        ukeys(s),
    ensures
        forall|p: (int, int)| in_plane(p) ==> #[trigger] pnc(s, p) == ncount(map_of(s), p),
    decreases s.len(),
{
    if s.len() == 0 {
        assert forall|p: (int, int)| in_plane(p) implies #[trigger] pnc(s, p) == ncount(
            map_of(s),
            p,
        ) by {
            assert(forall|q: (int, int)| !map_of(s).dom().contains(q));
        }
    } else {
        let d = s.drop_last();
        let k = (s.last().0)@;
        let v = s.last().1;
        lemma_ukeys_drop_last(s);
        lemma_pnc_ncount(d);
        lemma_map_of_unfold(s);
        lemma_slook_none(d, k);
        assert forall|i: int| 0 <= i < d.len() implies (#[trigger] d[i].0)@ != k by {
            assert(d[i] == s[i]);
            assert(s.last() == s[s.len() - 1]);
        }
        assert(!map_of(d).dom().contains(k));
        assert forall|p: (int, int)| in_plane(p) implies #[trigger] pnc(s, p) == ncount(
            map_of(s),
            p,
        ) by {
            assert(pnc(s, p) == pnc(d, p) + lcontrib(s.last(), p));
            assert(map_of(s) == map_of(d).insert(k, v));
        }
    }
}

/// The running count held by the count vector for point `p`.
pub open spec fn cnt(s: Seq<(Position, usize)>, p: (int, int)) -> int {
    match slook(s, p) {
        None => 0,
        Some(c) => c as int,
    }
}

/// Add one to the count of `q`, inserting it at 1 when absent.
fn bump(counts: &mut Vec<(Position, usize)>, q: Position)
    requires
        ukeys(old(counts)@),
        cnt(old(counts)@, q@) < usize::MAX as int,
    ensures
        ukeys(final(counts)@),
        forall|p: (int, int)| cnt(final(counts)@, p) == cnt(old(counts)@, p) + if p == q@ {
            1int
        } else {
            0int
        },
{
    let n = counts.len();
    let mut i: usize = 0;
    while i < n
        invariant
            ukeys(counts@),
            counts@ == old(counts)@,
            n == counts@.len(),
            0 <= i <= n,
            cnt(old(counts)@, q@) < usize::MAX as int,
            forall|t: int| 0 <= t < i ==> (#[trigger] counts@[t].0)@ != q@,
        decreases n - i,
    {
        if counts[i].0 == q {
            let key = counts[i].0;
            let c = counts[i].1;
            proof {
                lemma_slook_index(counts@, i as int);
            }
            counts.set(i, (key, c + 1));
            proof {
                assert forall|p: (int, int)| cnt(counts@, p) == cnt(old(counts)@, p) + (if p == q@ {
                    1int
                } else {
                    0int
                }) by {
                    lemma_slook_update(old(counts)@, i as int, (c + 1) as usize, p);
                }
                assert forall|a: int, b: int| 0 <= a < b < counts@.len() implies (
                #[trigger] counts@[a].0)@ != (#[trigger] counts@[b].0)@ by {
                    assert((old(counts)@[a].0)@ != (old(counts)@[b].0)@);
                }
            }
            return ;
        }
        i = i + 1;
    }
    proof {
        lemma_slook_none(counts@, q@);
    }
    counts.push((q, 1));
    proof {
        lemma_push_keeps_ukeys(old(counts)@, (q, 1));
        assert forall|p: (int, int)| cnt(counts@, p) == cnt(old(counts)@, p) + (if p == q@ {
            1int
        } else {
            0int
        }) by {
            lemma_slook_push(old(counts)@, (q, 1), p);
        }
    }
}

/// Add one to the count of the neighbor of `k` at offset `(dx, dy)`,
/// skipping neighbors that fall outside the representable plane.
fn bump_neighbor(counts: &mut Vec<(Position, usize)>, k: Position, dx: i32, dy: i32)
    requires
        ukeys(old(counts)@),
        -1 <= dx <= 1,
        -1 <= dy <= 1,
        in_plane((k.x + dx, k.y + dy)) ==> cnt(old(counts)@, (k.x + dx, k.y + dy)) < usize::MAX
            as int,
    ensures
        ukeys(final(counts)@),
        forall|p: (int, int)| cnt(final(counts)@, p) == cnt(old(counts)@, p) + if p == (
        k.x + dx, k.y + dy) && in_plane((k.x + dx, k.y + dy)) {
            1int
        } else {
            0int
        },
{
    let qx = (k.x as i64) + (dx as i64);
    let qy = (k.y as i64) + (dy as i64);
    if qx >= i32::MIN as i64 && qx <= i32::MAX as i64 && qy >= i32::MIN as i64 && qy <= i32::MAX
        as i64 {
        let q = Position { x: qx as i32, y: qy as i32 };
        bump(counts, q);
    }
}

proof fn lemma_range_from_slook(
    old_s: Seq<(Position, u32)>,
    new_s: Seq<(Position, u32)>,
    p: (int, int),
    v: u32,
    lo: u32,
    hi: u32,
)
    requires
        ukeys(old_s),
        ukeys(new_s),
        forall|q: (int, int)| slook(new_s, q) == if q == p {
            Some(v)
        } else {
            slook(old_s, q)
        },
        forall|i: int| 0 <= i < old_s.len() ==> lo <= (#[trigger] old_s[i]).1 <= hi,
        lo <= v <= hi,
    ensures
        forall|i: int| 0 <= i < new_s.len() ==> lo <= (#[trigger] new_s[i]).1 <= hi,
{
    assert forall|i: int| 0 <= i < new_s.len() implies lo <= (#[trigger] new_s[i]).1 <= hi by {
        lemma_slook_index(new_s, i);
        let key = (new_s[i].0)@;
        if key != p {
            assert(slook(old_s, key) == Some(new_s[i].1));
            lemma_slook_none(old_s, key);
            let j = choose|j: int|
                0 <= j < old_s.len() && (#[trigger] old_s[j].0)@ == key;
            lemma_slook_index(old_s, j);
        }
    }
}

impl Grid {
    /// One generation step.  The result is a freshly built grid; the
    /// receiver is only read, so a caller may keep rendering the old
    /// generation while the new one is computed.
    pub fn next(&self) -> (r: Grid)
        requires
            self.wf(),
        ensures
            r.wf(),
            r@ == next_spec(self@),
    {
        let ghost m = self@;
        let n = self.cells.len();

        // Aging pass over the snapshot: grow every counter by one and drop
        // cells that would reach the cap.
        let mut aged: Vec<(Position, u32)> = Vec::new();
        let mut i: usize = 0;
        while i < n
            invariant
                self.wf(),
                n == self.cells@.len(),
                0 <= i <= n,
                ukeys(aged@),
                forall|t: int| 0 <= t < aged@.len() ==> 2 <= (#[trigger] aged@[t]).1 <= 100,
                forall|p: (int, int)| slook(aged@, p) == age1(
                    slook(self.cells@.take(i as int), p),
                ),
            decreases n - i,
        {
            let (k, v) = self.cells[i];
            proof {
                assert(self.cells@.take(i + 1) =~= self.cells@.take(i as int).push(
                    self.cells@[i as int],
                ));
                lemma_slook_none(self.cells@.take(i as int), k@);
                assert forall|t: int| 0 <= t < i implies (#[trigger] self.cells@.take(i as int)[
                t].0)@ != k@ by {
                    assert(self.cells@.take(i as int)[t] == self.cells@[t]);
                }
            }
            if v < 100 {
                let ghost aged_pre = aged@;
                aged.push((k, v + 1));
                proof {
                    lemma_push_keeps_ukeys(aged_pre, (k, (v + 1) as u32));
                    assert forall|p: (int, int)| slook(aged@, p) == age1(
                        slook(self.cells@.take(i + 1), p),
                    ) by {
                        lemma_slook_push(aged_pre, (k, (v + 1) as u32), p);
                        lemma_slook_push(self.cells@.take(i as int), self.cells@[i as int], p);
                    }
                }
            } else {
                proof {
                    assert forall|p: (int, int)| slook(aged@, p) == age1(
                        slook(self.cells@.take(i + 1), p),
                    ) by {
                        lemma_slook_push(self.cells@.take(i as int), self.cells@[i as int], p);
                    }
                }
            }
            i = i + 1;
        }
        proof {
            assert(self.cells@.take(n as int) =~= self.cells@);
        }

        // Neighbor-count pass over the same snapshot: each cell with
        // counter exactly 1 contributes one count to each of its eight
        // neighbors.
        let mut counts: Vec<(Position, usize)> = Vec::new();
        let mut i: usize = 0;
        while i < n
            invariant
                self.wf(),
                n == self.cells@.len(),
                0 <= i <= n,
                ukeys(counts@),
                forall|p: (int, int)| #[trigger] cnt(counts@, p) == pnc(
                    self.cells@.take(i as int),
                    p,
                ),
            decreases n - i,
        {
            let (k, v) = self.cells[i];
            proof {
                assert(self.cells@.take(i + 1) =~= self.cells@.take(i as int).push(
                    self.cells@[i as int],
                ));
                assert forall|p: (int, int)| 0 <= #[trigger] pnc(self.cells@.take(i as int), p)
                    <= i by {
                    lemma_pnc_le(self.cells@.take(i as int), p);
                }
            }
            if v == 1 {
                bump_neighbor(&mut counts, k, -1, -1);
                bump_neighbor(&mut counts, k, 0, -1);
                bump_neighbor(&mut counts, k, 1, -1);
                bump_neighbor(&mut counts, k, -1, 0);
                bump_neighbor(&mut counts, k, 1, 0);
                bump_neighbor(&mut counts, k, -1, 1);
                bump_neighbor(&mut counts, k, 0, 1);
                bump_neighbor(&mut counts, k, 1, 1);
            }
            proof {
                assert forall|p: (int, int)| #[trigger] cnt(counts@, p) == pnc(
                    self.cells@.take(i + 1),
                    p,
                ) by {
                    assert(self.cells@.take(i + 1).drop_last() =~= self.cells@.take(i as int));
                    assert(self.cells@.take(i + 1).last() == self.cells@[i as int]);
                    assert(pnc(self.cells@.take(i + 1), p) == pnc(self.cells@.take(i as int), p)
                        + lcontrib(self.cells@[i as int], p));
                }
            }
            i = i + 1;
        }
        proof {
            assert(self.cells@.take(n as int) =~= self.cells@);
            lemma_pnc_ncount(self.cells@);
        }

        // Merge: starting from the aged mapping, apply the decision rule to
        // every accumulated neighbor count, consulting the pre-step grid
        // for the survival check.
        let mut result = aged;
        let ghost aged_view = result@;
        let cn = counts.len();
        let mut t: usize = 0;
        while t < cn
            invariant
                self.wf(),
                m == self@,
                cn == counts@.len(),
                0 <= t <= cn,
                ukeys(counts@),
                forall|p: (int, int)| #[trigger] cnt(counts@, p) == pnc(self.cells@, p),
                forall|tt: int| 0 <= tt < aged_view.len() ==> 2 <= (#[trigger] aged_view[tt]).1
                    <= 100,
                ukeys(result@),
                forall|tt: int| 0 <= tt < result@.len() ==> 1 <= (#[trigger] result@[tt]).1 <= 100,
                forall|p: (int, int)| slook(result@, p) == if (exists|j: int|
                    0 <= j < t && (#[trigger] counts@[j]).0@ == p && born_cond(
                        counts@[j].1 as int,
                        m,
                        p,
                    )) {
                    Some(1u32)
                } else {
                    slook(aged_view, p)
                },
            decreases cn - t,
        {
            let (q, c) = counts[t];
            let survives = match self.get(q) {
                Some(w) => w == 1,
                None => false,
            };
            let give_birth = c == 3 || (c == 2 && survives);
            let ghost pre = result@;
            if give_birth {
                crate::grid::vec_upsert(&mut result, q, 1);
                proof {
                    lemma_range_from_slook(pre, result@, q@, 1u32, 1u32, 100u32);
                }
            }
            proof {
                assert(give_birth == born_cond(counts@[t as int].1 as int, m, q@));
                assert forall|p: (int, int)| slook(result@, p) == (if (exists|j: int|
                    0 <= j < t + 1 && (#[trigger] counts@[j]).0@ == p && born_cond(
                        counts@[j].1 as int,
                        m,
                        p,
                    )) {
                    Some(1u32)
                } else {
                    slook(aged_view, p)
                }) by {
                    if p == q@ {
                        if give_birth {
                            assert(counts@[t as int].0@ == p && born_cond(
                                counts@[t as int].1 as int,
                                m,
                                p,
                            ));
                        } else {
                            // no earlier entry can hold this key
                            assert forall|j: int| 0 <= j < t implies !((#[trigger] counts@[j]).0@
                                == p && born_cond(counts@[j].1 as int, m, p)) by {
                                assert((counts@[j].0)@ != (counts@[t as int].0)@);
                            }
                        }
                    } else {
                        assert forall|j: int|
                            0 <= j < t + 1 && (#[trigger] counts@[j]).0@ == p && born_cond(
                                counts@[j].1 as int,
                                m,
                                p,
                            ) implies j < t by {}
                    }
                }
            }
            t = t + 1;
        }

        let r = Grid { cells: result };
        proof {
            lemma_pnc_ncount(self.cells@);
            lemma_equal_to_next_spec(r.cells@, aged_view, counts@, self.cells@, m);
        }
        r
    }
}

/// The coordinates carrying counter exactly 1: the only cells that count
/// as neighbors for births and survivals.
pub open spec fn fresh_set(m: Map<(int, int), u32>) -> Set<(int, int)> {
    Set::new(|p: (int, int)| m.dom().contains(p) && m[p] == 1)
}

/// The step is a function of the mapping alone: two grids holding the same
/// mapping — whatever order their entries were inserted in — step to the
/// same next generation.
pub proof fn lemma_step_is_order_free(g1: Grid, g2: Grid)
    requires
        g1@ == g2@,
    ensures
        next_spec(g1@) == next_spec(g2@),
{
}

/// Births and survivals depend only on the set of fresh cells: two
/// mappings with the same counter-1 coordinates agree on every neighbor
/// count and on every birth decision.
pub proof fn lemma_births_depend_on_fresh_only(m1: Map<(int, int), u32>, m2: Map<(int, int), u32>)
    requires
        fresh_set(m1) == fresh_set(m2),
    ensures
        forall|p: (int, int)| #[trigger] ncount(m1, p) == ncount(m2, p),
        forall|p: (int, int)| #[trigger] born(m1, p) <==> born(m2, p),
{
    assert forall|q: (int, int)| #[trigger] ind(m1, q) == ind(m2, q) by {
        assert(fresh_set(m1).contains(q) == (m1.dom().contains(q) && m1[q] == 1));
        assert(fresh_set(m2).contains(q) == (m2.dom().contains(q) && m2[q] == 1));
        assert(fresh_set(m1).contains(q) <==> fresh_set(m2).contains(q));
    }
    assert forall|p: (int, int)| #[trigger] born(m1, p) <==> born(m2, p) by {
        assert(fresh_set(m1).contains(p) == (m1.dom().contains(p) && m1[p] == 1));
        assert(fresh_set(m2).contains(p) == (m2.dom().contains(p) && m2[p] == 1));
        assert(fresh_set(m1).contains(p) <==> fresh_set(m2).contains(p));
        assert(ncount(m1, p) == ncount(m2, p));
    }
}

/// An isolated cell produces no births, ages by exactly one per step, and
/// is removed when its counter would pass the cap of 100.
pub proof fn lemma_isolated_cell(m: Map<(int, int), u32>, p: (int, int), v: u32)
    requires
        in_plane(p),
        m == Map::<(int, int), u32>::empty().insert(p, v),
        1 <= v <= 100,
    ensures
        v < 100 ==> next_spec(m) == Map::<(int, int), u32>::empty().insert(p, (v + 1) as u32),
        v == 100 ==> next_spec(m) == Map::<(int, int), u32>::empty(),
{
    assert forall|q: (int, int)| !(#[trigger] born(m, q)) by {
        assert(ncount(m, q) <= 1);
    }
    if v < 100 {
        assert(next_spec(m) =~= Map::<(int, int), u32>::empty().insert(p, (v + 1) as u32));
    } else {
        assert(next_spec(m) =~= Map::<(int, int), u32>::empty());
    }
}

/// The mapping after `k` generation steps.
pub open spec fn next_iter(m: Map<(int, int), u32>, k: nat) -> Map<(int, int), u32>
    decreases k,
{
    if k == 0 {
        m
    } else {
        next_spec(next_iter(m, (k - 1) as nat))
    }
}

/// An isolated cell's counter grows by exactly one per step: after `k`
/// steps it carries `v + k`, as long as that stays within the cap — and
/// one step past the cap the grid is empty.
pub proof fn lemma_isolated_cell_lifetime(p: (int, int), v: u32, k: nat)
    requires
        in_plane(p),
        1 <= v,
        v + k <= 100,
    ensures
        next_iter(Map::<(int, int), u32>::empty().insert(p, v), k)
            == Map::<(int, int), u32>::empty().insert(p, (v + k) as u32),
        v + k == 100 ==> next_spec(next_iter(Map::<(int, int), u32>::empty().insert(p, v), k))
            == Map::<(int, int), u32>::empty(),
    decreases k,
{
    let m0 = Map::<(int, int), u32>::empty().insert(p, v);
    if k == 0 {
        assert(next_iter(m0, 0) == m0);
        if v == 100 {
            lemma_isolated_cell(m0, p, v);
        }
    } else {
        lemma_isolated_cell_lifetime(p, v, (k - 1) as nat);
        lemma_isolated_cell(
            Map::<(int, int), u32>::empty().insert(p, (v + k - 1) as u32),
            p,
            (v + k - 1) as u32,
        );
        if v + k == 100 {
            lemma_isolated_cell(Map::<(int, int), u32>::empty().insert(p, 100u32), p, 100u32);
        }
    }
}

/// A point whose neighbor count is exactly 3 always enters the next grid
/// with counter 1, whatever it held before — births overwrite aged values.
pub proof fn lemma_birth_on_three(m: Map<(int, int), u32>, p: (int, int))
    requires
        in_plane(p),
        ncount(m, p) == 3,
    ensures
        next_spec(m).contains_pair(p, 1u32),
{
}

/// A point whose neighbor count is exactly 2 enters the next grid with
/// counter 1 exactly when the pre-step grid held it with counter exactly
/// 1; a cell that was merely aging (counter above 1) is not re-affirmed by
/// this branch and only persists through the aging pass.
pub proof fn lemma_survival_on_two(m: Map<(int, int), u32>, p: (int, int))
    requires
        in_plane(p),
        crate::grid::valid_counts(m),
        ncount(m, p) == 2,
    ensures
        next_spec(m).contains_pair(p, 1u32) <==> m.contains_pair(p, 1u32),
        m.dom().contains(p) && m[p] != 1 && m[p] < 100 ==> next_spec(m).contains_pair(
            p,
            (m[p] + 1) as u32,
        ),
{
}

/// The merge loop's final state is exactly the specified next generation.
proof fn lemma_equal_to_next_spec(
    result: Seq<(Position, u32)>,
    aged_view: Seq<(Position, u32)>,
    counts: Seq<(Position, usize)>,
    cells: Seq<(Position, u32)>,
    m: Map<(int, int), u32>,
)
    requires
        m == map_of(cells),
        ukeys(cells),
        ukeys(counts),
        ukeys(result),
        forall|p: (int, int)| #[trigger] cnt(counts, p) == ncount(m, p) || !in_plane(p),
        forall|p: (int, int)| slook(aged_view, p) == age1(slook(cells, p)),
        forall|p: (int, int)| slook(result, p) == if (exists|j: int|
            0 <= j < counts.len() && (#[trigger] counts[j]).0@ == p && born_cond(
                counts[j].1 as int,
                m,
                p,
            )) {
            Some(1u32)
        } else {
            slook(aged_view, p)
        },
    ensures
        map_of(result) == next_spec(m),
{
    let nx = next_spec(m);
    assert forall|p: (int, int)| slook(result, p) == (if nx.dom().contains(p) {
        Some(nx[p])
    } else {
        None::<u32>
    }) by {
        if in_plane(p) {
            // the accumulated count entry for p, if any, holds ncount(m, p)
            if exists|j: int|
                0 <= j < counts.len() && (#[trigger] counts[j]).0@ == p && born_cond(
                    counts[j].1 as int,
                    m,
                    p,
                ) {
                let j = choose|j: int|
                    0 <= j < counts.len() && (#[trigger] counts[j]).0@ == p && born_cond(
                        counts[j].1 as int,
                        m,
                        p,
                    );
                lemma_slook_index(counts, j);
                assert(cnt(counts, p) == counts[j].1 as int);
                assert(born(m, p));
            } else {
                if born(m, p) {
                    assert(cnt(counts, p) == ncount(m, p));
                    assert(cnt(counts, p) >= 2);
                    assert(slook(counts, p) is Some);
                    lemma_slook_none(counts, p);
                    let j = choose|j: int|
                        0 <= j < counts.len() && (#[trigger] counts[j].0)@ == p;
                    lemma_slook_index(counts, j);
                    assert(counts[j].1 as int == ncount(m, p));
                    assert(false);
                }
            }
        } else {
            // points outside the representable plane never enter the grid
            lemma_slook_none(cells, p);
            lemma_slook_none(counts, p);
            assert(slook(result, p) is None);
            assert(!nx.dom().contains(p));
        }
    }
    assert forall|p: (int, int)| map_of(result).dom().contains(p) <==> nx.dom().contains(p) by {}
    assert forall|p: (int, int)| nx.dom().contains(p) implies map_of(result)[p] == nx[p] by {}
    assert(map_of(result) =~= nx);
}

} // verus!
