//! The seed-text loader.  A seed document holds zero or more blocks; a
//! block starts at a `#P x y` marker (two whitespace-separated integers)
//! and is followed by rows of ASCII text in which `*` at column `j` of row
//! `i` marks a live cell at `(x + j, y + i)`.  Every other character is
//! ignored.  A malformed or missing origin integer fails the whole load;
//! so does a starred cell whose coordinate does not fit the plane.
//!
//! The grammar is stated by the spec functions below ([`seed_err`],
//! [`seed_cells`], [`seed_map`]); the loader is proved to compute exactly
//! that.  Byte values appear numerically: 35 `#`, 80 `P`, 42 `*`, 10
//! newline, 13 carriage return, 43 `+`, 45 `-`, 48..=57 digits.

use vstd::prelude::*;

use crate::grid::{set_map, Grid};
use crate::position::{in_plane, Position};

verus! {

/// Why a seed failed to load.
#[derive(Clone, Copy, PartialEq, Eq, Structural, Debug)]
pub enum SeedError {
    /// A block's origin line lacks two integers, or one is malformed or
    /// out of the 32-bit range.
    BadOrigin,
    /// A starred cell lies outside the representable plane.
    CoordinateOverflow,
}

/// ASCII whitespace: space, tab, newline, form feed, carriage return.
pub open spec fn is_ws(b: u8) -> bool {
    b == 32 || b == 9 || b == 10 || b == 12 || b == 13
}

/// The position of the first `#P` marker at or after `from`, or the text's
/// length when there is none.
pub open spec fn next_marker(s: Seq<u8>, from: int) -> int
    decreases s.len() - from,
{
    if from + 2 > s.len() {
        s.len() as int
    } else if s[from] == 35 && s[from + 1] == 80 {
        from
    } else {
        next_marker(s, from + 1)
    }
}

pub proof fn lemma_next_marker(s: Seq<u8>, from: int)
    ensures
        from <= s.len() ==> from <= next_marker(s, from) <= s.len(),
        from > s.len() ==> next_marker(s, from) == s.len(),
        next_marker(s, from) < s.len() ==> next_marker(s, from) + 2 <= s.len(),
    decreases s.len() - from + 2,
{
    if from + 2 <= s.len() && !(s[from] == 35 && s[from + 1] == 80) {
        lemma_next_marker(s, from + 1);
    }
}

/// The position of the first newline in `[from, end)`, or `end`.
pub open spec fn next_nl(s: Seq<u8>, from: int, end: int) -> int
    decreases end - from,
{
    if from >= end {
        end
    } else if s[from] == 10 {
        from
    } else {
        next_nl(s, from + 1, end)
    }
}

pub proof fn lemma_next_nl(s: Seq<u8>, from: int, end: int)
    requires
        from <= end,
    ensures
        from <= next_nl(s, from, end) <= end,
    decreases end - from,
{
    if from < end && s[from] != 10 {
        lemma_next_nl(s, from + 1, end);
    }
}

/// The first non-whitespace position in `[i, end)`, or `end`.
pub open spec fn skip_ws(s: Seq<u8>, i: int, end: int) -> int
    decreases end - i,
{
    if i >= end {
        end
    } else if is_ws(s[i]) {
        skip_ws(s, i + 1, end)
    } else {
        i
    }
}

/// The first whitespace position in `[i, end)`, or `end`.
pub open spec fn tok_end(s: Seq<u8>, i: int, end: int) -> int
    decreases end - i,
{
    if i >= end {
        end
    } else if is_ws(s[i]) {
        i
    } else {
        tok_end(s, i + 1, end)
    }
}

/// All bytes of `[i, b)` are ASCII digits.
pub open spec fn all_digits(s: Seq<u8>, i: int, b: int) -> bool {
    forall|t: int| i <= t < b ==> 48 <= #[trigger] s[t] <= 57
}

/// The value of the digit run `[i, b)` read left to right onto `acc`.
pub open spec fn dval(s: Seq<u8>, i: int, b: int, acc: int) -> int
    decreases b - i,
{
    if i >= b {
        acc
    } else {
        dval(s, i + 1, b, acc * 10 + (s[i] - 48))
    }
}

proof fn lemma_dval_lower(s: Seq<u8>, i: int, b: int, acc: int)
    requires
        acc >= 0,
        all_digits(s, i, b),
    ensures
        dval(s, i, b, acc) >= acc,
    decreases b - i,
{
    if i < b {
        lemma_dval_lower(s, i + 1, b, acc * 10 + (s[i] - 48));
    }
}

/// What `[a, b)` means as a 32-bit integer token: an optional sign, then
/// one or more digits, valued within the 32-bit range — or nothing.
pub open spec fn parse_int(s: Seq<u8>, a: int, b: int) -> Option<int> {
    let d0 = if a < b && (s[a] == 43 || s[a] == 45) {
        a + 1
    } else {
        a
    };
    let neg = a < b && s[a] == 45;
    if d0 >= b {
        None
    } else if !all_digits(s, d0, b) {
        None
    } else {
        let v = dval(s, d0, b, 0);
        let sv = if neg {
            -v
        } else {
            v
        };
        if -0x80000000 <= sv <= 0x7fffffff {
            Some(sv)
        } else {
            None
        }
    }
}

/// The cells and first error of one row, scanning `[j, rend)`; the row
/// started at `rs`, so a star at `j` marks `(x + (j - rs), yy)`.
pub open spec fn row_cells(s: Seq<u8>, rs: int, j: int, rend: int, x: int, yy: int) -> (
    Option<SeedError>,
    Set<(int, int)>,
)
    decreases rend - j,
{
    if j >= rend {
        (None, Set::empty())
    } else if s[j] == 42 {
        let c = (x + (j - rs), yy);
        if in_plane(c) {
            let rest = row_cells(s, rs, j + 1, rend, x, yy);
            (rest.0, rest.1.insert(c))
        } else {
            (Some(SeedError::CoordinateOverflow), Set::empty())
        }
    } else {
        row_cells(s, rs, j + 1, rend, x, yy)
    }
}

/// The cells and first error of the rows in `[pos, end)`, one row per
/// newline-separated line, the first row at grid row `yy`.
pub open spec fn rows_cells(s: Seq<u8>, pos: int, end: int, x: int, yy: int) -> (
    Option<SeedError>,
    Set<(int, int)>,
)
    decreases end - pos,
    via rows_cells_dec
{
    if pos >= end {
        (None, Set::empty())
    } else {
        let rnl = next_nl(s, pos, end);
        let rc = row_cells(s, pos, pos, rnl, x, yy);
        if rc.0 is Some {
            rc
        } else if rnl >= end {
            rc
        } else {
            let rest = rows_cells(s, rnl + 1, end, x, yy + 1);
            (rest.0, rc.1.union(rest.1))
        }
    }
}

#[via_fn]
proof fn rows_cells_dec(s: Seq<u8>, pos: int, end: int, x: int, yy: int) {
    if pos < end {
        lemma_next_nl(s, pos, end);
    }
}

/// The cells and first error of one block, whose content (everything
/// after its `#P`) is `[start, end)`: an origin line carrying two integer
/// tokens, then rows.
pub open spec fn block_cells(s: Seq<u8>, start: int, end: int) -> (
    Option<SeedError>,
    Set<(int, int)>,
) {
    if start >= end {
        (Some(SeedError::BadOrigin), Set::empty())
    } else {
        let nl = next_nl(s, start, end);
        let oe = if nl > start && s[nl - 1] == 13 {
            nl - 1
        } else {
            nl
        };
        let a1 = skip_ws(s, start, oe);
        if a1 >= oe {
            (Some(SeedError::BadOrigin), Set::empty())
        } else {
            let b1 = tok_end(s, a1, oe);
            match parse_int(s, a1, b1) {
                None => (Some(SeedError::BadOrigin), Set::empty()),
                Some(x) => {
                    let a2 = skip_ws(s, b1, oe);
                    if a2 >= oe {
                        (Some(SeedError::BadOrigin), Set::empty())
                    } else {
                        let b2 = tok_end(s, a2, oe);
                        match parse_int(s, a2, b2) {
                            None => (Some(SeedError::BadOrigin), Set::empty()),
                            Some(y) => if nl >= end {
                                (None, Set::empty())
                            } else {
                                rows_cells(s, nl + 1, end, x, y)
                            },
                        }
                    }
                }
            }
        }
    }
}

/// The cells and first error of all blocks from the marker at `m` on.
pub open spec fn blocks_cells(s: Seq<u8>, m: int) -> (Option<SeedError>, Set<(int, int)>)
    decreases s.len() - m,
    via blocks_cells_dec
{
    if m >= s.len() {
        (None, Set::empty())
    } else {
        let nxt = next_marker(s, m + 2);
        let bc = block_cells(s, m + 2, nxt);
        if bc.0 is Some {
            bc
        } else {
            let rest = blocks_cells(s, nxt);
            (rest.0, bc.1.union(rest.1))
        }
    }
}

#[via_fn]
proof fn blocks_cells_dec(s: Seq<u8>, m: int) {
    if m < s.len() {
        lemma_next_marker(s, m + 2);
    }
}

/// The first load error of a seed text, if any.
pub open spec fn seed_err(s: Seq<u8>) -> Option<SeedError> {
    blocks_cells(s, next_marker(s, 0)).0
}

/// The set of coordinates a seed text marks live.
pub open spec fn seed_cells(s: Seq<u8>) -> Set<(int, int)> {
    blocks_cells(s, next_marker(s, 0)).1
}

/// The grid a seed text stands for: every marked coordinate at counter 1.
pub open spec fn seed_map(s: Seq<u8>) -> Map<(int, int), u32> {
    set_map(seed_cells(s))
}

/// The position of the first `#P` at or after `from`, or the length.
fn find_marker(text: &[u8], from: usize) -> (r: usize)
    requires
        from <= text@.len(),
    ensures
        r == next_marker(text@, from as int),
        from <= r <= text@.len(),
        r < text@.len() ==> r + 2 <= text@.len(),
{
    let n = text.len();
    let mut i = from;
    while n - i > 1
        invariant
            from <= i <= n,
            n == text@.len(),
            next_marker(text@, from as int) == next_marker(text@, i as int),
        decreases n - i,
    {
        if text[i] == 35 && text[i + 1] == 80 {
            return i;
        }
        i = i + 1;
    }
    n
}

/// The position of the first newline in `[from, end)`, or `end`.
fn find_nl(text: &[u8], from: usize, end: usize) -> (r: usize)
    requires
        from <= end,
        end <= text@.len(),
    ensures
        r == next_nl(text@, from as int, end as int),
        from <= r <= end,
{
    let mut i = from;
    while i < end
        invariant
            from <= i <= end,
            end <= text@.len(),
            next_nl(text@, from as int, end as int) == next_nl(text@, i as int, end as int),
        decreases end - i,
    {
        if text[i] == 10 {
            return i;
        }
        i = i + 1;
    }
    i
}

/// The first non-whitespace position in `[from, end)`, or `end`.
fn skip_ws_px(text: &[u8], from: usize, end: usize) -> (r: usize)
    requires
        from <= end,
        end <= text@.len(),
    ensures
        r == skip_ws(text@, from as int, end as int),
        from <= r <= end,
{
    let mut i = from;
    while i < end
        invariant
            from <= i <= end,
            end <= text@.len(),
            skip_ws(text@, from as int, end as int) == skip_ws(text@, i as int, end as int),
        decreases end - i,
    {
        let c = text[i];
        if c == 32 || c == 9 || c == 10 || c == 12 || c == 13 {
            i = i + 1;
        } else {
            return i;
        }
    }
    i
}

/// The first whitespace position in `[from, end)`, or `end`.
fn tok_end_px(text: &[u8], from: usize, end: usize) -> (r: usize)
    requires
        from <= end,
        end <= text@.len(),
    ensures
        r == tok_end(text@, from as int, end as int),
        from <= r <= end,
{
    let mut i = from;
    while i < end
        invariant
            from <= i <= end,
            end <= text@.len(),
            tok_end(text@, from as int, end as int) == tok_end(text@, i as int, end as int),
        decreases end - i,
    {
        let c = text[i];
        if c == 32 || c == 9 || c == 10 || c == 12 || c == 13 {
            return i;
        }
        i = i + 1;
    }
    i
}

/// Read the integer token `[a, b)`, exactly as [`parse_int`] values it.
fn parse_int_px(text: &[u8], a: usize, b: usize) -> (r: Option<i32>)
    requires
        a <= b,
        b <= text@.len(),
    ensures
        match r {
            Some(v) => parse_int(text@, a as int, b as int) == Some(v as int),
            None => parse_int(text@, a as int, b as int) is None,
        },
{
    let ghost s = text@;
    let mut i = a;
    let mut neg = false;
    if i < b && (text[i] == 43 || text[i] == 45) {
        neg = text[i] == 45;
        i = i + 1;
    }
    let ghost d0 = i as int;
    if i >= b {
        return None;
    }
    let mut acc: i64 = 0;
    while i < b
        invariant
            s == text@,
            a <= d0 <= i <= b,
            b <= s.len(),
            d0 < b,
            0 <= acc <= 2147483648,
            all_digits(s, d0, i as int),
            dval(s, d0, b as int, 0) == dval(s, i as int, b as int, acc as int),
            d0 == (if a < b && (s[a as int] == 43 || s[a as int] == 45) {
                a + 1
            } else {
                a as int
            }),
            neg == (a < b && s[a as int] == 45),
        decreases b - i,
    {
        let c = text[i];
        if c < 48 || c > 57 {
            proof {
                assert(!all_digits(s, d0, b as int));
            }
            return None;
        }
        acc = acc * 10 + ((c - 48) as i64);
        if acc > 2147483648 {
            proof {
                if all_digits(s, d0, b as int) {
                    lemma_dval_lower(s, i as int + 1, b as int, acc as int);
                }
            }
            return None;
        }
        i = i + 1;
    }
    if neg {
        Some((-acc) as i32)
    } else {
        if acc > 2147483647 {
            return None;
        }
        Some(acc as i32)
    }
}

/// Scan one row `[rs, rend)` of block row index `rowi`, inserting each
/// starred cell with counter 1; the first unrepresentable star fails.
fn parse_row(text: &[u8], rs: usize, rend: usize, x: i32, y: i32, rowi: usize, g: &mut Grid) -> (r:
    Option<SeedError>)
    requires
        rs <= rend,
        rend <= text@.len(),
        old(g).wf(),
        old(g)@ == set_map(old(g)@.dom()),
    ensures
        final(g).wf(),
        final(g)@ == set_map(final(g)@.dom()),
        r == row_cells(
            text@,
            rs as int,
            rs as int,
            rend as int,
            x as int,
            (y as int) + (rowi as int),
        ).0,
        r is None ==> final(g)@.dom() == old(g)@.dom().union(
            row_cells(text@, rs as int, rs as int, rend as int, x as int, (y as int) + (
            rowi as int)).1,
        ),
{
    let ghost s = text@;
    let ghost yy = (y as int) + (rowi as int);
    let ghost dom0 = g@.dom();
    let ghost total = row_cells(s, rs as int, rs as int, rend as int, x as int, yy);
    let mut j = rs;
    while j < rend
        invariant
            s == text@,
            rs <= j <= rend,
            rend <= s.len(),
            g.wf(),
            g@ == set_map(g@.dom()),
            yy == (y as int) + (rowi as int),
            total == row_cells(s, rs as int, rs as int, rend as int, x as int, yy),
            total.0 == row_cells(s, rs as int, j as int, rend as int, x as int, yy).0,
            dom0.union(total.1) == g@.dom().union(
                row_cells(s, rs as int, j as int, rend as int, x as int, yy).1,
            ),
        decreases rend - j,
    {
        let ghost suffix = row_cells(s, rs as int, j as int, rend as int, x as int, yy);
        let ghost suffix1 = row_cells(s, rs as int, j as int + 1, rend as int, x as int, yy);
        if text[j] == 42 {
            let cx: i128 = (x as i128) + ((j - rs) as i128);
            let cy: i128 = (y as i128) + (rowi as i128);
            let ghost c = ((x as int) + (j as int - rs as int), yy);
            if cx >= -2147483648 && cx <= 2147483647 && cy >= -2147483648 && cy <= 2147483647 {
                proof {
                    assert(in_plane(c));
                    assert(suffix == (suffix1.0, suffix1.1.insert(c)));
                }
                let p = Position::new(cx as i32, cy as i32);
                let ghost gpre = g@;
                g.set(p, 1);
                proof {
                    assert(p@ == c);
                    assert(g@ == gpre.insert(c, 1u32));
                    assert(g@ == set_map(g@.dom())) by {
                        assert(g@.dom() =~= gpre.dom().insert(c));
                        assert(g@ =~= set_map(g@.dom()));
                    }
                    assert(dom0.union(total.1) =~= g@.dom().union(suffix1.1)) by {
                        assert(g@.dom() =~= gpre.dom().insert(c));
                        assert(gpre.dom().union(suffix.1) =~= g@.dom().union(suffix1.1));
                    }
                }
            } else {
                proof {
                    assert(!in_plane(c));
                    assert(suffix.0 == Some(SeedError::CoordinateOverflow));
                }
                return Some(SeedError::CoordinateOverflow);
            }
        } else {
            proof {
                assert(suffix == suffix1);
            }
        }
        j = j + 1;
    }
    proof {
        assert(row_cells(s, rs as int, rend as int, rend as int, x as int, yy) == (
        None::<SeedError>,
        Set::<(int, int)>::empty(),
        ));
        assert(g@.dom().union(Set::<(int, int)>::empty()) =~= g@.dom());
        assert(final(g)@.dom() == dom0.union(total.1));
    }
    None
}

/// Load one block whose content is `[start, end)`: parse the origin line,
/// then scan its rows.
fn parse_block(text: &[u8], start: usize, end: usize, g: &mut Grid) -> (r: Option<SeedError>)
    requires
        start <= end,
        end <= text@.len(),
        old(g).wf(),
        old(g)@ == set_map(old(g)@.dom()),
    ensures
        final(g).wf(),
        final(g)@ == set_map(final(g)@.dom()),
        r == block_cells(text@, start as int, end as int).0,
        r is None ==> final(g)@.dom() == old(g)@.dom().union(
            block_cells(text@, start as int, end as int).1,
        ),
{
    let ghost s = text@;
    let ghost dom0 = g@.dom();
    if start >= end {
        return Some(SeedError::BadOrigin);
    }
    let nl = find_nl(text, start, end);
    let oe = if nl > start && text[nl - 1] == 13 {
        nl - 1
    } else {
        nl
    };
    let a1 = skip_ws_px(text, start, oe);
    if a1 >= oe {
        return Some(SeedError::BadOrigin);
    }
    let b1 = tok_end_px(text, a1, oe);
    let x = match parse_int_px(text, a1, b1) {
        Some(v) => v,
        None => {
            return Some(SeedError::BadOrigin);
        },
    };
    let a2 = skip_ws_px(text, b1, oe);
    if a2 >= oe {
        return Some(SeedError::BadOrigin);
    }
    let b2 = tok_end_px(text, a2, oe);
    let y = match parse_int_px(text, a2, b2) {
        Some(v) => v,
        None => {
            return Some(SeedError::BadOrigin);
        },
    };
    if nl >= end {
        proof {
            assert(dom0.union(Set::<(int, int)>::empty()) =~= dom0);
        }
        return None;
    }
    let ghost rows_total = rows_cells(s, nl as int + 1, end as int, x as int, y as int);
    let mut pos = nl + 1;
    let mut rowi: usize = 0;
    while pos < end
        invariant
            s == text@,
            end <= s.len(),
            nl as int + 1 <= pos as int <= end as int,
            rowi < pos,
            g.wf(),
            g@ == set_map(g@.dom()),
            rows_total == rows_cells(s, nl as int + 1, end as int, x as int, y as int),
            rows_total.0 == rows_cells(
                s,
                pos as int,
                end as int,
                x as int,
                (y as int) + (rowi as int),
            ).0,
            dom0.union(rows_total.1) == g@.dom().union(
                rows_cells(s, pos as int, end as int, x as int, (y as int) + (rowi as int)).1,
            ),
            block_cells(s, start as int, end as int) == rows_total,
        decreases end - pos,
    {
        let ghost suffix = rows_cells(s, pos as int, end as int, x as int, (y as int) + (
        rowi as int));
        let rnl = find_nl(text, pos, end);
        let ghost gpre = g@;
        let e = parse_row(text, pos, rnl, x, y, rowi, g);
        let ghost rc = row_cells(s, pos as int, pos as int, rnl as int, x as int, (y as int) + (
        rowi as int));
        match e {
            Some(err) => {
                proof {
                    assert(suffix.0 == Some(err));
                }
                return Some(err);
            },
            None => {},
        }
        proof {
            if rnl < end {
                let rest = rows_cells(s, rnl as int + 1, end as int, x as int, (y as int) + (
                rowi as int) + 1);
                assert(suffix == (rest.0, rc.1.union(rest.1)));
                assert(dom0.union(rows_total.1) =~= g@.dom().union(rest.1)) by {
                    assert(g@.dom() =~= gpre.dom().union(rc.1));
                    assert(gpre.dom().union(suffix.1) =~= g@.dom().union(rest.1));
                }
            } else {
                assert(suffix == rc);
                assert(rows_cells(s, end as int, end as int, x as int, (y as int) + (rowi as int)
                    + 1) == (None::<SeedError>, Set::<(int, int)>::empty()));
                assert(dom0.union(rows_total.1) =~= g@.dom().union(Set::<(int, int)>::empty()))
                    by {
                    assert(g@.dom() =~= gpre.dom().union(rc.1));
                }
            }
        }
        if rnl >= end {
            pos = end;
        } else {
            pos = rnl + 1;
        }
        rowi = rowi + 1;
    }
    proof {
        assert(rows_cells(s, pos as int, end as int, x as int, (y as int) + (rowi as int)) == (
        None::<SeedError>,
        Set::<(int, int)>::empty(),
        ));
        assert(g@.dom().union(Set::<(int, int)>::empty()) =~= g@.dom());
        assert(final(g)@.dom() == dom0.union(rows_total.1));
    }
    None
}

impl Grid {
    /// Load a grid from seed text.  Succeeds exactly when the text holds
    /// no malformed block, and then holds exactly the marked coordinates,
    /// each at counter 1; empty input yields the empty grid.
    pub fn from_seed(text: &[u8]) -> (r: Result<Grid, SeedError>)
        ensures
            match r {
                Ok(g) => g.wf() && seed_err(text@) is None && g@ == seed_map(text@),
                Err(e) => seed_err(text@) == Some(e),
            },
    {
        let ghost s = text@;
        let n = text.len();
        let mut g = Grid::new();
        let mut m = find_marker(text, 0);
        proof {
            assert(Set::<(int, int)>::empty().union(blocks_cells(s, m as int).1) =~= blocks_cells(
                s,
                m as int,
            ).1);
            assert(g@ =~= set_map(g@.dom()));
        }
        while m < n
            invariant
                s == text@,
                n == s.len(),
                m <= n,
                m < n ==> m + 2 <= n,
                g.wf(),
                g@ == set_map(g@.dom()),
                seed_err(s) == blocks_cells(s, m as int).0,
                seed_cells(s) == g@.dom().union(blocks_cells(s, m as int).1),
            decreases n - m,
        {
            let from2 = m + 2;
            let nxt = find_marker(text, from2);
            let ghost bc = block_cells(s, from2 as int, nxt as int);
            let ghost gdom_pre = g@.dom();
            let e = parse_block(text, from2, nxt, &mut g);
            match e {
                Some(err) => {
                    proof {
                        assert(blocks_cells(s, m as int).0 == Some(err));
                    }
                    return Err(err);
                },
                None => {},
            }
            proof {
                let rest = blocks_cells(s, nxt as int);
                assert(blocks_cells(s, m as int) == (rest.0, bc.1.union(rest.1)));
                assert(seed_cells(s) == g@.dom().union(rest.1)) by {
                    assert(g@.dom() =~= gdom_pre.union(bc.1));
                    assert(gdom_pre.union(bc.1.union(rest.1)) =~= g@.dom().union(rest.1));
                }
            }
            m = nxt;
        }
        proof {
            assert(blocks_cells(s, m as int) == (None::<SeedError>, Set::<(int, int)>::empty()));
            assert(g@.dom().union(Set::<(int, int)>::empty()) =~= g@.dom());
            assert(g@.dom() == seed_cells(s));
        }
        Ok(g)
    }
}

} // verus!
