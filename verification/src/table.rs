//! The aggregation table: microstates bucketed by their `(ML, MS)` totals.
//!
//! The table is a dense grid of cells. Row `a` stands for `ML = a - m_off`
//! and column `b` for `MS = 2b - s_off`, so the grid covers
//! `ML in -m_off ..= m_off` and `MS in {-s_off, -s_off + 2, ..., s_off}`.
//! A cell holds the identities (positions in the microstate list) of the
//! microstates with those totals; only the cell sizes matter for term
//! extraction, the identities are kept for tracing a derivation.

use vstd::prelude::*;
use crate::states::Microstate;

verus! {

/// The aggregation table: `grid[a][b]` lists the microstates (by position in
/// the enumeration) whose totals are `(a - m_off, 2b - s_off)`.
pub struct AggTable {
    pub grid: Vec<Vec<Vec<usize>>>,
}

/// The sizes of the cells of one row.
pub open spec fn row_counts(row: Seq<Vec<usize>>) -> Seq<nat> {
    row.map_values(|cell: Vec<usize>| cell@.len())
}

/// The sizes of all cells of the grid: what term extraction is a function of.
pub open spec fn counts(g: Seq<Vec<Vec<usize>>>) -> Seq<Seq<nat>> {
    g.map_values(|row: Vec<Vec<usize>>| row_counts(row@))
}

/// A well-formed count grid: rectangular, nonempty, an odd number of rows.
pub open spec fn grid_wf(c: Seq<Seq<nat>>) -> bool {
    &&& c.len() >= 1
    &&& c.len() % 2 == 1
    &&& c[0].len() >= 1
    &&& (forall|a: int| 0 <= a < c.len() ==> (#[trigger] c[a]).len() == c[0].len())
}

/// The `(ML, MS)` totals of each microstate.
pub open spec fn pairs(m: Seq<Microstate>) -> Seq<(int, int)> {
    m.map_values(|x: Microstate| (x.ml as int, x.ms as int))
}

/// How many entries of `ps` equal `p`.
pub open spec fn occurrences(ps: Seq<(int, int)>, p: (int, int)) -> nat
    decreases ps.len(),
{
    if ps.len() == 0 {
        0
    } else {
        occurrences(ps.drop_last(), p) + if ps.last() == p {
            1nat
        } else {
            0nat
        }
    }
}

/// The count grid that aggregating the totals `ps` must produce.
pub open spec fn counts_spec(ps: Seq<(int, int)>, m_off: int, s_off: int) -> Seq<Seq<nat>> {
    Seq::new(
        (2 * m_off + 1) as nat,
        |a: int| Seq::new((s_off + 1) as nat, |b: int| occurrences(ps, (a - m_off, 2 * b - s_off))),
    )
}

/// Extending the totals by one entry raises exactly that entry's count.
proof fn lemma_occ_take_step(ps: Seq<(int, int)>, i: int)
    requires
        0 <= i < ps.len(),
    ensures
        forall|q: (int, int)| occurrences(#[trigger] ps.take(i + 1), q) == occurrences(
            ps.take(i),
            q,
        ) + if q == ps[i] {
            1nat
        } else {
            0nat
        },
{
    assert forall|q: (int, int)| occurrences(#[trigger] ps.take(i + 1), q) == occurrences(
        ps.take(i),
        q,
    ) + (if q == ps[i] {
        1nat
    } else {
        0nat
    }) by {
        assert(ps.take(i + 1).drop_last() =~= ps.take(i));
        assert(ps.take(i + 1).last() == ps[i]);
    }
}

/// Buckets every microstate into the cell of its `(ML, MS)` totals.
///
/// The produced grid's cell sizes are exactly `counts_spec` of the totals:
/// cell `(a, b)` holds as many entries as there are microstates with
/// `ML = a - m_off` and `MS = 2b - s_off`.
pub fn aggregate(micro: &Vec<Microstate>, m_off: usize, s_off: usize) -> (t: AggTable)
    requires
        m_off <= 0xffff,
        s_off <= 0xffff,
        forall|i: int|
            0 <= i < micro@.len() ==> -(m_off as int) <= (#[trigger] micro@[i]).ml as int
                <= m_off as int && -(s_off as int) <= micro@[i].ms as int <= s_off as int && ((
            micro@[i].ms as int) + (s_off as int)) % 2 == 0,
    ensures
        t.grid@.len() == 2 * m_off + 1,
        forall|a: int| 0 <= a < t.grid@.len() ==> (#[trigger] t.grid@[a])@.len() == s_off + 1,
        counts(t.grid@) == counts_spec(pairs(micro@), m_off as int, s_off as int),
        grid_wf(counts(t.grid@)),
{
    let ghost ps = pairs(micro@);
    let ghost moff = m_off as int;
    let ghost soff = s_off as int;
    let rows: usize = 2 * m_off + 1;
    let cols: usize = s_off + 1;
    let mut grid: Vec<Vec<Vec<usize>>> = Vec::new();
    let mut r: usize = 0;
    while r < rows
        invariant
            r <= rows,
            grid@.len() == r,
            forall|a: int| 0 <= a < r ==> (#[trigger] grid@[a])@.len() == cols,
            forall|a: int, b: int|
                0 <= a < r && 0 <= b < cols ==> (#[trigger] grid@[a]@[b])@.len() == 0,
        decreases rows - r,
    {
        let mut row: Vec<Vec<usize>> = Vec::new();
        let mut cidx: usize = 0;
        while cidx < cols
            invariant
                cidx <= cols,
                row@.len() == cidx,
                forall|b: int| 0 <= b < cidx ==> (#[trigger] row@[b])@.len() == 0,
            decreases cols - cidx,
        {
            row.push(Vec::new());
            cidx = cidx + 1;
        }
        grid.push(row);
        r = r + 1;
    }
    proof {
        assert(counts(grid@) =~~= counts_spec(ps.take(0), moff, soff)) by {
            assert(ps.take(0) =~= Seq::<(int, int)>::empty());
            assert forall|x: int, y: int|
                0 <= x < 2 * moff + 1 && 0 <= y < soff + 1 implies counts(grid@)[x][y]
                == occurrences(ps.take(0), (x - moff, 2 * y - soff)) by {
                assert(grid@[x]@[y]@.len() == 0);
            }
        }
    }
    let mut i: usize = 0;
    while i < micro.len()
        invariant
            i <= micro@.len(),
            ps == pairs(micro@),
            moff == m_off as int,
            soff == s_off as int,
            m_off <= 0xffff,
            s_off <= 0xffff,
            rows == 2 * m_off + 1,
            cols == s_off + 1,
            forall|u: int|
                0 <= u < micro@.len() ==> -(m_off as int) <= (#[trigger] micro@[u]).ml as int
                    <= m_off as int && -(s_off as int) <= micro@[u].ms as int <= s_off as int && ((
                micro@[u].ms as int) + (s_off as int)) % 2 == 0,
            grid@.len() == rows,
            forall|a: int| 0 <= a < grid@.len() ==> (#[trigger] grid@[a])@.len() == cols,
            counts(grid@) == counts_spec(ps.take(i as int), moff, soff),
        decreases micro@.len() - i,
    {
        let ml = micro[i].ml;
        let ms = micro[i].ms;
        let a = ((ml as i32) + (m_off as i32)) as usize;
        let b = (((ms as i32) + (s_off as i32)) / 2) as usize;
        let ghost p = ps[i as int];
        proof {
            assert(p == (ml as int, ms as int));
            assert(a as int == p.0 + moff);
            assert(2 * (b as int) == p.1 + soff);
            assert(a < rows && b < cols);
        }
        let ghost oldg = grid@;
        grid[a][b].push(i);
        proof {
            lemma_occ_take_step(ps, i as int);
            assert(grid@[a as int]@[b as int]@ == oldg[a as int]@[b as int]@.push(i));
            assert forall|x: int, y: int|
                0 <= x < rows && 0 <= y < cols implies counts(grid@)[x][y] == counts_spec(
                ps.take(i as int + 1),
                moff,
                soff,
            )[x][y] by {
                let q = (x - moff, 2 * y - soff);
                assert(counts(grid@)[x] == row_counts(grid@[x]@));
                assert(counts(grid@)[x][y] == grid@[x]@[y]@.len());
                assert(counts(oldg)[x] == row_counts(oldg[x]@));
                assert(counts(oldg)[x][y] == oldg[x]@[y]@.len());
                assert(counts(oldg)[x][y] == occurrences(ps.take(i as int), q));
                assert(counts_spec(ps.take(i as int + 1), moff, soff)[x][y] == occurrences(
                    ps.take(i as int + 1),
                    q,
                ));
                if x == a as int && y == b as int {
                    assert(q == p);
                    assert(grid@[x]@[y]@.len() == oldg[x]@[y]@.len() + 1);
                } else {
                    assert(q != p);
                    if x == a as int {
                        assert(grid@[x]@[y] == oldg[x]@[y]);
                    } else {
                        assert(grid@[x] == oldg[x]);
                    }
                }
            }
            assert(counts(grid@) =~~= counts_spec(ps.take(i as int + 1), moff, soff));
        }
        i = i + 1;
    }
    proof {
        assert(ps.take(micro@.len() as int) =~= ps);
    }
    AggTable { grid }
}

} // verus!
