//! Term extraction: the peeling rule over the aggregation table.
//!
//! While the table holds microstates, take the greatest occupied `ML` row,
//! within it the greatest occupied `MS` column; those maxima name a term with
//! orbital momentum `L = ML` and doubled spin `S = MS`. The term accounts for
//! one microstate in every cell of the `(2L+1) x (S+1)` rectangle centred on
//! the table's middle, so one entry is removed from each such cell; the table
//! empties exactly when the accounting works out.
//!
//! `peel_spec` is the mathematical form of the rule: it maps a count grid to
//! the full sequence of deduced `(L, doubled S)` pairs, or to `None` when a
//! cell that the rule expects to be occupied is empty (an internal-invariant
//! violation that the physical table structure never produces).

use vstd::prelude::*;
use crate::table::{AggTable, counts, row_counts, grid_wf, counts_spec, occurrences};
use crate::{TermType, TermMomentum, ExtractError};

verus! {

/// One less, at zero floor.
pub open spec fn sub1(n: nat) -> nat {
    if n >= 1 {
        (n - 1) as nat
    } else {
        0
    }
}

/// Sum of one row of counts.
pub open spec fn row_total(r: Seq<nat>) -> nat
    decreases r.len(),
{
    if r.len() == 0 {
        0
    } else {
        row_total(r.drop_last()) + r.last()
    }
}

/// Sum of all counts of the grid: the number of microstates it still holds.
pub open spec fn grid_total(c: Seq<Seq<nat>>) -> nat
    decreases c.len(),
{
    if c.len() == 0 {
        0
    } else {
        grid_total(c.drop_last()) + row_total(c.last())
    }
}

/// Whether row `a` holds any microstate.
pub open spec fn row_used(c: Seq<Seq<nat>>, a: int) -> bool {
    exists|b: int| 0 <= b < c[a].len() && c[a][b] > 0
}

/// The greatest used row index at most `a`, or -1 if none.
pub open spec fn top_row_from(c: Seq<Seq<nat>>, a: int) -> int
    decreases a + 1,
{
    if a < 0 {
        -1
    } else if row_used(c, a) {
        a
    } else {
        top_row_from(c, a - 1)
    }
}

/// The greatest positive column index of the row at most `b`, or -1 if none.
pub open spec fn top_col_from(r: Seq<nat>, b: int) -> int
    decreases b + 1,
{
    if b < 0 {
        -1
    } else if r[b] > 0 {
        b
    } else {
        top_col_from(r, b - 1)
    }
}

/// Grid with the cell `(a, b)` decremented.
pub open spec fn cell_dec(c: Seq<Seq<nat>>, a: int, b: int) -> Seq<Seq<nat>> {
    c.update(a, c[a].update(b, sub1(c[a][b])))
}

/// Grid with the cells `(a, blo ..= bhi)` decremented.
pub open spec fn dec_cols(c: Seq<Seq<nat>>, a: int, blo: int, bhi: int) -> Seq<Seq<nat>>
    decreases bhi + 1 - blo,
{
    if blo > bhi {
        c
    } else {
        dec_cols(cell_dec(c, a, blo), a, blo + 1, bhi)
    }
}

/// Grid with every cell of the rectangle decremented.
pub open spec fn dec_rect(c: Seq<Seq<nat>>, alo: int, ahi: int, blo: int, bhi: int) -> Seq<
    Seq<nat>,
>
    decreases ahi + 1 - alo,
{
    if alo > ahi {
        c
    } else {
        dec_rect(dec_cols(c, alo, blo, bhi), alo + 1, ahi, blo, bhi)
    }
}

/// Every cell of the rectangle is occupied.
pub open spec fn rect_pos(c: Seq<Seq<nat>>, alo: int, ahi: int, blo: int, bhi: int) -> bool {
    forall|x: int, y: int|
        alo <= x <= ahi && blo <= y <= bhi ==> #[trigger] c[x][y] >= 1
}

pub proof fn lemma_top_row_props(c: Seq<Seq<nat>>, a0: int)
    requires
        a0 >= -1,
    ensures
        -1 <= top_row_from(c, a0) <= a0,
        top_row_from(c, a0) >= 0 ==> row_used(c, top_row_from(c, a0)),
        forall|x: int| top_row_from(c, a0) < x <= a0 ==> !row_used(c, x),
    decreases a0 + 1,
{
    if a0 < 0 {
    } else if row_used(c, a0) {
    } else {
        lemma_top_row_props(c, a0 - 1);
    }
}

pub proof fn lemma_top_col_props(r: Seq<nat>, b0: int)
    requires
        b0 >= -1,
    ensures
        -1 <= top_col_from(r, b0) <= b0,
        top_col_from(r, b0) >= 0 ==> r[top_col_from(r, b0)] > 0,
        forall|y: int| top_col_from(r, b0) < y <= b0 ==> r[y] == 0,
    decreases b0 + 1,
{
    if b0 < 0 {
    } else if r[b0] > 0 {
    } else {
        lemma_top_col_props(r, b0 - 1);
    }
}

pub proof fn lemma_row_zero(r: Seq<nat>)
    requires
        forall|y: int| 0 <= y < r.len() ==> r[y] == 0,
    ensures
        row_total(r) == 0,
    decreases r.len(),
{
    if r.len() == 0 {
    } else {
        lemma_row_zero(r.drop_last());
    }
}

/// A grid with no used row holds nothing.
pub proof fn lemma_unused_zero(c: Seq<Seq<nat>>)
    requires
        forall|x: int| 0 <= x < c.len() ==> !row_used(c, x),
    ensures
        grid_total(c) == 0,
    decreases c.len(),
{
    if c.len() == 0 {
    } else {
        let d = c.drop_last();
        assert forall|x: int| 0 <= x < d.len() implies !row_used(d, x) by {
            assert(d[x] == c[x]);
            assert(!row_used(c, x));
            if row_used(d, x) {
                let b = choose|b: int| 0 <= b < d[x].len() && d[x][b] > 0;
                assert(0 <= b < c[x].len() && c[x][b] > 0);
            }
        }
        lemma_unused_zero(d);
        assert(!row_used(c, c.len() - 1));
        assert forall|y: int| 0 <= y < c.last().len() implies c.last()[y] == 0 by {
            if c.last()[y] > 0 {
                assert(0 <= y < c[c.len() - 1].len() && c[c.len() - 1][y] > 0);
                assert(row_used(c, c.len() - 1));
            }
        }
        lemma_row_zero(c.last());
    }
}

pub proof fn lemma_row_total_update(r: Seq<nat>, b: int, v: nat)
    requires
        0 <= b < r.len(),
    ensures
        row_total(r.update(b, v)) == row_total(r) - r[b] + v,
    decreases r.len(),
{
    let u = r.update(b, v);
    if b == r.len() - 1 {
        assert(u.drop_last() =~= r.drop_last());
        assert(u.last() == v);
    } else {
        assert(u.drop_last() =~= r.drop_last().update(b, v));
        assert(u.last() == r.last());
        lemma_row_total_update(r.drop_last(), b, v);
    }
}

pub proof fn lemma_grid_total_update(c: Seq<Seq<nat>>, a: int, rw: Seq<nat>)
    requires
        0 <= a < c.len(),
    ensures
        grid_total(c.update(a, rw)) == grid_total(c) - row_total(c[a]) + row_total(rw),
    decreases c.len(),
{
    let u = c.update(a, rw);
    if a == c.len() - 1 {
        assert(u.drop_last() =~= c.drop_last());
        assert(u.last() == rw);
    } else {
        assert(u.drop_last() =~= c.drop_last().update(a, rw));
        assert(u.last() == c.last());
        lemma_grid_total_update(c.drop_last(), a, rw);
    }
}

pub proof fn lemma_cell_dec(c: Seq<Seq<nat>>, a: int, b: int)
    requires
        0 <= a < c.len(),
        0 <= b < c[a].len(),
    ensures
        cell_dec(c, a, b).len() == c.len(),
        forall|x: int| 0 <= x < c.len() ==> (#[trigger] cell_dec(c, a, b)[x]).len() == c[x].len(),
        forall|x: int, y: int|
            0 <= x < c.len() && 0 <= y < c[x].len() ==> #[trigger] cell_dec(c, a, b)[x][y] == (
            if x == a && y == b {
                sub1(c[a][b])
            } else {
                c[x][y]
            }),
        c[a][b] >= 1 ==> grid_total(cell_dec(c, a, b)) + 1 == grid_total(c),
{
    if c[a][b] >= 1 {
        lemma_row_total_update(c[a], b, sub1(c[a][b]));
        lemma_grid_total_update(c, a, c[a].update(b, sub1(c[a][b])));
    }
}

pub proof fn lemma_dec_cols(c: Seq<Seq<nat>>, a: int, blo: int, bhi: int)
    requires
        0 <= a < c.len(),
        0 <= blo,
        bhi < c[a].len(),
    ensures
        dec_cols(c, a, blo, bhi).len() == c.len(),
        forall|x: int|
            0 <= x < c.len() ==> (#[trigger] dec_cols(c, a, blo, bhi)[x]).len() == c[x].len(),
        forall|x: int, y: int|
            0 <= x < c.len() && 0 <= y < c[x].len() ==> #[trigger] dec_cols(c, a, blo, bhi)[x][y]
                == (if x == a && blo <= y <= bhi {
                sub1(c[x][y])
            } else {
                c[x][y]
            }),
        (forall|y: int| blo <= y <= bhi ==> #[trigger] c[a][y] >= 1) ==> grid_total(
            dec_cols(c, a, blo, bhi),
        ) + (if blo <= bhi + 1 {
            bhi + 1 - blo
        } else {
            0
        }) == grid_total(c),
    decreases bhi + 1 - blo,
{
    if blo > bhi {
    } else {
        let c1 = cell_dec(c, a, blo);
        lemma_cell_dec(c, a, blo);
        lemma_dec_cols(c1, a, blo + 1, bhi);
    }
}

pub proof fn lemma_dec_rect(c: Seq<Seq<nat>>, alo: int, ahi: int, blo: int, bhi: int)
    requires
        0 <= alo,
        ahi < c.len(),
        0 <= blo,
        forall|x: int| 0 <= x < c.len() ==> bhi < (#[trigger] c[x]).len(),
    ensures
        dec_rect(c, alo, ahi, blo, bhi).len() == c.len(),
        forall|x: int|
            0 <= x < c.len() ==> (#[trigger] dec_rect(c, alo, ahi, blo, bhi)[x]).len()
                == c[x].len(),
        forall|x: int, y: int|
            0 <= x < c.len() && 0 <= y < c[x].len() ==> #[trigger] dec_rect(
                c,
                alo,
                ahi,
                blo,
                bhi,
            )[x][y] == (if alo <= x <= ahi && blo <= y <= bhi {
                sub1(c[x][y])
            } else {
                c[x][y]
            }),
        rect_pos(c, alo, ahi, blo, bhi) && alo <= ahi + 1 && blo <= bhi + 1 ==> grid_total(
            dec_rect(c, alo, ahi, blo, bhi),
        ) + (ahi + 1 - alo) * (bhi + 1 - blo) == grid_total(c),
    decreases ahi + 1 - alo,
{
    if alo > ahi {
        if rect_pos(c, alo, ahi, blo, bhi) && alo <= ahi + 1 && blo <= bhi + 1 {
            assert((ahi + 1 - alo) * (bhi + 1 - blo) == 0) by (nonlinear_arith)
                requires
                    ahi + 1 - alo == 0,
            ;
        }
    } else {
        let c1 = dec_cols(c, alo, blo, bhi);
        lemma_dec_cols(c, alo, blo, bhi);
        lemma_dec_rect(c1, alo + 1, ahi, blo, bhi);
        if rect_pos(c, alo, ahi, blo, bhi) && blo <= bhi + 1 {
            assert forall|y: int| blo <= y <= bhi implies #[trigger] c[alo][y] >= 1 by {
                assert(c[alo][y] >= 1);
            }
            assert forall|x: int, y: int|
                alo + 1 <= x <= ahi && blo <= y <= bhi implies #[trigger] c1[x][y] >= 1 by {
                assert(c[x][y] >= 1);
            }
            assert(grid_total(c1) + (bhi + 1 - blo) == grid_total(c));
            assert((ahi + 1 - alo) * (bhi + 1 - blo) == (bhi + 1 - blo) + (ahi - alo) * (bhi + 1
                - blo)) by (nonlinear_arith);
        }
    }
}

/// The peeling rule as a function of the count grid alone.
///
/// Yields the deduced `(L, doubled S)` pairs in deduction order, or `None`
/// when the rule meets an empty cell it needs (never on a table that came
/// from a real microstate enumeration).
pub open spec fn peel_spec(g: Seq<Seq<nat>>) -> Option<Seq<(int, int)>>
    decreases grid_total(g)
    via peel_spec_dec
{
    if !grid_wf(g) {
        None
    } else {
        let rr = g.len() as int;
        let cc = g[0].len() as int;
        let a = top_row_from(g, rr - 1);
        if a < 0 {
            Some(Seq::<(int, int)>::empty())
        } else {
            let b = top_col_from(g[a], cc - 1);
            if 2 * a < rr - 1 || 2 * b < cc - 1 || !rect_pos(g, rr - 1 - a, a, cc - 1 - b, b) {
                None
            } else {
                match peel_spec(dec_rect(g, rr - 1 - a, a, cc - 1 - b, b)) {
                    Some(ts) => Some(seq![(a - (rr - 1) / 2, 2 * b - (cc - 1))] + ts),
                    None => None,
                }
            }
        }
    }
}

#[via_fn]
proof fn peel_spec_dec(g: Seq<Seq<nat>>) {
    if grid_wf(g) {
        let rr = g.len() as int;
        let cc = g[0].len() as int;
        let a = top_row_from(g, rr - 1);
        if a >= 0 {
            lemma_top_row_props(g, rr - 1);
            let b = top_col_from(g[a], cc - 1);
            lemma_top_col_props(g[a], cc - 1);
            if !(2 * a < rr - 1 || 2 * b < cc - 1 || !rect_pos(g, rr - 1 - a, a, cc - 1 - b, b)) {
                lemma_dec_rect(g, rr - 1 - a, a, cc - 1 - b, b);
                assert((a + 1 - (rr - 1 - a)) * (b + 1 - (cc - 1 - b)) >= 1) by (nonlinear_arith)
                    requires
                        a + 1 - (rr - 1 - a) >= 1,
                        b + 1 - (cc - 1 - b) >= 1,
                ;
            }
        }
    }
}

/// The number of microstates a term sequence accounts for:
/// `sum of (2L + 1) * (2S + 1)` with `2S + 1` the multiplet `s + 1`.
pub open spec fn weight_sum(ts: Seq<(int, int)>) -> int
    decreases ts.len(),
{
    if ts.len() == 0 {
        0
    } else {
        (2 * ts.first().0 + 1) * (ts.first().1 + 1) + weight_sum(ts.drop_first())
    }
}

/// Conservation: a successful peel accounts for every microstate of the
/// table, term by term: `sum (2L+1)(2S+1) == grid total`.
pub proof fn lemma_peel_conservation(g: Seq<Seq<nat>>)
    ensures
        peel_spec(g) matches Some(ts) ==> weight_sum(ts) == grid_total(g),
    decreases grid_total(g),
{
    if !grid_wf(g) {
    } else {
        let rr = g.len() as int;
        let cc = g[0].len() as int;
        let a = top_row_from(g, rr - 1);
        lemma_top_row_props(g, rr - 1);
        if a < 0 {
            lemma_unused_zero(g);
            assert(weight_sum(Seq::<(int, int)>::empty()) == 0);
        } else {
            let b = top_col_from(g[a], cc - 1);
            lemma_top_col_props(g[a], cc - 1);
            if 2 * a < rr - 1 || 2 * b < cc - 1 || !rect_pos(g, rr - 1 - a, a, cc - 1 - b, b) {
            } else {
                let g2 = dec_rect(g, rr - 1 - a, a, cc - 1 - b, b);
                lemma_dec_rect(g, rr - 1 - a, a, cc - 1 - b, b);
                assert((a + 1 - (rr - 1 - a)) * (b + 1 - (cc - 1 - b)) >= 1) by (nonlinear_arith)
                    requires
                        a + 1 - (rr - 1 - a) >= 1,
                        b + 1 - (cc - 1 - b) >= 1,
                ;
                lemma_peel_conservation(g2);
                if peel_spec(g2) is Some {
                    let ts2 = peel_spec(g2)->Some_0;
                    let l = a - (rr - 1) / 2;
                    let s = 2 * b - (cc - 1);
                    let t = (l, s);
                    let ts = seq![t] + ts2;
                    assert(ts.first() == t);
                    assert(ts.drop_first() =~= ts2);
                    assert((rr - 1) % 2 == 0);
                    assert(2 * ((rr - 1) / 2) == rr - 1);
                    assert(2 * l + 1 == a + 1 - (rr - 1 - a));
                    assert(s + 1 == b + 1 - (cc - 1 - b));
                    assert((2 * l + 1) * (s + 1) == (a + 1 - (rr - 1 - a)) * (b + 1 - (cc - 1
                        - b)));
                }
            }
        }
    }
}

/// A grid aggregated from totals holds exactly one entry per total: its
/// grand total is the number of microstates.
pub proof fn lemma_counts_spec_total(ps: Seq<(int, int)>, m_off: int, s_off: int)
    requires
        m_off >= 0,
        s_off >= 0,
        forall|i: int|
            0 <= i < ps.len() ==> -m_off <= (#[trigger] ps[i]).0 <= m_off && -s_off <= ps[i].1
                <= s_off && (ps[i].1 + s_off) % 2 == 0,
    ensures
        grid_total(counts_spec(ps, m_off, s_off)) == ps.len(),
    decreases ps.len(),
{
    let g = counts_spec(ps, m_off, s_off);
    if ps.len() == 0 {
        assert forall|x: int| 0 <= x < g.len() implies !row_used(g, x) by {
            if row_used(g, x) {
                let b = choose|b: int| 0 <= b < g[x].len() && g[x][b] > 0;
                assert(g[x][b] == occurrences(ps, (x - m_off, 2 * b - s_off)));
            }
        }
        lemma_unused_zero(g);
    } else {
        let d = ps.drop_last();
        assert(forall|i: int|
            0 <= i < d.len() ==> -m_off <= (#[trigger] d[i]).0 <= m_off && -s_off <= d[i].1
                <= s_off && (d[i].1 + s_off) % 2 == 0);
        lemma_counts_spec_total(d, m_off, s_off);
        let p = ps.last();
        let a = p.0 + m_off;
        let b = (p.1 + s_off) / 2;
        assert(0 <= a < 2 * m_off + 1);
        assert(2 * b == p.1 + s_off);
        assert(0 <= b < s_off + 1);
        let base = counts_spec(d, m_off, s_off);
        let upd = base.update(a, base[a].update(b, (base[a][b] + 1) as nat));
        assert forall|x: int, y: int|
            0 <= x < 2 * m_off + 1 && 0 <= y < s_off + 1 implies g[x][y] == upd[x][y] by {
            let q = (x - m_off, 2 * y - s_off);
            assert(g[x][y] == occurrences(ps, q));
            assert(base[x][y] == occurrences(d, q));
            if x == a && y == b {
                assert(q == p);
            } else {
                assert(q != p);
            }
        }
        assert(g =~~= upd);
        lemma_row_total_update(base[a], b, (base[a][b] + 1) as nat);
        lemma_grid_total_update(base, a, base[a].update(b, (base[a][b] + 1) as nat));
    }
}

/// Skipping unused rows does not change the top used row.
pub proof fn lemma_top_row_skip(c: Seq<Seq<nat>>, hi: int, m: int)
    requires
        -1 <= m <= hi,
        forall|x: int| m < x <= hi ==> !row_used(c, x),
    ensures
        top_row_from(c, hi) == top_row_from(c, m),
    decreases hi - m,
{
    if hi == m {
    } else {
        assert(!row_used(c, hi));
        lemma_top_row_skip(c, hi - 1, m);
    }
}

/// Skipping empty cells does not change the top occupied column.
pub proof fn lemma_top_col_skip(r: Seq<nat>, hi: int, m: int)
    requires
        -1 <= m <= hi,
        forall|y: int| m < y <= hi ==> r[y] == 0,
    ensures
        top_col_from(r, hi) == top_col_from(r, m),
    decreases hi - m,
{
    if hi == m {
    } else {
        lemma_top_col_skip(r, hi - 1, m);
    }
}

/// A table holding one microstate with totals `(0, 0)` peels to exactly one
/// term, the singlet `L = 0, doubled S = 0`.
pub proof fn lemma_singleton_table_peel(m_off: int, s_off: int)
    requires
        m_off >= 0,
        s_off >= 0,
        s_off % 2 == 0,
    ensures
        peel_spec(counts_spec(seq![(0int, 0int)], m_off, s_off)) == Some(seq![(0int, 0int)]),
{
    let p = (0int, 0int);
    let ps = seq![p];
    let g = counts_spec(ps, m_off, s_off);
    let rr = 2 * m_off + 1;
    let cc = s_off + 1;
    let bc = s_off / 2;
    assert(ps.drop_last() =~= Seq::<(int, int)>::empty());
    assert(ps.last() == p);
    assert forall|q: (int, int)| occurrences(ps, q) == (if q == p {
        1nat
    } else {
        0nat
    }) by {
        assert(occurrences(Seq::<(int, int)>::empty(), q) == 0);
    }
    assert(2 * bc == s_off);
    assert forall|x: int, y: int| 0 <= x < rr && 0 <= y < cc implies #[trigger] g[x][y] == (
    if x == m_off && y == bc {
        1nat
    } else {
        0nat
    }) by {
        let q = (x - m_off, 2 * y - s_off);
        assert(g[x][y] == occurrences(ps, q));
        if x == m_off && y == bc {
            assert(q == p);
        } else {
            assert(q != p);
        }
    }
    assert(grid_wf(g));
    assert forall|x: int| m_off < x <= rr - 1 implies !row_used(g, x) by {
        if row_used(g, x) {
            let b = choose|b: int| 0 <= b < g[x].len() && g[x][b] > 0;
            assert(g[x][b] == 0);
        }
    }
    lemma_top_row_skip(g, rr - 1, m_off);
    assert(g[m_off][bc] > 0);
    assert(row_used(g, m_off));
    assert(top_row_from(g, m_off) == m_off);
    assert forall|y: int| bc < y <= cc - 1 implies g[m_off][y] == 0 by {}
    lemma_top_col_skip(g[m_off], cc - 1, bc);
    assert(top_col_from(g[m_off], bc) == bc);
    assert(rect_pos(g, rr - 1 - m_off, m_off, cc - 1 - bc, bc));
    lemma_dec_rect(g, m_off, m_off, bc, bc);
    let g2 = dec_rect(g, m_off, m_off, bc, bc);
    assert forall|x: int| 0 <= x < rr implies !row_used(g2, x) by {
        if row_used(g2, x) {
            let b = choose|b: int| 0 <= b < g2[x].len() && g2[x][b] > 0;
            assert(g2[x].len() == g[x].len());
            assert(g2[x][b] == 0);
        }
    }
    assert(grid_wf(g2)) by {
        assert forall|x: int| 0 <= x < g2.len() implies (#[trigger] g2[x]).len()
            == g2[0].len() by {
            assert(g2[x].len() == g[x].len());
            assert(g2[0].len() == g[0].len());
        }
    }
    lemma_top_row_skip(g2, rr - 1, -1);
    assert(peel_spec(g2) == Some(Seq::<(int, int)>::empty()));
    assert((rr - 1) / 2 == m_off);
    assert(peel_spec(g) == Some(seq![(m_off - (rr - 1) / 2, 2 * bc - (cc - 1))] + Seq::<(
        int,
        int,
    )>::empty()));
    assert(seq![(0int, 0int)] + Seq::<(int, int)>::empty() =~= seq![(0int, 0int)]);
}

/// `occurrences` is the multiset count: order of the totals is irrelevant.
pub proof fn lemma_occurrences_multiset(ps: Seq<(int, int)>, p: (int, int))
    ensures
        occurrences(ps, p) == ps.to_multiset().count(p),
    decreases ps.len(),
{
    broadcast use vstd::seq_lib::group_to_multiset_ensures;
    broadcast use vstd::multiset::group_multiset_axioms;

    if ps.len() == 0 {
        assert(ps.to_multiset().count(p) == 0);
    } else {
        let d = ps.drop_last();
        lemma_occurrences_multiset(d, p);
        assert(ps =~= d.push(ps.last()));
        assert(d.push(ps.last()).to_multiset() =~= d.to_multiset().insert(ps.last()));
    }
}

/// Order independence: two microstate enumerations with the same multiset of
/// `(ML, MS)` totals — for instance, one from a shuffled single-electron
/// state list — aggregate to the same table and so yield the same terms, in
/// the same deduction order.
pub proof fn lemma_order_independence(
    p1: Seq<(int, int)>,
    p2: Seq<(int, int)>,
    m_off: int,
    s_off: int,
)
    requires
        p1.to_multiset() == p2.to_multiset(),
    ensures
        counts_spec(p1, m_off, s_off) == counts_spec(p2, m_off, s_off),
        peel_spec(counts_spec(p1, m_off, s_off)) == peel_spec(counts_spec(p2, m_off, s_off)),
{
    let g1 = counts_spec(p1, m_off, s_off);
    let g2 = counts_spec(p2, m_off, s_off);
    assert forall|x: int| 0 <= x < g1.len() implies g1[x] =~= g2[x] by {
        assert forall|y: int| 0 <= y < g1[x].len() implies g1[x][y] == g2[x][y] by {
            let q = (x - m_off, 2 * y - s_off);
            lemma_occurrences_multiset(p1, q);
            lemma_occurrences_multiset(p2, q);
        }
    }
    assert(g1 =~= g2);
}

/// The `(L, doubled S)` pairs named by a sequence of extracted terms.
pub open spec fn terms_view(v: Seq<(TermType, Vec<usize>)>) -> Seq<(int, int)> {
    v.map_values(|p: (TermType, Vec<usize>)| (p.0.momentum.0 as int, p.0.multiplet as int - 1))
}

/// Prepends a prefix to the payload of an optional term sequence.
pub open spec fn opt_prepend(pre: Seq<(int, int)>, o: Option<Seq<(int, int)>>) -> Option<
    Seq<(int, int)>,
> {
    match o {
        Some(ts) => Some(pre + ts),
        None => None,
    }
}

/// Whether any cell of the row is occupied.
fn row_any(row: &Vec<Vec<usize>>) -> (r: bool)
    ensures
        r == exists|b: int| 0 <= b < row@.len() && (#[trigger] row@[b])@.len() > 0,
{
    let mut j: usize = 0;
    while j < row.len()
        invariant
            j <= row@.len(),
            forall|y: int| 0 <= y < j ==> (#[trigger] row@[y])@.len() == 0,
        decreases row@.len() - j,
    {
        if row[j].len() > 0 {
            proof {
                assert(0 <= (j as int) && (j as int) < row@.len() && row@[j as int]@.len() > 0);
            }
            return true;
        }
        j = j + 1;
    }
    false
}

/// `row_used` on the count grid agrees with occupancy of the stored grid.
proof fn lemma_row_used_bridge(g: Seq<Vec<Vec<usize>>>, x: int)
    requires
        0 <= x < g.len(),
    ensures
        row_used(counts(g), x) == (exists|b: int|
            0 <= b < g[x]@.len() && (#[trigger] g[x]@[b])@.len() > 0),
{
    assert(counts(g)[x] == row_counts(g[x]@));
    if exists|b: int| 0 <= b < g[x]@.len() && (#[trigger] g[x]@[b])@.len() > 0 {
        let b = choose|b: int| 0 <= b < g[x]@.len() && (#[trigger] g[x]@[b])@.len() > 0;
        assert(0 <= b < counts(g)[x].len() && counts(g)[x][b] > 0);
    }
    if row_used(counts(g), x) {
        let b = choose|b: int| 0 <= b < counts(g)[x].len() && counts(g)[x][b] > 0;
        assert(g[x]@[b]@.len() > 0);
    }
}

/// Index of the greatest occupied row, if any: the spec `top_row_from`.
fn find_top_row(grid: &Vec<Vec<Vec<usize>>>) -> (r: Option<usize>)
    ensures
        match r {
            Some(a) => a < grid@.len() && a as int == top_row_from(
                counts(grid@),
                grid@.len() as int - 1,
            ),
            None => top_row_from(counts(grid@), grid@.len() as int - 1) == -1,
        },
{
    let ghost c = counts(grid@);
    let mut idx: usize = grid.len();
    while idx > 0
        invariant
            idx <= grid@.len(),
            c == counts(grid@),
            top_row_from(c, grid@.len() as int - 1) == top_row_from(c, idx as int - 1),
        decreases idx,
    {
        idx = idx - 1;
        let used = row_any(&grid[idx]);
        proof {
            lemma_row_used_bridge(grid@, idx as int);
        }
        if used {
            return Some(idx);
        }
    }
    None
}

/// Index of the greatest occupied cell of a row, if any: `top_col_from`.
fn find_top_col(row: &Vec<Vec<usize>>) -> (r: Option<usize>)
    ensures
        match r {
            Some(b) => b < row@.len() && b as int == top_col_from(
                row_counts(row@),
                row@.len() as int - 1,
            ),
            None => top_col_from(row_counts(row@), row@.len() as int - 1) == -1,
        },
{
    let ghost rc = row_counts(row@);
    let mut idx: usize = row.len();
    while idx > 0
        invariant
            idx <= row@.len(),
            rc == row_counts(row@),
            top_col_from(rc, row@.len() as int - 1) == top_col_from(rc, idx as int - 1),
        decreases idx,
    {
        idx = idx - 1;
        proof {
            assert(rc[idx as int] == row@[idx as int]@.len());
        }
        if row[idx].len() > 0 {
            return Some(idx);
        }
    }
    None
}

/// Runs the peeling rule on the table, consuming it.
///
/// Returns the extracted terms in deduction order, each with the identities
/// of the microstates it accounted for; the result is exactly what
/// `peel_spec` names on the table's counts, and an `Err` arises exactly when
/// `peel_spec` meets an empty cell (an internal defect, impossible for a
/// table aggregated from a full enumeration's totals).
#[verifier::loop_isolation(false)]
pub fn extract(t: AggTable) -> (r: Result<Vec<(TermType, Vec<usize>)>, ExtractError>)
    requires
        grid_wf(counts(t.grid@)),
        t.grid@.len() <= 0x40000,
        t.grid@[0]@.len() <= 0x40000,
    ensures
        peel_spec(counts(t.grid@)) matches Some(ts) ==> (r matches Ok(v) && terms_view(v@) == ts),
        peel_spec(counts(t.grid@)) is None ==> r is Err,
        r matches Ok(v) ==> forall|j: int|
            0 <= j < v@.len() ==> (#[trigger] v@[j]).1@.len() == (2 * v@[j].0.momentum.0 + 1)
                * v@[j].0.multiplet,
{
    let ghost g0 = counts(t.grid@);
    let mut grid = t.grid;
    let rr = grid.len();
    let cc = grid[0].len();
    proof {
        assert forall|p: int| 0 <= p < grid@.len() implies (#[trigger] grid@[p])@.len()
            == cc by {
            assert(counts(grid@)[p] == row_counts(grid@[p]@));
            assert(counts(grid@)[p].len() == counts(grid@)[0].len());
        }
    }
    let mut out: Vec<(TermType, Vec<usize>)> = Vec::new();
    loop
        invariant
            rr == grid@.len(),
            1 <= rr <= 0x40000,
            rr % 2 == 1,
            1 <= cc <= 0x40000,
            forall|p: int| 0 <= p < grid@.len() ==> (#[trigger] grid@[p])@.len() == cc,
            grid_wf(counts(grid@)),
            opt_prepend(terms_view(out@), peel_spec(counts(grid@))) == peel_spec(g0),
            forall|j: int|
                0 <= j < out@.len() ==> (#[trigger] out@[j]).1@.len() == (2
                    * out@[j].0.momentum.0 + 1) * out@[j].0.multiplet,
        decreases grid_total(counts(grid@)),
    {
        let ghost gcur = counts(grid@);
        let topa = find_top_row(&grid);
        match topa {
            None => {
                proof {
                    assert(peel_spec(gcur) == Some(Seq::<(int, int)>::empty()));
                    assert(terms_view(out@) + Seq::<(int, int)>::empty() =~= terms_view(out@));
                    assert(peel_spec(g0) == Some(terms_view(out@)));
                }
                return Ok(out);
            },
            Some(a) => {
                proof {
                    lemma_top_row_props(gcur, rr as int - 1);
                    assert(row_used(gcur, a as int));
                    assert(gcur[a as int] == row_counts(grid@[a as int]@));
                }
                let topb = find_top_col(&grid[a]);
                match topb {
                    None => {
                        proof {
                            lemma_top_col_props(gcur[a as int], cc as int - 1);
                            let b0 = choose|b0: int|
                                0 <= b0 < gcur[a as int].len() && gcur[a as int][b0] > 0;
                            assert(gcur[a as int][b0] == 0);
                            assert(false);
                        }
                        return Err(ExtractError::BrokenTable);
                    },
                    Some(b) => {
                        proof {
                            lemma_top_col_props(gcur[a as int], cc as int - 1);
                        }
                        if 2 * a < rr - 1 || 2 * b < cc - 1 {
                            proof {
                                assert(peel_spec(gcur) is None);
                                assert(peel_spec(g0) is None);
                            }
                            return Err(ExtractError::BrokenTable);
                        }
                        let alo = rr - 1 - a;
                        let blo = cc - 1 - b;
                        let ghost ge = counts(grid@);
                        let mut consumed: Vec<usize> = Vec::new();
                        let mut x = alo;
                        while x <= a
                            invariant
                                rr == grid@.len(),
                                1 <= rr <= 0x40000,
                                rr % 2 == 1,
                                1 <= cc <= 0x40000,
                                forall|p: int|
                                    0 <= p < grid@.len() ==> (#[trigger] grid@[p])@.len() == cc,
                                a < rr,
                                b < cc,
                                2 * a >= rr - 1,
                                2 * b >= cc - 1,
                                alo == rr - 1 - a,
                                blo == cc - 1 - b,
                                alo <= x <= a + 1,
                                a as int == top_row_from(ge, rr as int - 1),
                                b as int == top_col_from(ge[a as int], cc as int - 1),
                                grid_wf(ge),
                                ge.len() == rr,
                                forall|p: int| 0 <= p < ge.len() ==> (#[trigger] ge[p]).len() == cc,
                                opt_prepend(terms_view(out@), peel_spec(ge)) == peel_spec(g0),
                                forall|p: int, q: int|
                                    #![trigger ge[p][q]]
                                    0 <= p < rr && 0 <= q < cc && !(alo <= p < x && blo <= q <= b)
                                        ==> counts(grid@)[p][q] == ge[p][q],
                                forall|p: int, q: int|
                                    #![trigger ge[p][q]]
                                    alo <= p < x && blo <= q <= b ==> ge[p][q] >= 1 && counts(
                                        grid@,
                                    )[p][q] == ge[p][q] - 1,
                                consumed@.len() == (x - alo) * (b + 1 - blo),
                            decreases a + 1 - x,
                        {
                            let mut y = blo;
                            while y <= b
                                invariant
                                    rr == grid@.len(),
                                    1 <= rr <= 0x40000,
                                    rr % 2 == 1,
                                    1 <= cc <= 0x40000,
                                    forall|p: int|
                                        0 <= p < grid@.len() ==> (#[trigger] grid@[p])@.len() == cc,
                                    a < rr,
                                    b < cc,
                                    2 * a >= rr - 1,
                                    2 * b >= cc - 1,
                                    alo == rr - 1 - a,
                                    blo == cc - 1 - b,
                                    alo <= x <= a,
                                    blo <= y <= b + 1,
                                    a as int == top_row_from(ge, rr as int - 1),
                                    b as int == top_col_from(ge[a as int], cc as int - 1),
                                    grid_wf(ge),
                                    ge.len() == rr,
                                    forall|p: int|
                                        0 <= p < ge.len() ==> (#[trigger] ge[p]).len() == cc,
                                    opt_prepend(terms_view(out@), peel_spec(ge)) == peel_spec(g0),
                                    forall|p: int, q: int|
                                        #![trigger ge[p][q]]
                                        0 <= p < rr && 0 <= q < cc && !((alo <= p < x && blo <= q
                                            <= b) || (p == x && blo <= q < y)) ==> counts(
                                            grid@,
                                        )[p][q] == ge[p][q],
                                    forall|p: int, q: int|
                                        #![trigger ge[p][q]]
                                        ((alo <= p < x && blo <= q <= b) || (p == x && blo <= q
                                            < y)) ==> ge[p][q] >= 1 && counts(grid@)[p][q] == ge[p][q]
                                            - 1,
                                    consumed@.len() == (x - alo) * (b + 1 - blo) + (y - blo),
                                decreases b + 1 - y,
                            {
                                let ghost oldg = grid@;
                                let popped = grid[x][y].pop();
                                match popped {
                                    None => {
                                        proof {
                                            assert(counts(oldg)[x as int] == row_counts(
                                                oldg[x as int]@,
                                            ));
                                            assert(oldg[x as int]@[y as int]@.len() == 0);
                                            assert(counts(oldg)[x as int][y as int] == 0);
                                            assert(ge[x as int][y as int] == 0);
                                            assert(!rect_pos(
                                                ge,
                                                rr as int - 1 - a,
                                                a as int,
                                                cc as int - 1 - b,
                                                b as int,
                                            ));
                                            assert(peel_spec(ge) is None);
                                            assert(peel_spec(g0) is None);
                                        }
                                        return Err(ExtractError::BrokenTable);
                                    },
                                    Some(id) => {
                                        consumed.push(id);
                                        proof {
                                            assert(grid@[x as int]@[y as int]@.len() + 1 == oldg[x
                                                as int]@[y as int]@.len());
                                            assert forall|p: int, q: int|
                                                #![trigger ge[p][q]]
                                                0 <= p < rr && 0 <= q < cc && !((alo <= p < x && blo
                                                    <= q <= b) || (p == x && blo <= q < y
                                                    + 1)) implies counts(grid@)[p][q]
                                                == ge[p][q] by {
                                                assert(counts(grid@)[p] == row_counts(grid@[p]@));
                                                assert(counts(oldg)[p] == row_counts(oldg[p]@));
                                                if p != x {
                                                    assert(grid@[p] == oldg[p]);
                                                } else {
                                                    assert(grid@[p]@[q] == oldg[p]@[q]);
                                                }
                                            }
                                            assert forall|p: int, q: int|
                                                #![trigger ge[p][q]]
                                                ((alo <= p < x && blo <= q <= b) || (p == x && blo
                                                    <= q < y + 1)) implies ge[p][q] >= 1 && counts(
                                                grid@,
                                            )[p][q] == ge[p][q] - 1 by {
                                                assert(counts(grid@)[p] == row_counts(grid@[p]@));
                                                assert(counts(oldg)[p] == row_counts(oldg[p]@));
                                                if p == x && q == y {
                                                    assert(counts(oldg)[p][q] == ge[p][q]);
                                                    assert(counts(oldg)[p][q] > 0);
                                                } else {
                                                    if p != x {
                                                        assert(grid@[p] == oldg[p]);
                                                    } else {
                                                        assert(grid@[p]@[q] == oldg[p]@[q]);
                                                    }
                                                }
                                            }
                                        }
                                    },
                                }
                                y = y + 1;
                            }
                            proof {
                                assert((x as int - alo) * (b + 1 - blo) + (b + 1 - blo) == (x as int
                                    + 1 - alo) * (b + 1 - blo)) by (nonlinear_arith);
                            }
                            x = x + 1;
                        }
                        let ghost gd = counts(grid@);
                        proof {
                            assert forall|p: int, q: int|
                                alo <= p <= a && blo <= q <= b implies #[trigger] ge[p][q]
                                >= 1 by {
                                assert(ge[p][q] >= 1 && counts(grid@)[p][q] == ge[p][q] - 1);
                            }
                            assert(rect_pos(ge, rr as int - 1 - a, a as int, cc as int - 1 - b,
                                b as int));
                            lemma_dec_rect(ge, rr as int - 1 - a, a as int, cc as int - 1 - b,
                                b as int);
                            let dr = dec_rect(ge, rr as int - 1 - a, a as int, cc as int - 1 - b,
                                b as int);
                            assert forall|p: int| 0 <= p < rr implies gd[p] =~= dr[p] by {
                                assert(gd[p] == row_counts(grid@[p]@));
                                assert forall|q: int| 0 <= q < cc implies gd[p][q] == dr[p][q] by {
                                    if alo <= p <= a && blo <= q <= b {
                                        assert(gd[p][q] == ge[p][q] - 1);
                                    } else {
                                        assert(gd[p][q] == ge[p][q]);
                                    }
                                }
                            }
                            assert(gd =~= dr);
                            assert((a + 1 - (rr - 1 - a)) * (b + 1 - (cc - 1 - b)) >= 1)
                                by (nonlinear_arith)
                                requires
                                    a + 1 - (rr as int - 1 - a) >= 1,
                                    b + 1 - (cc as int - 1 - b) >= 1,
                            ;
                            assert(grid_total(gd) < grid_total(ge));
                            assert(peel_spec(ge) == opt_prepend(
                                seq![
                                    (
                                        a as int - (rr as int - 1) / 2,
                                        2 * (b as int) - (cc as int - 1),
                                    ),
                                ],
                                peel_spec(gd),
                            ));
                        }
                        proof {
                            assert((rr as int - 1) % 2 == 0);
                            assert(2 * ((rr as int - 1) / 2) == rr as int - 1);
                            assert(a as int >= (rr as int - 1) / 2);
                        }
                        let lval = a - (rr - 1) / 2;
                        let mult = 2 * b + 2 - cc;
                        let term = TermType { momentum: TermMomentum(lval), multiplet: mult };
                        let ghost tpair = (
                            a as int - (rr as int - 1) / 2,
                            2 * (b as int) - (cc as int - 1),
                        );
                        let ghost clen = consumed@.len();
                        proof {
                            assert(2 * (lval as int) + 1 == a + 1 - alo);
                            assert(mult as int == b + 1 - blo);
                            assert(clen == (2 * (lval as int) + 1) * (mult as int));
                        }
                        let ghost prev = out@;
                        out.push((term, consumed));
                        proof {
                            assert forall|j: int| 0 <= j < out@.len() implies (
                            #[trigger] out@[j]).1@.len() == (2 * out@[j].0.momentum.0 + 1)
                                * out@[j].0.multiplet by {
                                if j < prev.len() {
                                    assert(out@[j] == prev[j]);
                                } else {
                                    assert(out@[j].0 == term);
                                    assert(out@[j].1@.len() == clen);
                                }
                            }
                            assert(terms_view(out@) =~= terms_view(prev).push(tpair));
                            match peel_spec(gd) {
                                Some(ts2) => {
                                    assert(peel_spec(ge) == Some(seq![tpair] + ts2));
                                    assert(terms_view(prev).push(tpair) + ts2 =~= terms_view(prev)
                                        + (seq![tpair] + ts2));
                                    assert(opt_prepend(terms_view(out@), peel_spec(gd))
                                        == peel_spec(g0));
                                },
                                None => {
                                    assert(peel_spec(ge) is None);
                                    assert(opt_prepend(terms_view(out@), peel_spec(gd))
                                        == peel_spec(g0));
                                },
                            }
                            assert(counts(grid@)[0] == row_counts(grid@[0]@));
                            assert forall|p: int| 0 <= p < counts(grid@).len() implies (
                            #[trigger] counts(grid@)[p]).len() == counts(grid@)[0].len() by {
                                assert(counts(grid@)[p] == row_counts(grid@[p]@));
                            }
                            assert(grid_wf(counts(grid@)));
                        }
                    },
                }
            },
        }
    }
}

} // verus!
