//! Single-electron states of a subshell and the Pauli-valid microstates.
//!
//! A single-electron state is a pair `(ml, ms)` with `ml` in `-L ..= L` and
//! `ms` in `{-1, +1}` (the spin is doubled so that it stays integral). The
//! ordered list of all such pairs has exactly `2 * (2L + 1)` entries; a
//! microstate is a strictly increasing selection of `n` indices into that
//! list, together with its totals `ML = sum ml` and `MS = sum ms`.

use vstd::prelude::*;
use crate::SubLevelType;
use crate::combin::{combos_from, combos_view, combinations_from, is_combo, binom, lemma_combos_len, lemma_combos_valid, lemma_combos_no_dup};

verus! {

/// The ordered single-electron state list: `ml` ascending, spin-down before
/// spin-up within each `ml`.
pub open spec fn spec_states(l: int) -> Seq<(i8, i8)> {
    Seq::new((2 * (2 * l + 1)) as nat, |k: int| (((k / 2) - l) as i8, if k % 2 == 0 { -1i8 } else { 1i8 }))
}

/// Every state's `ml` lies in `-lmax ..= lmax` and its spin is one of -1, +1.
pub open spec fn valid_states(states: Seq<(i8, i8)>, lmax: int) -> bool {
    forall|i: int|
        0 <= i < states.len() ==> -lmax <= (#[trigger] states[i]).0 <= lmax && (states[i].1 == -1
            || states[i].1 == 1)
}

/// Builds the ordered single-electron state list of the subshell.
pub fn single_states(t: &SubLevelType) -> (r: Vec<(i8, i8)>)
    requires
        t.0 <= 63,
    ensures
        r@ == spec_states(t.0 as int),
        r@.len() == 2 * (2 * t.0 + 1),
        valid_states(r@, t.0 as int),
{
    let ghost l = t.0 as int;
    let mls = t.mls();
    let mut out: Vec<(i8, i8)> = Vec::new();
    let mut i: usize = 0;
    while i < mls.len()
        invariant
            i <= mls@.len(),
            mls@.len() == 2 * l + 1,
            0 <= l <= 63,
            forall|u: int| 0 <= u < mls@.len() ==> mls@[u] as int == u - l,
            out@.len() == 2 * i,
            forall|k: int| 0 <= k < out@.len() ==> out@[k] == spec_states(l)[k],
        decreases mls@.len() - i,
    {
        let m = mls[i];
        out.push((m, -1));
        out.push((m, 1));
        proof {
            assert(out@[2 * i as int] == spec_states(l)[2 * i as int]) by {
                assert((2 * i as int) / 2 == i as int);
            }
            assert(out@[2 * i as int + 1] == spec_states(l)[2 * i as int + 1]) by {
                assert((2 * i as int + 1) / 2 == i as int);
            }
        }
        i = i + 1;
    }
    proof {
        assert(out@ =~= spec_states(l));
    }
    out
}

/// The canonical state list is valid for its own `L` bound.
pub proof fn lemma_spec_states_valid(l: int)
    requires
        0 <= l <= 63,
    ensures
        valid_states(spec_states(l), l),
{
    assert forall|i: int|
        0 <= i < spec_states(l).len() implies -l <= (#[trigger] spec_states(l)[i]).0 <= l && (
    spec_states(l)[i].1 == -1 || spec_states(l)[i].1 == 1) by {
        assert(0 <= i / 2 <= 2 * l);
    }
}

/// Total orbital projection of the selection `c` of states: the sum of `ml`.
pub open spec fn sum_ml(states: Seq<(i8, i8)>, c: Seq<int>) -> int
    decreases c.len(),
{
    if c.len() == 0 {
        0
    } else {
        sum_ml(states, c.drop_last()) + states[c.last()].0
    }
}

/// Total (doubled) spin projection of the selection `c`: the sum of `ms`.
pub open spec fn sum_ms(states: Seq<(i8, i8)>, c: Seq<int>) -> int
    decreases c.len(),
{
    if c.len() == 0 {
        0
    } else {
        sum_ms(states, c.drop_last()) + states[c.last()].1
    }
}

/// Bounds on the totals: `|ML| <= |c| * lmax`, `|MS| <= |c|`, and `MS` has
/// the parity of the electron count.
pub proof fn lemma_sum_bounds(states: Seq<(i8, i8)>, c: Seq<int>, lmax: int)
    requires
        lmax >= 0,
        valid_states(states, lmax),
        forall|j: int| 0 <= j < c.len() ==> 0 <= #[trigger] c[j] < states.len(),
    ensures
        -(c.len() as int) * lmax <= sum_ml(states, c) <= (c.len() as int) * lmax,
        -(c.len() as int) <= sum_ms(states, c) <= c.len() as int,
        (sum_ms(states, c) + c.len()) % 2 == 0,
    decreases c.len(),
{
    if c.len() == 0 {
    } else {
        let d = c.drop_last();
        assert(forall|j: int| 0 <= j < d.len() ==> 0 <= #[trigger] d[j] < states.len());
        lemma_sum_bounds(states, d, lmax);
        let last = c.last();
        assert(0 <= last < states.len());
        assert(-lmax <= states[last].0 <= lmax);
        assert((d.len() as int) * lmax + lmax == (c.len() as int) * lmax) by (nonlinear_arith)
            requires
                d.len() + 1 == c.len(),
        ;
        assert(-((c.len() as int) * lmax) == -((d.len() as int) * lmax) - lmax);
        assert((-(c.len() as int)) * lmax == -((c.len() as int) * lmax)) by (nonlinear_arith);
        assert((-(d.len() as int)) * lmax == -((d.len() as int) * lmax)) by (nonlinear_arith);
    }
}

/// Totals of the first `t` filled `ml` values (both spins): the running
/// `ML` is `t(t-1) - 2tl` and the running `MS` vanishes pair by pair.
proof fn lemma_shell_prefix(l: int, t: int)
    requires
        0 <= l <= 63,
        0 <= t <= 2 * l + 1,
    ensures
        sum_ml(spec_states(l), Seq::new((2 * t) as nat, |i: int| i)) == t * (t - 1) - 2 * t * l,
        sum_ms(spec_states(l), Seq::new((2 * t) as nat, |i: int| i)) == 0,
    decreases t,
{
    let sts = spec_states(l);
    let c2 = Seq::new((2 * t) as nat, |i: int| i);
    if t == 0 {
        assert(t * (t - 1) - 2 * t * l == 0) by (nonlinear_arith)
            requires
                t == 0,
        ;
    } else {
        lemma_shell_prefix(l, t - 1);
        let c1 = Seq::new((2 * t - 1) as nat, |i: int| i);
        let c0 = Seq::new((2 * (t - 1)) as nat, |i: int| i);
        assert(c2.drop_last() =~= c1);
        assert(c2.last() == 2 * t - 1);
        assert(c1.drop_last() =~= c0);
        assert(c1.last() == 2 * t - 2);
        assert((2 * t - 1) / 2 == t - 1);
        assert((2 * t - 2) / 2 == t - 1);
        assert(sts[2 * t - 1].0 as int == t - 1 - l);
        assert(sts[2 * t - 2].0 as int == t - 1 - l);
        assert(sts[2 * t - 1].1 as int == 1);
        assert(sts[2 * t - 2].1 as int == -1);
        assert(sum_ml(sts, c2) == sum_ml(sts, c1) + sts[2 * t - 1].0);
        assert(sum_ml(sts, c1) == sum_ml(sts, c0) + sts[2 * t - 2].0);
        assert(sum_ms(sts, c2) == sum_ms(sts, c1) + sts[2 * t - 1].1);
        assert(sum_ms(sts, c1) == sum_ms(sts, c0) + sts[2 * t - 2].1);
        assert((t - 1) * (t - 2) - 2 * (t - 1) * l + 2 * (t - 1 - l) == t * (t - 1) - 2 * t * l)
            by (nonlinear_arith);
    }
}

/// A full shell is spherically symmetric: selecting every single-electron
/// state gives totals `ML = 0` and `MS = 0`.
pub proof fn lemma_full_shell_sums(l: int)
    requires
        0 <= l <= 63,
    ensures
        sum_ml(spec_states(l), Seq::new((2 * (2 * l + 1)) as nat, |i: int| i)) == 0,
        sum_ms(spec_states(l), Seq::new((2 * (2 * l + 1)) as nat, |i: int| i)) == 0,
{
    lemma_shell_prefix(l, 2 * l + 1);
    assert((2 * l + 1) * (2 * l + 1 - 1) - 2 * (2 * l + 1) * l == 0) by (nonlinear_arith);
}

/// One Pauli-valid electron assignment: the chosen single-electron state
/// indices (strictly increasing) and the totals `(ML, MS)` they add up to.
#[derive(Debug)]
pub struct Microstate {
    pub indices: Vec<usize>,
    pub ml: i16,
    pub ms: i16,
}

/// View of an index vector as a sequence of integers.
pub open spec fn idx_view(s: Seq<usize>) -> Seq<int> {
    s.map_values(|x: usize| x as int)
}

/// Enumerates every Pauli-valid microstate of `n` electrons over the given
/// single-electron state list, in lexicographic order of the chosen indices:
/// exactly `C(states.len(), n)` microstates, each with a distinct strictly
/// increasing index list, and each carrying its exact `(ML, MS)` totals.
pub fn microstates(states: &Vec<(i8, i8)>, n: u8) -> (r: Vec<Microstate>)
    requires
        valid_states(states@, 63),
    ensures
        r@.len() == combos_from(0, states@.len() as int, n as nat).len(),
        r@.len() == binom(states@.len() as nat, n as nat),
        forall|i: int|
            0 <= i < r@.len() ==> idx_view(#[trigger] r@[i].indices@) == combos_from(
                0,
                states@.len() as int,
                n as nat,
            )[i],
        forall|i: int|
            0 <= i < r@.len() ==> (#[trigger] r@[i]).ml as int == sum_ml(
                states@,
                idx_view(r@[i].indices@),
            ) && r@[i].ms as int == sum_ms(states@, idx_view(r@[i].indices@)),
        forall|i: int, j: int|
            0 <= i < j < r@.len() ==> (#[trigger] r@[i]).indices@ != (#[trigger] r@[j]).indices@,
{
    let ghost slen = states@.len() as int;
    let ghost cs = combos_from(0, slen, n as nat);
    proof {
        lemma_combos_len(0, slen, n as nat);
        lemma_combos_valid(0, slen, n as nat);
    }
    let combos = combinations_from(0, states.len(), n as usize);
    let mut out: Vec<Microstate> = Vec::new();
    let mut i: usize = 0;
    while i < combos.len()
        invariant
            i <= combos@.len(),
            combos_view(combos@) == cs,
            valid_states(states@, 63),
            slen == states@.len() as int,
            forall|u: int| 0 <= u < cs.len() ==> is_combo(#[trigger] cs[u], 0, slen, n as nat),
            out@.len() == i,
            forall|t: int| 0 <= t < i ==> idx_view(#[trigger] out@[t].indices@) == cs[t],
            forall|t: int|
                0 <= t < i ==> (#[trigger] out@[t]).ml as int == sum_ml(
                    states@,
                    idx_view(out@[t].indices@),
                ) && out@[t].ms as int == sum_ms(states@, idx_view(out@[t].indices@)),
        decreases combos@.len() - i,
    {
        let c = &combos[i];
        let ghost cv = cs[i as int];
        proof {
            assert(cv == idx_view(c@));
            assert(is_combo(cv, 0, slen, n as nat));
        }
        let mut ind: Vec<usize> = Vec::new();
        let mut ml: i16 = 0;
        let mut ms: i16 = 0;
        let mut j: usize = 0;
        while j < c.len()
            invariant
                j <= c@.len(),
                cv == idx_view(c@),
                is_combo(cv, 0, slen, n as nat),
                slen == states@.len() as int,
                valid_states(states@, 63),
                c@.len() == n as nat,
                ind@ == c@.take(j as int),
                ml as int == sum_ml(states@, cv.take(j as int)),
                ms as int == sum_ms(states@, cv.take(j as int)),
                -(j as int) * 63 <= ml as int <= (j as int) * 63,
                -(j as int) <= ms as int <= j as int,
            decreases c@.len() - j,
        {
            let idx = c[j];
            proof {
                assert(cv[j as int] == idx as int);
                assert(0 <= (idx as int) && (idx as int) < slen);
            }
            let st = states[idx];
            proof {
                let pre = cv.take(j as int);
                let cur = cv.take(j as int + 1);
                assert(cur.drop_last() =~= pre);
                assert(cur.last() == idx as int);
                assert((j as int) * 63 + 63 == (j as int + 1) * 63) by (nonlinear_arith);
                assert(-((j as int) * 63) - 63 == -((j as int + 1) * 63)) by (nonlinear_arith);
            }
            ml = ml + (st.0 as i16);
            ms = ms + (st.1 as i16);
            ind.push(idx);
            proof {
                assert(ind@ =~= c@.take(j as int + 1));
            }
            j = j + 1;
        }
        proof {
            assert(cv.take(c@.len() as int) =~= cv);
            assert(ind@ =~= c@);
        }
        let ghost prev = out@;
        out.push(Microstate { indices: ind, ml, ms });
        proof {
            assert forall|t: int| 0 <= t < i + 1 implies idx_view(
                #[trigger] out@[t].indices@,
            ) == cs[t] by {
                if t < i {
                    assert(out@[t] == prev[t]);
                } else {
                    assert(out@[t].indices@ == c@);
                }
            }
            assert forall|t: int| 0 <= t < i + 1 implies (#[trigger] out@[t]).ml as int == sum_ml(
                states@,
                idx_view(out@[t].indices@),
            ) && out@[t].ms as int == sum_ms(states@, idx_view(out@[t].indices@)) by {
                if t < i {
                    assert(out@[t] == prev[t]);
                }
            }
        }
        i = i + 1;
    }
    proof {
        lemma_combos_no_dup(0, slen, n as nat);
        assert forall|u: int, w: int|
            0 <= u < w < out@.len() implies (#[trigger] out@[u]).indices@ != (
        #[trigger] out@[w]).indices@ by {
            if out@[u].indices@ == out@[w].indices@ {
                assert(idx_view(out@[u].indices@) == idx_view(out@[w].indices@));
                assert(cs[u] == cs[w]);
            }
        }
    }
    out
}

} // verus!
