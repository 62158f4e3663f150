//! Russell-Saunders term symbols for a subshell of equivalent electrons.
//!
//! Given a subshell with orbital angular momentum quantum number `L` holding
//! `n` equivalent electrons, the library enumerates every Pauli-allowed
//! microstate, buckets the microstates by their total angular-momentum
//! projections `(ML, MS)`, and deduces the Russell-Saunders terms by the
//! classical peeling rule: repeatedly take the highest occupied `(ML, MS)`
//! cell and remove one microstate from every cell of the rectangle it spans.

use vstd::prelude::*;

pub mod combin;
pub mod states;
pub mod table;
pub mod extract;

use crate::states::Microstate;
use crate::extract::{peel_spec, terms_view, weight_sum};

verus! {

/// A subshell kind: the orbital angular momentum quantum number L
/// (0 = s, 1 = p, 2 = d, ...).
#[derive(Debug, Clone, Copy, PartialEq, Eq, Structural)]
pub struct SubLevelType(pub u8);

impl SubLevelType {
    /// Capacity of the subshell: `2 * (2L + 1)` single-electron states.
    ///
    /// `L <= 63` keeps the capacity representable in a `u8`; larger L has no
    /// physical use and is excluded by precondition.
    pub fn max_electrons(&self) -> (r: u8)
        requires
            self.0 <= 63,
        ensures
            r == 2 * (2 * self.0 + 1),
    {
        2 * (2 * self.0 + 1)
    }

    /// The magnetic quantum numbers of the subshell, ascending: -L ..= L.
    pub fn mls(&self) -> (r: Vec<i8>)
        requires
            self.0 <= 63,
        ensures
            r@.len() == 2 * self.0 + 1,
            forall|i: int| 0 <= i < r@.len() ==> r@[i] as int == i - self.0,
    {
        let l = self.0 as i8;
        let mut out: Vec<i8> = Vec::new();
        let mut m: i8 = -l;
        while m <= l
            invariant
                -l <= m <= l + 1,
                l == self.0,
                self.0 <= 63,
                out@.len() == m + l,
                forall|i: int| 0 <= i < out@.len() ==> out@[i] as int == i - l,
            decreases l + 1 - m,
        {
            out.push(m);
            m = m + 1;
        }
        out
    }
}

/// A subshell together with the number of electrons placed on it.
///
/// The intended invariant, established by [`SubLevel::new`], is
/// `electrons <= tp.max_electrons()`.
#[derive(Debug, Clone, Copy, PartialEq, Eq, Structural)]
pub struct SubLevel {
    pub tp: SubLevelType,
    pub electrons: u8,
}

/// Rejection of a physically impossible electron count.
#[derive(Debug)]
pub enum LevelError {
    /// More electrons requested than the subshell has single-electron states.
    ToMuch(SubLevelType),
}

impl SubLevel {
    /// Builds a subshell holding `electrons` electrons; succeeds exactly when
    /// the count does not exceed the subshell capacity `2 * (2L + 1)`.
    pub fn new(t: SubLevelType, electrons: u8) -> (r: Result<SubLevel, LevelError>)
        requires
            t.0 <= 63,
        ensures
            electrons <= 2 * (2 * t.0 + 1) <==> r is Ok,
            r matches Ok(s) ==> s.tp == t && s.electrons == electrons,
            r matches Err(e) ==> (e matches LevelError::ToMuch(t2) && t2 == t),
    {
        if electrons <= t.max_electrons() {
            Ok(SubLevel { tp: t, electrons })
        } else {
            Err(LevelError::ToMuch(t))
        }
    }
}

/// Total orbital momentum of a term, letter-coded in presentations
/// (0 = S, 1 = P, 2 = D, ...).
#[derive(Debug, Clone, Copy, PartialEq, Eq, Hash, Structural)]
pub struct TermMomentum(pub usize);

/// A Russell-Saunders term: total orbital momentum `L` and the multiplet
/// `2S + 1`.
#[derive(Debug, Clone, Copy, PartialEq, Eq, Hash, Structural)]
pub struct TermType {
    pub momentum: TermMomentum,
    pub multiplet: usize,
}

/// Internal-invariant violation during term extraction: a cell the peeling
/// rule relies on was empty. A table aggregated from a real microstate
/// enumeration never produces this; it is a defect, not a user error.
#[derive(Debug, Clone, Copy, PartialEq, Eq, Structural)]
pub enum ExtractError {
    BrokenTable,
}

/// The `(ML, MS)` totals of every microstate of the subshell, in enumeration
/// order.
pub open spec fn spec_pairs(l: int, n: nat) -> Seq<(int, int)> {
    combin::combos_from(0, 2 * (2 * l + 1), n).map_values(
        |c: Seq<int>|
            (states::sum_ml(states::spec_states(l), c), states::sum_ms(states::spec_states(l), c)),
    )
}

/// The aggregation table of the subshell, as a count grid.
pub open spec fn spec_table(l: int, n: nat) -> Seq<Seq<nat>> {
    table::counts_spec(spec_pairs(l, n), n * l, n as int)
}

/// The term a `(L, doubled S)` pair names.
pub open spec fn term_of(p: (int, int)) -> TermType {
    TermType { momentum: TermMomentum(p.0 as usize), multiplet: (p.1 + 1) as usize }
}

/// A full derivation: the single-electron states, the enumerated
/// microstates, and the extracted terms, each with the microstates (by
/// position in the enumeration) it accounted for. Presentation layers format
/// a derivation log from this data.
pub struct Derivation {
    pub single_states: Vec<(i8, i8)>,
    pub microstates: Vec<Microstate>,
    pub terms: Vec<(TermType, Vec<usize>)>,
}

/// Runs the whole pipeline and keeps every intermediate result for tracing.
///
/// On success the derivation holds the canonical state list, the full
/// microstate enumeration (`C(capacity, n)` entries), and the terms that the
/// peeling rule deduces from the aggregated table, satisfying the
/// conservation law: the term weights `(2L+1)(2S+1)` add up to
/// `C(capacity, n)`. An `Err` arises exactly when the peeling rule meets an
/// empty cell, which the symmetric structure of a real table never produces.
pub fn ee_terms_log(l: SubLevel) -> (r: Result<Derivation, ExtractError>)
    requires
        l.tp.0 <= 63,
    ensures
        peel_spec(spec_table(l.tp.0 as int, l.electrons as nat)) matches Some(ts) ==> (r matches Ok(
            d,
        ) && d.single_states@ == states::spec_states(l.tp.0 as int) && d.microstates@.len()
            == combin::binom((2 * (2 * l.tp.0 + 1)) as nat, l.electrons as nat) && table::pairs(
            d.microstates@,
        ) == spec_pairs(l.tp.0 as int, l.electrons as nat) && terms_view(d.terms@) == ts
            && weight_sum(ts) == combin::binom(
            (2 * (2 * l.tp.0 + 1)) as nat,
            l.electrons as nat,
        ) && (forall|j: int|
            0 <= j < d.terms@.len() ==> (#[trigger] d.terms@[j]).1@.len() == (2
                * d.terms@[j].0.momentum.0 + 1) * d.terms@[j].0.multiplet)),
        peel_spec(spec_table(l.tp.0 as int, l.electrons as nat)) is None ==> r is Err,
{
    let ghost lv = l.tp.0 as int;
    let ghost nv = l.electrons as nat;
    let ghost sts = states::spec_states(lv);
    let ghost cs = combin::combos_from(0, 2 * (2 * lv + 1), nv);
    let states = states::single_states(&l.tp);
    let micro = states::microstates(&states, l.electrons);
    proof {
        states::lemma_spec_states_valid(lv);
        combin::lemma_combos_valid(0, 2 * (2 * lv + 1), nv);
        combin::lemma_combos_len(0, 2 * (2 * lv + 1), nv);
        assert(table::pairs(micro@) =~= spec_pairs(lv, nv)) by {
            assert forall|i: int| 0 <= i < micro@.len() implies table::pairs(micro@)[i]
                == spec_pairs(lv, nv)[i] by {
                assert(states::idx_view(micro@[i].indices@) == cs[i]);
            }
        }
        assert forall|i: int|
            0 <= i < micro@.len() implies -((nv * lv) as int) <= (#[trigger] micro@[i]).ml as int
                <= (nv * lv) as int && -(nv as int) <= micro@[i].ms as int <= nv as int && ((
        micro@[i].ms as int) + (nv as int)) % 2 == 0 by {
            let c = cs[i];
            assert(combin::is_combo(c, 0, 2 * (2 * lv + 1), nv));
            assert(states::idx_view(micro@[i].indices@) == c);
            states::lemma_sum_bounds(sts, c, lv);
            assert(micro@[i].ml as int == states::sum_ml(sts, c));
            assert(micro@[i].ms as int == states::sum_ms(sts, c));
            assert((c.len() as int) * lv == nv * lv);
            assert((-(c.len() as int)) * lv == -((c.len() as int) * lv)) by (nonlinear_arith);
        }
        assert((l.electrons as int) * (l.tp.0 as int) <= 16065) by (nonlinear_arith)
            requires
                l.electrons <= 255,
                l.tp.0 <= 63,
        ;
    }
    let m_off = (l.electrons as usize) * (l.tp.0 as usize);
    let s_off = l.electrons as usize;
    let tab = table::aggregate(&micro, m_off, s_off);
    proof {
        assert(table::counts(tab.grid@) == spec_table(lv, nv));
        assert(tab.grid@[0]@.len() == s_off + 1);
    }
    let ghost g = spec_table(lv, nv);
    match extract::extract(tab) {
        Ok(terms) => {
            proof {
                extract::lemma_peel_conservation(g);
                extract::lemma_counts_spec_total(spec_pairs(lv, nv), (nv * lv) as int, nv as int);
                assert(spec_pairs(lv, nv).len() == cs.len());
            }
            Ok(Derivation { single_states: states, microstates: micro, terms })
        },
        Err(e) => Err(e),
    }
}

/// Boundary law: an empty subshell and a full subshell each carry exactly
/// one microstate with totals `(0, 0)`, so both yield the single term
/// `(L = 0, doubled S = 0)` — the singlet S.
pub proof fn lemma_boundary_terms(l: int)
    requires
        0 <= l <= 63,
    ensures
        peel_spec(spec_table(l, 0)) == Some(seq![(0int, 0int)]),
        peel_spec(spec_table(l, (2 * (2 * l + 1)) as nat)) == Some(seq![(0int, 0int)]),
{
    let k = 2 * (2 * l + 1);
    let sts = states::spec_states(l);
    let empty_sel = Seq::<int>::empty();
    assert(combin::combos_from(0, k, 0) == seq![empty_sel]);
    let ps0 = spec_pairs(l, 0);
    assert(states::sum_ml(sts, empty_sel) == 0);
    assert(states::sum_ms(sts, empty_sel) == 0);
    assert(ps0 =~= seq![(0int, 0int)]);
    assert((0 as nat) * l == 0) by (nonlinear_arith);
    extract::lemma_singleton_table_peel(0, 0);

    let n = k as nat;
    combin::lemma_combos_full(0, k);
    let ident = Seq::new((k - 0) as nat, |i: int| 0 + i);
    assert(combin::combos_from(0, k, n) == seq![ident]);
    states::lemma_full_shell_sums(l);
    assert(ident =~= Seq::new((2 * (2 * l + 1)) as nat, |i: int| i));
    let ps1 = spec_pairs(l, n);
    assert(ps1 =~= seq![(0int, 0int)]);
    assert(n * l >= 0) by (nonlinear_arith)
        requires
            l >= 0,
    ;
    assert((n as int) % 2 == 0);
    extract::lemma_singleton_table_peel((n * l) as int, n as int);
}

/// Whether the collection already holds the term.
fn contains_term(v: &Vec<TermType>, t: TermType) -> (r: bool)
    ensures
        r == v@.contains(t),
{
    let mut i: usize = 0;
    while i < v.len()
        invariant
            i <= v@.len(),
            forall|j: int| 0 <= j < i ==> v@[j] != t,
        decreases v@.len() - i,
    {
        if v[i] == t {
            proof {
                assert(v@[i as int] == t);
            }
            return true;
        }
        i = i + 1;
    }
    false
}

/// Computes the set of Russell-Saunders terms of the subshell.
///
/// The result lists each deduced term once, in order of first deduction;
/// a term deduced twice (the same `(L, 2S+1)` from two peeling rounds)
/// appears once, keyed by its `(momentum, multiplet)` identity.
pub fn ee_terms(l: SubLevel) -> (r: Result<Vec<TermType>, ExtractError>)
    requires
        l.tp.0 <= 63,
    ensures
        peel_spec(spec_table(l.tp.0 as int, l.electrons as nat)) matches Some(ts) ==> (r matches Ok(
            v,
        ) && v@.no_duplicates() && (forall|t: TermType|
            v@.contains(t) <==> ts.map_values(|p: (int, int)| term_of(p)).contains(t))),
        peel_spec(spec_table(l.tp.0 as int, l.electrons as nat)) is None ==> r is Err,
{
    let ghost g = spec_table(l.tp.0 as int, l.electrons as nat);
    match ee_terms_log(l) {
        Err(e) => Err(e),
        Ok(d) => {
            let mut v: Vec<TermType> = Vec::new();
            let mut i: usize = 0;
            while i < d.terms.len()
                invariant
                    i <= d.terms@.len(),
                    v@.no_duplicates(),
                    forall|t: TermType|
                        v@.contains(t) <==> (exists|j: int|
                            0 <= j < i && (#[trigger] d.terms@[j]).0 == t),
                decreases d.terms@.len() - i,
            {
                let t = d.terms[i].0;
                let ghost prev = v@;
                if !contains_term(&v, t) {
                    v.push(t);
                    proof {
                        assert forall|u: TermType| v@.contains(u) implies (exists|j: int|
                            0 <= j < i + 1 && (#[trigger] d.terms@[j]).0 == u) by {
                            if prev.contains(u) {
                            } else {
                                assert(v@[v@.len() - 1] == t);
                                assert(u == t);
                                assert(d.terms@[i as int].0 == u);
                            }
                        }
                        assert forall|u: TermType|
                            (exists|j: int|
                                0 <= j < i + 1 && (#[trigger] d.terms@[j]).0 == u) implies
                        v@.contains(u) by {
                            let j = choose|j: int|
                                0 <= j < i + 1 && (#[trigger] d.terms@[j]).0 == u;
                            if j < i {
                                assert(prev.contains(u));
                                let w = choose|w: int| 0 <= w < prev.len() && prev[w] == u;
                                assert(v@[w] == u);
                            } else {
                                assert(v@[v@.len() - 1] == u);
                            }
                        }
                        assert forall|a: int, b: int|
                            0 <= a < v@.len() && 0 <= b < v@.len() && a != b implies v@[a]
                            != v@[b] by {
                            if a < v@.len() - 1 && b < v@.len() - 1 {
                            } else if a == v@.len() - 1 {
                                if prev.contains(v@[b]) && v@[b] == t {
                                    assert(false);
                                }
                                assert(prev[b] == v@[b]);
                                assert(prev.contains(v@[b]));
                            } else {
                                assert(prev[a] == v@[a]);
                                assert(prev.contains(v@[a]));
                            }
                        }
                        assert(v@.no_duplicates());
                    }
                } else {
                    proof {
                        assert forall|u: TermType| v@.contains(u) implies (exists|j: int|
                            0 <= j < i + 1 && (#[trigger] d.terms@[j]).0 == u) by {
                            let j = choose|j: int| 0 <= j < i && (#[trigger] d.terms@[j]).0 == u;
                            assert(0 <= j < i + 1 && d.terms@[j].0 == u);
                        }
                        assert forall|u: TermType|
                            (exists|j: int|
                                0 <= j < i + 1 && (#[trigger] d.terms@[j]).0 == u) implies
                        v@.contains(u) by {
                            let j = choose|j: int|
                                0 <= j < i + 1 && (#[trigger] d.terms@[j]).0 == u;
                            if j == i {
                                assert(v@.contains(t));
                                assert(u == t);
                            }
                        }
                    }
                }
                i = i + 1;
            }
            proof {
                let ts = peel_spec(g)->Some_0;
                let mapped = ts.map_values(|p: (int, int)| term_of(p));
                assert(terms_view(d.terms@) == ts);
                assert forall|t: TermType| v@.contains(t) <==> mapped.contains(t) by {
                    assert(mapped.len() == d.terms@.len());
                    assert forall|j: int| 0 <= j < d.terms@.len() implies mapped[j]
                        == (#[trigger] d.terms@[j]).0 by {
                        assert(ts[j] == terms_view(d.terms@)[j]);
                        assert(ts[j].0 == d.terms@[j].0.momentum.0 as int);
                        assert(ts[j].1 == d.terms@[j].0.multiplet as int - 1);
                    }
                    if v@.contains(t) {
                        let j = choose|j: int| 0 <= j < d.terms@.len() && (#[trigger] d.terms@[j]).0
                            == t;
                        assert(mapped[j] == t);
                    }
                    if mapped.contains(t) {
                        let j = choose|j: int| 0 <= j < mapped.len() && mapped[j] == t;
                        assert(d.terms@[j].0 == t);
                    }
                }
            }
            Ok(v)
        },
    }
}

} // verus!
