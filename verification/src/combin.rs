//! Enumeration of n-element combinations of the indices `0 .. k`.
//!
//! A microstate is an unordered, repeat-free selection of single-electron
//! states, so the enumerator produces every strictly increasing `n`-sequence
//! over `0 .. k`, in lexicographic order. The count of such sequences is the
//! binomial coefficient `C(k, n)`.

use vstd::prelude::*;

verus! {

/// The binomial coefficient `C(k, n)` by Pascal's rule.
pub open spec fn binom(k: nat, n: nat) -> nat
    decreases k,
{
    if n == 0 {
        1
    } else if k == 0 {
        0
    } else {
        binom((k - 1) as nat, (n - 1) as nat) + binom((k - 1) as nat, n)
    }
}

/// All strictly increasing `n`-sequences over `s .. k`, in lexicographic
/// order: first the sequences beginning with `s`, then the rest.
pub open spec fn combos_from(s: int, k: int, n: nat) -> Seq<Seq<int>>
    decreases k - s, n,
{
    if n == 0 {
        seq![Seq::<int>::empty()]
    } else if s >= k {
        Seq::<Seq<int>>::empty()
    } else {
        combos_from(s + 1, k, (n - 1) as nat).map_values(|c: Seq<int>| seq![s] + c)
            + combos_from(s + 1, k, n)
    }
}

/// A well-formed combination: `n` strictly increasing indices inside `s .. k`.
pub open spec fn is_combo(c: Seq<int>, s: int, k: int, n: nat) -> bool {
    &&& c.len() == n
    &&& (forall|j: int| 0 <= j < c.len() ==> s <= #[trigger] c[j] < k)
    &&& (forall|j1: int, j2: int| 0 <= j1 < j2 < c.len() ==> #[trigger] c[j1] < #[trigger] c[j2])
}

/// The enumeration has exactly `C(k - s, n)` entries.
pub proof fn lemma_combos_len(s: int, k: int, n: nat)
    requires
        s <= k,
    ensures
        combos_from(s, k, n).len() == binom((k - s) as nat, n),
    decreases k - s, n,
{
    if n == 0 {
    } else if s >= k {
    } else {
        lemma_combos_len(s + 1, k, (n - 1) as nat);
        lemma_combos_len(s + 1, k, n);
    }
}

/// Every entry of the enumeration is a well-formed combination.
pub proof fn lemma_combos_valid(s: int, k: int, n: nat)
    ensures
        forall|i: int|
            0 <= i < combos_from(s, k, n).len() ==> is_combo(
                #[trigger] combos_from(s, k, n)[i],
                s,
                k,
                n,
            ),
    decreases k - s, n,
{
    if n == 0 {
        assert forall|i: int| 0 <= i < combos_from(s, k, n).len() implies is_combo(
            combos_from(s, k, n)[i],
            s,
            k,
            n,
        ) by {
            assert(combos_from(s, k, n)[i] =~= Seq::<int>::empty());
        }
    } else if s >= k {
    } else {
        lemma_combos_valid(s + 1, k, (n - 1) as nat);
        lemma_combos_valid(s + 1, k, n);
        let head = combos_from(s + 1, k, (n - 1) as nat).map_values(|c: Seq<int>| seq![s] + c);
        let tail = combos_from(s + 1, k, n);
        assert forall|i: int| 0 <= i < combos_from(s, k, n).len() implies is_combo(
            combos_from(s, k, n)[i],
            s,
            k,
            n,
        ) by {
            if i < head.len() {
                let c = combos_from(s + 1, k, (n - 1) as nat)[i];
                assert(is_combo(c, s + 1, k, (n - 1) as nat));
                let p = seq![s] + c;
                assert(combos_from(s, k, n)[i] == p);
                assert(p[0] == s);
                assert(forall|j: int| 1 <= j < p.len() ==> p[j] == c[j - 1]);
                assert(is_combo(p, s, k, n));
            } else {
                let c = tail[i - head.len()];
                assert(combos_from(s, k, n)[i] == c);
                assert(is_combo(c, s + 1, k, n));
            }
        }
    }
}

/// Choosing more elements than are available is impossible.
pub proof fn lemma_binom_zero(k: nat, n: nat)
    requires
        n > k,
    ensures
        binom(k, n) == 0,
    decreases k,
{
    if k == 0 {
    } else {
        lemma_binom_zero((k - 1) as nat, (n - 1) as nat);
        lemma_binom_zero((k - 1) as nat, n);
    }
}

/// Choosing every element leaves exactly one combination: the whole range.
pub proof fn lemma_combos_full(s: int, k: int)
    requires
        s <= k,
    ensures
        combos_from(s, k, (k - s) as nat) == seq![Seq::new((k - s) as nat, |i: int| s + i)],
    decreases k - s,
{
    let n = (k - s) as nat;
    let ident = Seq::new(n, |i: int| s + i);
    if s == k {
        assert(ident =~= Seq::<int>::empty());
        assert(combos_from(s, k, n) =~= seq![ident]);
    } else {
        lemma_combos_full(s + 1, k);
        let sub = Seq::new((k - s - 1) as nat, |i: int| s + 1 + i);
        assert(combos_from(s + 1, k, (n - 1) as nat) == seq![sub]);
        assert(seq![s] + sub =~= ident);
        lemma_combos_len(s + 1, k, n);
        lemma_binom_zero((k - s - 1) as nat, n);
        assert(combos_from(s + 1, k, n) =~= Seq::<Seq<int>>::empty());
        assert(combos_from(s, k, n) =~= seq![seq![s] + sub]);
        assert(combos_from(s, k, n) =~= seq![ident]);
    }
}

/// No combination is enumerated twice.
pub proof fn lemma_combos_no_dup(s: int, k: int, n: nat)
    ensures
        combos_from(s, k, n).no_duplicates(),
    decreases k - s, n,
{
    if n == 0 {
    } else if s >= k {
    } else {
        lemma_combos_no_dup(s + 1, k, (n - 1) as nat);
        lemma_combos_no_dup(s + 1, k, n);
        lemma_combos_valid(s + 1, k, n);
        let src = combos_from(s + 1, k, (n - 1) as nat);
        let head = src.map_values(|c: Seq<int>| seq![s] + c);
        let tail = combos_from(s + 1, k, n);
        let whole = combos_from(s, k, n);
        assert forall|i: int, j: int|
            0 <= i < whole.len() && 0 <= j < whole.len() && i != j implies whole[i]
            != whole[j] by {
            if i < head.len() && j < head.len() {
                assert(whole[i] == seq![s] + src[i]);
                assert(whole[j] == seq![s] + src[j]);
                if whole[i] == whole[j] {
                    assert(src[i] =~= src[j]) by {
                        assert forall|u: int| 0 <= u < src[i].len() implies src[i][u]
                            == src[j][u] by {
                            assert((seq![s] + src[i])[u + 1] == src[i][u]);
                            assert((seq![s] + src[j])[u + 1] == src[j][u]);
                        }
                    }
                }
            } else if i >= head.len() && j >= head.len() {
                assert(whole[i] == tail[i - head.len()]);
                assert(whole[j] == tail[j - head.len()]);
            } else {
                let (h, t) = if i < head.len() {
                    (i, j)
                } else {
                    (j, i)
                };
                assert(whole[h] == seq![s] + src[h]);
                assert(whole[h][0] == s);
                assert(whole[t] == tail[t - head.len()]);
                assert(is_combo(tail[t - head.len()], s + 1, k, n));
                assert(whole[t][0] >= s + 1);
            }
        }
    }
}

/// View of the produced vectors as mathematical sequences of integers.
pub open spec fn combos_view(r: Seq<Vec<usize>>) -> Seq<Seq<int>> {
    r.map_values(|v: Vec<usize>| v@.map_values(|x: usize| x as int))
}

/// Produces every strictly increasing `n`-sequence over `s .. k`, in
/// lexicographic order, exactly as `combos_from` describes.
pub fn combinations_from(s: usize, k: usize, n: usize) -> (r: Vec<Vec<usize>>)
    ensures
        combos_view(r@) == combos_from(s as int, k as int, n as nat),
    decreases k - s, n,
{
    if n == 0 {
        let mut r: Vec<Vec<usize>> = Vec::new();
        r.push(Vec::new());
        proof {
            assert(combos_view(r@) =~~= combos_from(s as int, k as int, n as nat));
        }
        r
    } else if s >= k {
        let r: Vec<Vec<usize>> = Vec::new();
        proof {
            assert(combos_view(r@) =~~= combos_from(s as int, k as int, n as nat));
        }
        r
    } else {
        let first = combinations_from(s + 1, k, n - 1);
        let ghost firsts = combos_from(s as int + 1, k as int, (n - 1) as nat);
        let mut out: Vec<Vec<usize>> = Vec::new();
        let mut i: usize = 0;
        while i < first.len()
            invariant
                i <= first.len(),
                combos_view(first@) == firsts,
                out@.len() == i,
                forall|t: int|
                    0 <= t < i ==> #[trigger] combos_view(out@)[t] == seq![s as int] + firsts[t],
            decreases first.len() - i,
        {
            let mut c: Vec<usize> = Vec::new();
            c.push(s);
            let mut j: usize = 0;
            while j < first[i].len()
                invariant
                    i < first.len(),
                    j <= first@[i as int]@.len(),
                    combos_view(first@) == firsts,
                    c@.len() == j + 1,
                    c@[0] == s,
                    forall|u: int| 1 <= u < c@.len() ==> c@[u] == first@[i as int]@[u - 1],
                decreases first@[i as int]@.len() - j,
            {
                let x = first[i][j];
                c.push(x);
                j = j + 1;
            }
            proof {
                assert(c@.map_values(|x: usize| x as int) =~= seq![s as int] + firsts[i as int]);
            }
            let ghost prev = out@;
            out.push(c);
            proof {
                assert forall|t: int| 0 <= t < i + 1 implies #[trigger] combos_view(out@)[t]
                    == seq![s as int] + firsts[t] by {
                    if t < i {
                        assert(out@[t] == prev[t]);
                        assert(combos_view(prev)[t] == seq![s as int] + firsts[t]);
                    } else {
                        assert(out@[t] == c);
                    }
                }
            }
            i = i + 1;
        }
        let mut rest = combinations_from(s + 1, k, n);
        let ghost rests = combos_from(s as int + 1, k as int, n as nat);
        let ghost outs = out@;
        let ghost rest0 = rest@;
        out.append(&mut rest);
        proof {
            let target = firsts.map_values(|c: Seq<int>| seq![s as int] + c) + rests;
            assert(combos_from(s as int, k as int, n as nat) == target);
            assert(out@ == outs + rest0);
            assert forall|t: int| 0 <= t < combos_view(out@).len() implies combos_view(out@)[t]
                == target[t] by {
                if t < outs.len() {
                    assert(out@[t] == outs[t]);
                    assert(combos_view(out@)[t] == combos_view(outs)[t]);
                } else {
                    assert(out@[t] == rest0[t - outs.len()]);
                    assert(combos_view(out@)[t] == combos_view(rest0)[t - outs.len()]);
                }
            }
            assert(combos_view(out@) =~~= target);
        }
        out
    }
}

} // verus!
