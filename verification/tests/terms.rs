use chitose::combin::combinations_from;
use chitose::extract::extract;
use chitose::states::{microstates, single_states};
use chitose::table::aggregate;
use chitose::{ee_terms, ee_terms_log, LevelError, SubLevel, SubLevelType, TermMomentum, TermType};

fn term(l: usize, multiplet: usize) -> TermType {
    TermType { momentum: TermMomentum(l), multiplet }
}

fn terms_of(l: u8, n: u8) -> Vec<TermType> {
    ee_terms(SubLevel::new(SubLevelType(l), n).expect("valid subshell")).expect("extraction works")
}

fn assert_same_terms(got: &[TermType], expected: &[TermType]) {
    assert_eq!(got.len(), expected.len());
    for t in expected {
        assert!(got.contains(t), "missing term {:?}", t);
    }
}

#[test]
fn it_works() {
    ee_terms_log(SubLevel {
        tp: SubLevelType(1),
        electrons: 3,
    })
    .expect("Should be ok");
}

#[test]
fn capacity_formula() {
    assert_eq!(SubLevelType(0).max_electrons(), 2);
    assert_eq!(SubLevelType(1).max_electrons(), 6);
    assert_eq!(SubLevelType(2).max_electrons(), 10);
    assert_eq!(SubLevelType(3).max_electrons(), 14);
    assert_eq!(SubLevelType(6).max_electrons(), 26);
}

#[test]
fn mls_ascending() {
    let m: Vec<i8> = SubLevelType(2).mls();
    assert_eq!(m, vec![-2, -1, 0, 1, 2]);
}

#[test]
fn construction_succeeds_up_to_capacity() {
    for n in 0..=6u8 {
        assert!(SubLevel::new(SubLevelType(1), n).is_ok());
    }
    assert!(SubLevel::new(SubLevelType(1), 7).is_err());
}

#[test]
fn construction_rejects_overfull_subshell() {
    match SubLevel::new(SubLevelType(1), 7) {
        Err(LevelError::ToMuch(t)) => {
            assert_eq!(t, SubLevelType(1));
            assert_eq!(t.max_electrons(), 6);
        }
        Ok(_) => panic!("7 electrons must not fit the p subshell"),
    }
}

#[test]
fn single_states_of_p() {
    let states = single_states(&SubLevelType(1));
    assert_eq!(
        states,
        vec![(-1, -1), (-1, 1), (0, -1), (0, 1), (1, -1), (1, 1)]
    );
}

#[test]
fn enumerator_counts_and_pauli() {
    // C(6, 3) = 20 microstates for p^3, no electron pair shares a state,
    // and every index list is distinct.
    let states = single_states(&SubLevelType(1));
    let micro = microstates(&states, 3);
    assert_eq!(micro.len(), 20);
    for m in &micro {
        assert_eq!(m.indices.len(), 3);
        for w in m.indices.windows(2) {
            assert!(w[0] < w[1], "states must be distinct and ascending");
        }
    }
    for i in 0..micro.len() {
        for j in 0..i {
            assert_ne!(micro[i].indices, micro[j].indices, "labels must differ");
        }
    }
}

#[test]
fn enumerator_totals() {
    // For p^1 the six microstates carry exactly the six (ml, ms) pairs.
    let states = single_states(&SubLevelType(1));
    let micro = microstates(&states, 1);
    let totals: Vec<(i16, i16)> = micro.iter().map(|m| (m.ml, m.ms)).collect();
    assert_eq!(
        totals,
        vec![(-1, -1), (-1, 1), (0, -1), (0, 1), (1, -1), (1, 1)]
    );
}

#[test]
fn combination_generator_is_lexicographic() {
    let combos = combinations_from(0, 4, 2);
    assert_eq!(
        combos,
        vec![
            vec![0, 1],
            vec![0, 2],
            vec![0, 3],
            vec![1, 2],
            vec![1, 3],
            vec![2, 3]
        ]
    );
}

#[test]
fn fixture_p1() {
    assert_same_terms(&terms_of(1, 1), &[term(1, 2)]);
}

#[test]
fn fixture_p2() {
    assert_same_terms(&terms_of(1, 2), &[term(0, 1), term(2, 1), term(1, 3)]);
}

#[test]
fn fixture_p3() {
    assert_same_terms(&terms_of(1, 3), &[term(1, 2), term(2, 2), term(0, 4)]);
}

#[test]
fn fixture_d2() {
    assert_same_terms(
        &terms_of(2, 2),
        &[term(0, 1), term(2, 1), term(4, 1), term(1, 3), term(3, 3)],
    );
}

#[test]
fn boundary_empty_and_full() {
    assert_same_terms(&terms_of(1, 0), &[term(0, 1)]);
    assert_same_terms(&terms_of(1, 6), &[term(0, 1)]);
    assert_same_terms(&terms_of(0, 0), &[term(0, 1)]);
    assert_same_terms(&terms_of(0, 2), &[term(0, 1)]);
    assert_same_terms(&terms_of(2, 10), &[term(0, 1)]);
}

#[test]
fn conservation_law_d2() {
    // Sum of (2L+1)(2S+1) over the extracted terms (with repeats) must be
    // C(10, 2) = 45.
    let d = ee_terms_log(SubLevel::new(SubLevelType(2), 2).expect("valid"))
        .expect("extraction works");
    assert_eq!(d.microstates.len(), 45);
    let mut weight: usize = 0;
    for (t, consumed) in &d.terms {
        let w = (2 * t.momentum.0 + 1) * t.multiplet;
        assert_eq!(consumed.len(), w, "a term accounts for its full rectangle");
        weight += w;
    }
    assert_eq!(weight, 45);
}

#[test]
fn conservation_law_p3() {
    let d = ee_terms_log(SubLevel::new(SubLevelType(1), 3).expect("valid"))
        .expect("extraction works");
    assert_eq!(d.microstates.len(), 20);
    let weight: usize = d
        .terms
        .iter()
        .map(|(t, _)| (2 * t.momentum.0 + 1) * t.multiplet)
        .sum();
    assert_eq!(weight, 20);
}

#[test]
fn order_independence_of_state_list() {
    // Enumerating over a shuffled single-electron state list gives the same
    // multiset of terms as the canonical order.
    let l: u8 = 2;
    let n: u8 = 2;
    let canonical = single_states(&SubLevelType(l));
    let mut shuffled = canonical.clone();
    shuffled.reverse();
    shuffled.swap(1, 7);
    shuffled.swap(2, 5);

    let mut results: Vec<Vec<(usize, usize)>> = Vec::new();
    for states in [canonical, shuffled] {
        let micro = microstates(&states, n);
        let table = aggregate(&micro, (n as usize) * (l as usize), n as usize);
        let terms = extract(table).expect("extraction works");
        let mut pairs: Vec<(usize, usize)> = terms
            .iter()
            .map(|(t, _)| (t.momentum.0, t.multiplet))
            .collect();
        pairs.sort_unstable();
        results.push(pairs);
    }
    assert_eq!(results[0], results[1]);
}

#[test]
fn derivation_trace_accounts_for_every_microstate() {
    let d = ee_terms_log(SubLevel::new(SubLevelType(1), 2).expect("valid"))
        .expect("extraction works");
    let mut seen = vec![false; d.microstates.len()];
    for (_, consumed) in &d.terms {
        for &id in consumed {
            assert!(id < d.microstates.len());
            assert!(!seen[id], "a microstate is consumed once");
            seen[id] = true;
        }
    }
    assert!(seen.iter().all(|&s| s));
}

#[test]
fn dedup_keeps_distinct_terms() {
    let terms = terms_of(2, 3);
    for i in 0..terms.len() {
        for j in 0..i {
            assert_ne!(terms[i], terms[j]);
        }
    }
    // d^3 contains the famous doubled 2D; the result set keeps one entry.
    assert!(terms.contains(&term(2, 2)));
}
