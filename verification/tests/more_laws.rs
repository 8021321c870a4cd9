use std::collections::HashMap;
use tunes::sequences::{
    cantor_set, cellular_automaton, checked_recaman, euclidean, euclidean_pattern, lsystem,
    lsystem_to_sequence, primes,
};

#[test]
fn recaman_fits_up_to_65536_terms() {
    let seq = checked_recaman(65536).unwrap();
    assert_eq!(seq.len(), 65536);
    for (k, &t) in seq.iter().enumerate() {
        assert!((t as u64) <= (k as u64) * (k as u64));
    }
}

#[test]
fn lsystem_concatenated_start_words() {
    let mut rules = HashMap::new();
    rules.insert('A', "AB".to_string());
    rules.insert('B', "A".to_string());
    for k in 0..5 {
        let both = lsystem("AB", &rules, k);
        let parts = lsystem("A", &rules, k) + &lsystem("B", &rules, k);
        assert_eq!(both, parts);
    }
}

#[test]
fn ids_follow_first_appearance() {
    assert_eq!(lsystem_to_sequence("CBCAB"), vec![0, 1, 0, 2, 1]);
    assert_eq!(lsystem_to_sequence("ABAAB"), vec![0, 1, 0, 0, 1]);
    assert_eq!(lsystem_to_sequence(""), Vec::<u32>::new());
}

#[test]
fn cantor_counts_and_ends() {
    let counts: Vec<u32> = (0..4).map(|it| cantor_set(it, 27).iter().sum()).collect();
    assert_eq!(counts, vec![27, 18, 12, 8]);
    for it in 0..4 {
        let set = cantor_set(it, 10);
        assert_eq!(set[0], 1);
        assert_eq!(set[9], 1);
    }
}

#[test]
fn euclidean_hits_are_evenly_spread() {
    for steps in 2..20usize {
        for pulses in 1..steps {
            let pattern = euclidean_pattern(pulses, steps);
            for a in 0..steps {
                for len in 0..=(steps - a) {
                    let c: u32 = pattern[a..a + len].iter().sum();
                    let lo = (len * pulses / steps) as u32;
                    assert!(c == lo || c == lo + 1);
                }
            }
            let hits = euclidean(pulses, steps);
            for w in hits.windows(2) {
                let gap = w[1] - w[0];
                assert!(gap == steps / pulses || gap == (steps + pulses - 1) / pulses);
            }
        }
    }
}

#[test]
fn primes_are_increasing_and_complete() {
    let ps = primes(25);
    assert_eq!(ps[24], 97);
    for w in ps.windows(2) {
        assert!(w[0] < w[1]);
    }
    let below: Vec<u32> = (2..=97u32).filter(|n| (2..*n).all(|d| n % d != 0)).collect();
    assert_eq!(ps, below);
}

#[test]
fn binary_start_evolves_in_binary() {
    let rows = cellular_automaton(30, 6, 9, Some(vec![0, 1, 0, 0, 1, 1, 0, 1, 0, 1]));
    assert_eq!(rows.len(), 6);
    assert_eq!(rows[0], vec![0, 1, 0, 0, 1, 1, 0, 1, 0]);
    for t in 0..5 {
        for i in 0..9 {
            let l = if i > 0 { rows[t][i - 1] } else { 0 };
            let c = rows[t][i];
            let r = if i < 8 { rows[t][i + 1] } else { 0 };
            assert_eq!(rows[t + 1][i], (30u8 >> (4 * l + 2 * c + r)) as u32 & 1);
        }
    }
}
