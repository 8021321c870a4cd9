use std::collections::HashMap;
use tunes::sequences::{
    cantor_set, cellular_automaton, collatz, euclidean, euclidean_pattern, fibonacci, lsystem,
    golden_ratio_rhythm, lsystem_to_sequence, map_to_scale, markov_transition_counts, primes, recaman,
    shepard_tone, thue_morse, triangular, Scale,
};

#[test]
fn test_fibonacci() {
    let fib = fibonacci(8);
    assert_eq!(fib, vec![1, 1, 2, 3, 5, 8, 13, 21]);
}

#[test]
fn test_primes() {
    let p = primes(5);
    assert_eq!(p, vec![2, 3, 5, 7, 11]);
}

#[test]
fn test_collatz() {
    let seq = collatz(10, 100);
    assert_eq!(seq[0], 10);
    assert_eq!(*seq.last().unwrap(), 1);
}

#[test]
fn test_euclidean_basic() {
    // Test basic Euclidean rhythm generation
    let e38 = euclidean(3, 8);
    assert_eq!(e38.len(), 3); // Should have 3 pulses
    assert_eq!(e38[0], 0); // Should start at position 0

    let e58 = euclidean(5, 8);
    assert_eq!(e58.len(), 5); // Should have 5 pulses
    assert_eq!(e58[0], 0); // Should start at position 0

    let e416 = euclidean(4, 16);
    assert_eq!(e416, vec![0, 4, 8, 12]); // Four-on-floor - perfectly even
}

#[test]
fn test_euclidean_edge_cases() {
    assert_eq!(euclidean(0, 8), vec![]); // No pulses
    assert_eq!(euclidean(8, 0), vec![]); // No steps
    assert_eq!(euclidean(10, 8), vec![]); // More pulses than steps
    assert_eq!(euclidean(8, 8), vec![0, 1, 2, 3, 4, 5, 6, 7]); // All steps
}

#[test]
fn test_euclidean_pattern() {
    let pattern = euclidean_pattern(5, 8);
    assert_eq!(pattern.len(), 8); // Should have 8 steps
    assert_eq!(pattern.iter().filter(|&&x| x == 1).count(), 5); // Should have 5 pulses
    assert_eq!(pattern[0], 1); // Should start with a pulse

    let pattern = euclidean_pattern(3, 8);
    assert_eq!(pattern.len(), 8); // Should have 8 steps
    assert_eq!(pattern.iter().filter(|&&x| x == 1).count(), 3); // Should have 3 pulses
    assert_eq!(pattern[0], 1); // Should start with a pulse
}

#[test]
fn test_triangular() {
    let tri = triangular(6);
    assert_eq!(tri, vec![1, 3, 6, 10, 15, 21]);
}

#[test]
fn test_thue_morse_basic() {
    // Test the first few terms match the known sequence
    let tm = thue_morse(16);

    assert_eq!(tm.len(), 16);

    // Known Thue-Morse sequence
    let expected = vec![0, 1, 1, 0, 1, 0, 0, 1, 1, 0, 0, 1, 0, 1, 1, 0];
    assert_eq!(tm, expected);
}

#[test]
fn test_thue_morse_construction() {
    // Verify the construction algorithm works
    let tm4 = thue_morse(4);
    assert_eq!(tm4, vec![0, 1, 1, 0]);

    let tm8 = thue_morse(8);
    assert_eq!(tm8, vec![0, 1, 1, 0, 1, 0, 0, 1]);

    // Verify that tm8 = tm4 + complement(tm4)
    let complement: Vec<u32> = tm4.iter().map(|&x| 1 - x).collect();
    let mut expected = tm4.clone();
    expected.extend(complement);
    assert_eq!(tm8, expected);
}

#[test]
fn test_thue_morse_properties() {
    let tm = thue_morse(64);

    // Should have roughly equal 0s and 1s (fairness property)
    let ones = tm.iter().filter(|&&x| x == 1).count();
    let zeros = tm.iter().filter(|&&x| x == 0).count();

    assert_eq!(ones + zeros, 64);
    assert_eq!(ones, zeros); // Exactly equal for power-of-2 lengths
}

#[test]
fn test_thue_morse_no_aaa() {
    // Thue-Morse never has three consecutive identical blocks
    let tm = thue_morse(100);

    // Check no "000" pattern
    for i in 0..tm.len().saturating_sub(2) {
        if tm[i] == 0 && tm[i + 1] == 0 {
            assert_ne!(tm[i + 2], 0, "Found three consecutive 0s at position {}", i);
        }
    }

    // Check no "111" pattern
    for i in 0..tm.len().saturating_sub(2) {
        if tm[i] == 1 && tm[i + 1] == 1 {
            assert_ne!(tm[i + 2], 1, "Found three consecutive 1s at position {}", i);
        }
    }
}

#[test]
fn test_thue_morse_edge_cases() {
    let tm1 = thue_morse(1);
    assert_eq!(tm1, vec![0]);

    let tm2 = thue_morse(2);
    assert_eq!(tm2, vec![0, 1]);

    let tm3 = thue_morse(3);
    assert_eq!(tm3, vec![0, 1, 1]); // Truncated from [0,1,1,0]
}

#[test]
fn test_thue_morse_as_rhythm() {
    // Convert to hit indices like Euclidean rhythms
    let tm = thue_morse(16);
    let hits: Vec<usize> = tm
        .iter()
        .enumerate()
        .filter(|(_, &v)| v == 1)
        .map(|(i, _)| i)
        .collect();

    // Should have 8 hits (half of 16)
    assert_eq!(hits.len(), 8);

    // Hits should be at positions where tm[i] == 1
    // Sequence: [0, 1, 1, 0, 1, 0, 0, 1, 1, 0, 0, 1, 0, 1, 1, 0]
    // Indices:   0  1  2  3  4  5  6  7  8  9 10 11 12 13 14 15
    let expected_hits = vec![1, 2, 4, 7, 8, 11, 13, 14];
    assert_eq!(hits, expected_hits);
}

#[test]
fn test_recaman_basic() {
    let seq = recaman(20);

    // Known Recamán sequence values
    let expected = vec![
        0, 1, 3, 6, 2, 7, 13, 20, 12, 21, 11, 22, 10, 23, 9, 24, 8, 25, 43, 62,
    ];
    assert_eq!(seq, expected);
}

#[test]
fn test_recaman_properties() {
    let seq = recaman(50);

    // Recamán CAN have duplicates (when forward step lands on seen value)
    // This is actually part of the sequence's interesting behavior!

    // Check that it follows the rules:
    // - First value is 0
    assert_eq!(seq[0], 0);

    // - Sequence has correct length
    assert_eq!(seq.len(), 50);

    // - All values are non-negative (by construction with u32)
    // No assertion needed, u32 guarantees this
}

#[test]
fn test_recaman_backward_when_possible() {
    let seq = recaman(10);

    // At step 1: 0 - 1 would be negative, so go forward: 0 + 1 = 1
    assert_eq!(seq[1], 1);

    // At step 2: 1 + 2 = 3 (can't go backward to -1)
    assert_eq!(seq[2], 3);

    // At step 3: 3 + 3 = 6 (can't go backward to 0, already seen)
    assert_eq!(seq[3], 6);

    // At step 4: 6 - 4 = 2 (can go backward, 2 not seen yet)
    assert_eq!(seq[4], 2);
}

#[test]
fn test_recaman_edge_cases() {
    let empty = recaman(0);
    assert_eq!(empty, Vec::<u32>::new());

    let single = recaman(1);
    assert_eq!(single, vec![0]);

    let two = recaman(2);
    assert_eq!(two, vec![0, 1]);
}

#[test]
fn test_cellular_automaton_rule30() {
    // Rule 30 - classic chaotic rule
    let ca = cellular_automaton(30, 5, 7, None);

    assert_eq!(ca.len(), 5); // 5 generations
    assert_eq!(ca[0].len(), 7); // Width 7

    // First generation should have center cell on
    assert_eq!(ca[0], vec![0, 0, 0, 1, 0, 0, 0]);

    // Each generation should be binary
    for gen in &ca {
        for &cell in gen {
            assert!(cell == 0 || cell == 1);
        }
    }
}

#[test]
fn test_cellular_automaton_rule90() {
    // Rule 90 - Sierpinski triangle
    let ca = cellular_automaton(90, 8, 15, None);

    assert_eq!(ca.len(), 8);
    assert_eq!(ca[0].len(), 15);

    // First generation: center cell on
    assert_eq!(ca[0][7], 1);

    // Rule 90 creates symmetric patterns
    for gen in &ca {
        let mid = gen.len() / 2;
        // Check some symmetry (not perfect at edges)
        for i in 1..mid {
            if i < gen.len() - i - 1 {
                assert_eq!(gen[mid - i], gen[mid + i], "Rule 90 should be symmetric");
            }
        }
    }
}

#[test]
fn test_cellular_automaton_custom_initial() {
    // Test with custom initial state
    let initial = vec![1, 0, 1, 0, 1];
    let ca = cellular_automaton(30, 3, 5, Some(initial.clone()));

    assert_eq!(ca.len(), 3);
    assert_eq!(ca[0], initial); // First generation matches initial state
}

#[test]
fn test_cellular_automaton_edge_cases() {
    // Empty width
    let empty = cellular_automaton(30, 5, 0, None);
    assert_eq!(empty, Vec::<Vec<u32>>::new());

    // Single step (just returns initial state)
    let single = cellular_automaton(30, 1, 7, None);
    assert_eq!(single.len(), 1);
    assert_eq!(single[0].len(), 7);

    // Zero steps (returns single generation)
    let zero = cellular_automaton(30, 0, 5, None);
    assert_eq!(zero.len(), 1);
}

#[test]
fn test_cellular_automaton_rule110() {
    // Rule 110 - Turing complete!
    let ca = cellular_automaton(110, 10, 20, None);

    assert_eq!(ca.len(), 10);

    // Rule 110 should create complex but structured patterns
    // Not all zeros, not all ones
    let total_ones: usize = ca
        .iter()
        .map(|gen| gen.iter().filter(|&&x| x == 1).count())
        .sum();

    let total_cells = ca.len() * ca[0].len();
    assert!(
        total_ones > 0 && total_ones < total_cells,
        "Rule 110 should create mixed patterns"
    );
}

#[test]
fn test_cellular_automaton_all_rules_binary() {
    // Test various rules all produce binary output
    for rule in [0, 30, 90, 110, 184, 255].iter() {
        let ca = cellular_automaton(*rule, 5, 10, None);

        for gen in &ca {
            for &cell in gen {
                assert!(
                    cell == 0 || cell == 1,
                    "Rule {} produced non-binary value: {}",
                    rule,
                    cell
                );
            }
        }
    }
}

#[test]
fn test_cellular_automaton_as_rhythm() {
    // Use CA generation as rhythm pattern
    let ca = cellular_automaton(30, 8, 16, None);

    // Convert 5th generation to rhythm
    let rhythm: Vec<usize> = ca[4]
        .iter()
        .enumerate()
        .filter(|(_, &v)| v == 1)
        .map(|(i, _)| i)
        .collect();

    // Should have some hits but not all
    assert!(!rhythm.is_empty());
    assert!(rhythm.len() < 16);
}

#[test]
fn test_lsystem_fibonacci() {

    // Algae growth - creates Fibonacci sequence lengths
    let mut rules = HashMap::new();
    rules.insert('A', "AB".to_string());
    rules.insert('B', "A".to_string());

    let gen0 = lsystem("A", &rules, 0);
    assert_eq!(gen0, "A");
    assert_eq!(gen0.len(), 1);

    let gen1 = lsystem("A", &rules, 1);
    assert_eq!(gen1, "AB");
    assert_eq!(gen1.len(), 2);

    let gen2 = lsystem("A", &rules, 2);
    assert_eq!(gen2, "ABA");
    assert_eq!(gen2.len(), 3);

    let gen3 = lsystem("A", &rules, 3);
    assert_eq!(gen3, "ABAAB");
    assert_eq!(gen3.len(), 5);

    let gen4 = lsystem("A", &rules, 4);
    assert_eq!(gen4, "ABAABABA");
    assert_eq!(gen4.len(), 8);
}

#[test]
fn test_lsystem_to_sequence_basic() {
    let pattern = "ABAAB";
    let seq = lsystem_to_sequence(pattern);
    assert_eq!(seq, vec![0, 1, 0, 0, 1]);
}

#[test]
fn test_cantor_set_basic() {
    // Test iteration 0 (full set)
    let set0 = cantor_set(0, 9);
    assert_eq!(set0, vec![1, 1, 1, 1, 1, 1, 1, 1, 1]);

    // Test iteration 1 (remove middle third)
    let set1 = cantor_set(1, 9);
    assert_eq!(set1, vec![1, 1, 1, 0, 0, 0, 1, 1, 1]);
}

#[test]
fn test_cantor_set_iteration_2() {
    // With 27 points (3^3), we can cleanly divide
    let set = cantor_set(2, 27);

    // First third (0-8): keep first and last thirds, remove middle
    assert_eq!(set[0], 1); // First point kept
    assert_eq!(set[1], 1);
    assert_eq!(set[2], 1);
    assert_eq!(set[3], 0); // Middle third removed
    assert_eq!(set[4], 0);
    assert_eq!(set[5], 0);
    assert_eq!(set[6], 1); // Last third kept
    assert_eq!(set[7], 1);
    assert_eq!(set[8], 1);

    // Middle third (9-17): all removed
    for i in 9..18 {
        assert_eq!(set[i], 0, "Middle third should be removed at position {}", i);
    }

    // Last third (18-26): keep first and last thirds, remove middle
    assert_eq!(set[18], 1);
    assert_eq!(set[19], 1);
    assert_eq!(set[20], 1);
    assert_eq!(set[21], 0);
    assert_eq!(set[22], 0);
    assert_eq!(set[23], 0);
    assert_eq!(set[24], 1);
    assert_eq!(set[25], 1);
    assert_eq!(set[26], 1);
}

#[test]
fn test_cantor_set_properties() {
    // As iterations increase, fewer points remain
    let set1 = cantor_set(1, 27);
    let set2 = cantor_set(2, 27);
    let set3 = cantor_set(3, 27);

    let count1: u32 = set1.iter().sum();
    let count2: u32 = set2.iter().sum();
    let count3: u32 = set3.iter().sum();

    // Each iteration should have fewer or equal points
    assert!(count2 <= count1);
    assert!(count3 <= count2);

    // Mathematically, Cantor set has 2^n/3^n density
    // After 2 iterations: (2/3)^2 = 4/9 of points remain
    let expected_2 = (27.0 * (2.0_f32 / 3.0_f32).powi(2)) as u32;
    assert!(
        (count2 as i32 - expected_2 as i32).abs() <= 2,
        "Expected ~{}, got {}",
        expected_2,
        count2
    );
}

#[test]
fn test_cantor_set_edge_cases() {
    // Empty resolution
    let empty = cantor_set(3, 0);
    assert_eq!(empty, Vec::<u32>::new());

    // Single point
    let single = cantor_set(2, 1);
    assert_eq!(single, vec![1]);

    // Two points
    let two = cantor_set(1, 2);
    assert_eq!(two.len(), 2);
}

#[test]
fn test_map_to_scale_basic() {
    // Map simple sequence to C major pentatonic
    let seq = vec![0, 1, 2, 3, 4];
    let scale = Scale::major_pentatonic(); // [0, 2, 4, 7, 9]
    let mapped = map_to_scale(&seq, &scale, 60, 1);

    // Should map to: C(60), D(62), E(64), G(67), A(69)
    assert_eq!(mapped, vec![60, 62, 64, 67, 69]);
}

#[test]
fn test_map_to_scale_wrapping() {
    // Test that values wrap correctly across octaves
    let seq = vec![0, 5, 10]; // Indices that span multiple octaves
    let scale = Scale::major_pentatonic(); // 5 notes per octave
    let mapped = map_to_scale(&seq, &scale, 60, 2);

    // 0 -> C4 (60)
    // 5 -> C5 (60 + 12) = 72 (wraps to next octave)
    // 10 -> C6 + 0 (wraps again)
    assert_eq!(mapped[0], 60); // First note of first octave
    assert_eq!(mapped[1], 72); // First note of second octave
}

#[test]
fn test_map_to_scale_with_fibonacci() {
    // Practical example: map Fibonacci to scale
    let fib = fibonacci(10);
    let scale = Scale::minor_pentatonic();
    let melody = map_to_scale(&fib, &scale, 48, 3); // E3 root, 3 octaves

    assert_eq!(melody.len(), 10);
    // All notes should be >= root note
    for &note in &melody {
        assert!(note >= 48);
    }
    // All notes should be within 3 octaves
    for &note in &melody {
        assert!(note < 48 + 36); // 3 octaves = 36 semitones
    }
}

#[test]
fn test_map_to_scale_edge_cases() {
    // Empty input
    let empty = map_to_scale(&[], &Scale::major(), 60, 2);
    assert_eq!(empty, Vec::<u32>::new());

    // Empty scale
    let empty_scale = map_to_scale(&vec![1, 2, 3], &[], 60, 2);
    assert_eq!(empty_scale, Vec::<u32>::new());
}

#[test]
fn test_scale_definitions() {
    // Test that all scales are correctly defined
    assert_eq!(Scale::major_pentatonic().len(), 5);
    assert_eq!(Scale::minor_pentatonic().len(), 5);
    assert_eq!(Scale::major().len(), 7);
    assert_eq!(Scale::minor().len(), 7);
    assert_eq!(Scale::chromatic().len(), 12);
    assert_eq!(Scale::whole_tone().len(), 6);

    // Test that scales start with 0 (root note)
    assert_eq!(Scale::major()[0], 0);
    assert_eq!(Scale::minor()[0], 0);
    assert_eq!(Scale::blues()[0], 0);

    // Test that major third is in major scale
    assert!(Scale::major().contains(&4)); // Major third

    // Test that minor third is in minor scale
    assert!(Scale::minor().contains(&3)); // Minor third
}

#[test]
fn test_shepard_tone_ascending() {
    let tone = shepard_tone(24, 12, true);

    assert_eq!(tone.len(), 24);

    // Should cycle through 0-11 twice
    assert_eq!(tone[0], 0);
    assert_eq!(tone[1], 1);
    assert_eq!(tone[11], 11);
    assert_eq!(tone[12], 0); // Wraps back
    assert_eq!(tone[23], 11);
}

#[test]
fn test_shepard_tone_descending() {
    let tone = shepard_tone(13, 12, false);

    assert_eq!(tone.len(), 13);

    // Should go: 0, 11, 10, 9, 8, 7, 6, 5, 4, 3, 2, 1, 0
    assert_eq!(tone[0], 0);
    assert_eq!(tone[1], 11);
    assert_eq!(tone[2], 10);
    assert_eq!(tone[11], 1);
    assert_eq!(tone[12], 0); // Wraps back
}

#[test]
fn test_shepard_tone_properties() {
    let ascending = shepard_tone(100, 12, true);
    let descending = shepard_tone(100, 12, false);

    // All values should be within range
    for &val in &ascending {
        assert!(val < 12);
    }
    for &val in &descending {
        assert!(val < 12);
    }

    // Should contain all pitch classes if length >= steps_per_octave
    let mut seen = vec![false; 12];
    for &val in ascending.iter().take(12) {
        seen[val as usize] = true;
    }
    assert!(seen.iter().all(|&x| x), "Should contain all 12 pitch classes");
}

#[test]
fn test_shepard_tone_edge_cases() {
    // Empty sequence
    let empty = shepard_tone(0, 12, true);
    assert_eq!(empty, Vec::<u32>::new());

    // Zero steps per octave
    let zero_steps = shepard_tone(10, 0, true);
    assert_eq!(zero_steps, Vec::<u32>::new());

    // Single step
    let single = shepard_tone(1, 12, true);
    assert_eq!(single, vec![0]);

    // Different divisions (quarter tones)
    let quarter = shepard_tone(24, 24, true);
    assert_eq!(quarter.len(), 24);
    assert_eq!(quarter[23], 23);
}

#[test]
fn test_shepard_tone_continuous_ascending() {
    // Verify ascending pattern is monotonic within each cycle
    let tone = shepard_tone(12, 12, true);

    for i in 0..11 {
        assert_eq!(tone[i] + 1, tone[i + 1], "Ascending should increment by 1");
    }
}

#[test]
fn test_shepard_tone_continuous_descending() {
    // Verify descending pattern decrements within each cycle
    let tone = shepard_tone(13, 12, false);

    // Skip first element (0), check that each decrements
    for i in 1..12 {
        assert_eq!(
            tone[i],
            12 - i as u32,
            "Descending should decrement: tone[{}] = {}",
            i,
            tone[i]
        );
    }
}

#[test]
fn test_golden_ratio_rhythm() {
    let pattern = golden_ratio_rhythm(16);

    assert!(!pattern.is_empty());
    assert!(pattern.len() < 16);

    for i in 1..pattern.len() {
        assert!(pattern[i] > pattern[i - 1]);
    }

    for &idx in &pattern {
        assert!(idx < 16);
    }

    assert!(pattern.len() >= 8 && pattern.len() <= 11);
}

#[test]
fn test_golden_ratio_rhythm_properties() {
    let pattern = golden_ratio_rhythm(100);

    let ratio = pattern.len() as f32 / 100.0;
    let expected = 1.0 / 1.618033988749;
    assert!((ratio - expected).abs() < 0.05);
}

#[test]
fn golden_ratio_rhythm_exact_hits() {
    assert_eq!(golden_ratio_rhythm(16), vec![1, 3, 4, 6, 8, 9, 11, 12, 14]);
    assert_eq!(golden_ratio_rhythm(0), Vec::<usize>::new());
    assert_eq!(golden_ratio_rhythm(1), Vec::<usize>::new());
    assert_eq!(golden_ratio_rhythm(2), vec![1]);
    // floor(100 / phi) = 61 hits.
    assert_eq!(golden_ratio_rhythm(100).len(), 61);
    assert_eq!(golden_ratio_rhythm(1000).len(), 618);
}

#[test]
fn test_build_markov_transitions_simple() {
    let data = vec![0, 1, 0, 1, 0, 1];
    let transitions = markov_transition_counts(&data);

    assert!(transitions.contains_key(&0));
    let from_0 = &transitions[&0];
    assert_eq!(from_0.len(), 1);
    assert_eq!(from_0[0].0, 1);
}

#[test]
fn markov_counts_follow_the_data() {
    let data = vec![0, 1, 2, 1, 0, 1, 2, 4, 2, 0];
    let table = markov_transition_counts(&data);
    assert_eq!(table.len(), 4);
    assert_eq!(table[&0], vec![(1, 2)]);
    assert_eq!(table[&1], vec![(2, 2), (0, 1)]);
    assert_eq!(table[&2], vec![(1, 1), (4, 1), (0, 1)]);
    assert_eq!(table[&4], vec![(2, 1)]);
    // The last element starts no transition.
    assert!(markov_transition_counts(&vec![5]).is_empty());
    assert!(markov_transition_counts(&vec![]).is_empty());
    let repeated = markov_transition_counts(&vec![7, 7, 7]);
    assert_eq!(repeated[&7], vec![(7, 2)]);
}
