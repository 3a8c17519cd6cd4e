use reqtrace::feistel::{permute, unpermute};
use reqtrace::id_gen::{generate_ids, generate_ids_with_seed, generate_next_id, IdError};
use proquint::Quintable;
use std::collections::HashSet;
use std::hash::{Hash, Hasher};

const PROJECT: &str = "reqtrace";

fn seed_of(name: &str) -> u64 {
    let mut hasher = std::collections::hash_map::DefaultHasher::new();
    name.hash(&mut hasher);
    hasher.finish()
}

#[test]
fn test_permutation() {
    let seed = 12345;
    for i in 0..1000u16 {
        let p = permute(i, seed);
        let u = unpermute(p, seed);
        assert_eq!(i, u);
    }
}

#[test]
fn test_permutation_full_range_is_bijective() {
    let seed = 987654321;
    let mut seen = HashSet::new();
    for i in 0..=u16::MAX {
        let p = permute(i, seed);
        assert_eq!(unpermute(p, seed), i);
        assert!(seen.insert(p), "permute produced a duplicate value for {i}");
    }
    assert_eq!(seen.len(), 65536);
}

#[test]
fn test_permutation_different_seeds_diverge() {
    let a = permute(42, 1);
    let b = permute(42, 2);
    assert_ne!(a, b);
}

#[test]
fn test_generate_next_id_empty_set() {
    let existing: Vec<String> = Vec::new();
    let id = generate_next_id("REQ-", &existing, PROJECT).unwrap();
    assert!(id.starts_with("REQ-"));
}

#[test]
fn test_generate_next_id_does_not_collide() {
    let mut existing: Vec<String> = Vec::new();
    for _ in 0..50 {
        let id = generate_next_id("REQ-", &existing, PROJECT).unwrap();
        assert!(!existing.contains(&id), "generated id {id} collided with an existing id");
        existing.push(id);
    }
}

#[test]
fn test_generate_next_id_ignores_other_prefixes() {
    let mut existing: Vec<String> = Vec::new();
    for _ in 0..10 {
        let id = generate_next_id("OTHER-", &existing, PROJECT).unwrap();
        existing.push(id);
    }
    let req_id = generate_next_id("REQ-", &existing, PROJECT).unwrap();
    assert!(req_id.starts_with("REQ-"));
    assert!(!existing.contains(&req_id));
}

#[test]
fn test_generate_next_id_exhausted_returns_error() {
    let seed = seed_of(PROJECT);
    let mut existing: Vec<String> = Vec::new();
    for idx in 0..=u16::MAX {
        let quint = permute(idx, seed).to_quint();
        existing.push(format!("REQ-{quint}"));
    }
    let result = generate_next_id("REQ-", &existing, PROJECT);
    assert!(result.is_err());
}

#[test]
fn test_generate_ids_batch() {
    let existing: Vec<String> = vec!["REQ-lusab".to_string(), "REQ-babad".to_string()];
    let batch = generate_ids("REQ-", &existing, 5, PROJECT).unwrap();
    assert_eq!(batch.len(), 5);
    let mut seen = HashSet::new();
    for id in &batch {
        assert!(id.starts_with("REQ-"));
        assert!(!existing.contains(id), "batch id {id} collided with existing id");
        assert!(seen.insert(id.clone()), "duplicate id {id} within batch");
    }
    let empty = generate_ids("REQ-", &existing, 0, PROJECT).unwrap();
    assert!(empty.is_empty());
}

#[test]
fn first_id_is_index_zero_written_as_a_proquint() {
    let seed = 7;
    let ids = generate_ids_with_seed("REQ-", &Vec::new(), 1, seed).unwrap();
    assert_eq!(ids, vec![format!("REQ-{}", permute(0, seed).to_quint())]);
    assert_eq!(ids[0].len(), "REQ-".len() + 5);
}

#[test]
fn next_id_continues_after_the_highest_used_index() {
    let seed = 99;
    // "lusab" is the proquint of 0x7f00.
    let used = unpermute(0x7f00, seed);
    let existing = vec!["REQ-lusab".to_string()];
    let ids = generate_ids_with_seed("REQ-", &existing, 2, seed).unwrap();
    let expected: Vec<String> = (1..=2u16)
        .map(|k| format!("REQ-{}", permute(used.wrapping_add(k), seed).to_quint()))
        .collect();
    assert_eq!(ids, expected);
}

#[test]
fn seeded_generation_matches_project_seed() {
    let existing = vec!["REQ-babad".to_string()];
    let a = generate_ids("REQ-", &existing, 3, PROJECT).unwrap();
    let b = generate_ids_with_seed("REQ-", &existing, 3, seed_of(PROJECT)).unwrap();
    assert_eq!(a, b);
}

#[test]
fn exhausted_error_reports_counts() {
    let seed = 5;
    let mut existing: Vec<String> = Vec::new();
    for idx in 2..=u16::MAX {
        existing.push(format!("REQ-{}", permute(idx, seed).to_quint()));
    }
    // Index 0 and 1 are free, but the search starts after the highest used
    // index and stops before coming back to it.
    let result = generate_ids_with_seed("REQ-", &existing, 3, seed);
    match result {
        Err(IdError::Exhausted { prefix, generated, requested }) => {
            assert_eq!(prefix, "REQ-");
            assert_eq!(generated, 2);
            assert_eq!(requested, 3);
        }
        other => panic!("unexpected result {:?}", other),
    }
}

#[test]
fn batch_equals_successive_single_generations() {
    let mut existing: Vec<String> = vec!["REQ-lusab".to_string(), "ARC-babad".to_string()];
    let batch = generate_ids("REQ-", &existing, 4, PROJECT).unwrap();
    for id in &batch {
        let next = generate_next_id("REQ-", &existing, PROJECT).unwrap();
        assert_eq!(&next, id);
        existing.push(next);
    }
}

#[test]
fn batch_across_the_wrap_equals_singles() {
    let seed = 3;
    // The highest used index is 65533, so the batch wraps past 65535 to 0.
    let mut existing = vec![format!("REQ-{}", permute(65533, seed).to_quint())];
    let batch = generate_ids_with_seed("REQ-", &existing, 4, seed).unwrap();
    for id in &batch {
        let next = generate_ids_with_seed("REQ-", &existing, 1, seed).unwrap();
        assert_eq!(&next[0], id);
        existing.push(next[0].clone());
    }
}

#[test]
fn other_prefixes_change_nothing() {
    let base = vec!["REQ-lusab".to_string()];
    let mut with_others = base.clone();
    with_others.push("ARC-babad".to_string());
    with_others.push("UT-lusab".to_string());
    assert_eq!(
        generate_next_id("REQ-", &base, PROJECT).unwrap(),
        generate_next_id("REQ-", &with_others, PROJECT).unwrap()
    );
}

#[test]
fn exhausted_error_message_text() {
    let e = IdError::Exhausted { prefix: "REQ-".to_string(), generated: 2, requested: 3 };
    assert_eq!(e.message(), "No available IDs left for prefix REQ- (generated 2 of 3 requested)");
    let big = IdError::Exhausted { prefix: "A".to_string(), generated: 0, requested: 12345 };
    assert_eq!(big.message(), "No available IDs left for prefix A (generated 0 of 12345 requested)");
}

#[test]
fn decimal_writing() {
    use_decimal(0, "0");
    use_decimal(9, "9");
    use_decimal(10, "10");
    use_decimal(65536, "65536");
}

fn use_decimal(n: usize, expected: &str) {
    let s: String = reqtrace::id_gen::decimal_exec(n).into_iter().collect();
    assert_eq!(s, expected);
}
