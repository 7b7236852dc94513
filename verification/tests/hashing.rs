use std::collections::HashSet;

use tsid_bench::{
    DefaultTsIdGenerator, Fx64Hasher, Mur3Hasher, SeededHasher, StdHasher64, TsIdGenerator,
    Xxh3Hasher, Xxh64Hasher, build_labels, compute_ts_id, hash_label_names,
};

fn byte_rows(values: &[&str]) -> Vec<Vec<u8>> {
    values.iter().map(|v| v.as_bytes().to_vec()).collect()
}

fn two_phase_id<H: SeededHasher>(names: &[&str], values: &[&str]) -> u64 {
    let seed = hash_label_names::<H>(&byte_rows(names));
    compute_ts_id::<H>(seed, &byte_rows(values))
}

fn check_deterministic<H: SeededHasher>() {
    let names = ["host", "region"];
    let values = ["web-1", "eu-west"];
    let first = two_phase_id::<H>(&names, &values);
    let second = two_phase_id::<H>(&names, &values);
    assert_eq!(first, second);

    // The same computation through explicit generator instances.
    let seed = hash_label_names::<H>(&byte_rows(&names));
    let mut generator = TsIdGenerator::<H>::from_seed(seed);
    generator.write_label_values(&byte_rows(&values));
    assert_eq!(generator.build_ts_id(), first);
}

#[test]
fn ts_id_deterministic_across_generators() {
    check_deterministic::<StdHasher64>();
    check_deterministic::<Xxh3Hasher>();
    check_deterministic::<Xxh64Hasher>();
    check_deterministic::<Fx64Hasher>();
    check_deterministic::<Mur3Hasher>();
}

#[test]
fn schema_seed_amortizes_across_rows() {
    // Computing the schema seed once and reusing it for every row gives
    // each row the identifier the two-phase protocol assigns to it.
    let names = ["host", "region", "service"];
    let rows = [["a", "b", "c"], ["a", "b", "d"], ["x", "y", "z"]];

    let seed = hash_label_names::<Xxh64Hasher>(&byte_rows(&names));
    for row in &rows {
        let reused = compute_ts_id::<Xxh64Hasher>(seed, &byte_rows(row));
        let recomputed = two_phase_id::<Xxh64Hasher>(&names, row);
        assert_eq!(reused, recomputed);
    }
}

#[test]
fn delimiter_separates_adjacent_fields() {
    // ["ab", "c"] and ["a", "bc"] concatenate to the same bytes; the
    // 0xFF delimiter after each field must keep them apart.
    let seed = 42u64;
    let left = compute_ts_id::<Xxh64Hasher>(seed, &byte_rows(&["ab", "c"]));
    let right = compute_ts_id::<Xxh64Hasher>(seed, &byte_rows(&["a", "bc"]));
    assert_ne!(left, right);
}

#[test]
fn seeds_change_the_identifier() {
    let values = byte_rows(&["web-1", "eu-west"]);
    let a = compute_ts_id::<Xxh64Hasher>(1, &values);
    let b = compute_ts_id::<Xxh64Hasher>(2, &values);
    assert_ne!(a, b);
}

#[test]
fn default_generator_matches_hash_label_names() {
    let names = byte_rows(&["host", "region"]);
    let mut generator = DefaultTsIdGenerator::default();
    generator.write_label_names(&names);
    assert_eq!(generator.build_ts_id(), hash_label_names::<StdHasher64>(&names));
}

#[test]
fn write_label_names_and_finish_matches_build() {
    let names = byte_rows(&["host", "region"]);
    let mut with_finish = TsIdGenerator::<Xxh3Hasher>::from_seed(7);
    let digest = with_finish.write_label_names_and_finish(&names);
    let mut built = TsIdGenerator::<Xxh3Hasher>::from_seed(7);
    built.write_label_names(&names);
    assert_eq!(digest, built.build_ts_id());
}

#[test]
fn build_labels_computes_schema_seed() {
    let names: Vec<String> = vec!["host".to_owned(), "region".to_owned()];
    let values: Vec<Vec<String>> = vec![vec!["a".to_owned(), "b".to_owned()]];
    let labels = build_labels::<Xxh64Hasher>(names.clone(), values.clone());
    assert_eq!(labels.label_names, names);
    assert_eq!(labels.label_values, values);
    let name_bytes: Vec<Vec<u8>> = names.iter().map(|s| s.as_bytes().to_vec()).collect();
    assert_eq!(labels.label_name_hash, hash_label_names::<Xxh64Hasher>(&name_bytes));
}

#[test]
fn low_collision_rate_at_scale() {
    // Hash many distinct label-value combinations derived from a small
    // base set by suffixing a counter; no 64-bit identifier may repeat.
    let base = ["web", "eu-west", "checkout"];
    let seed = hash_label_names::<Xxh64Hasher>(&byte_rows(&["host", "region", "service"]));
    let rounds = 100_000usize;
    let mut seen: HashSet<u64> = HashSet::with_capacity(rounds);
    for idx in 0..rounds {
        let values: Vec<Vec<u8>> = base
            .iter()
            .map(|v| format!("{}-{}", v, idx).into_bytes())
            .collect();
        let id = compute_ts_id::<Xxh64Hasher>(seed, &values);
        assert!(seen.insert(id), "duplicate identifier at round {}", idx);
    }
}
