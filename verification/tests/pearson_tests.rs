use phashgen::pearson::{PearsonHashFunction, hash_name, hash_name_swapped, uppercase_bytes};
use phashgen::rng::DotNetRandom;

fn assert_is_permutation(table: &[u8]) {
    assert_eq!(table.len(), 256);
    let mut seen = [false; 256];
    for &b in table {
        assert!(!seen[b as usize], "duplicate value {}", b);
        seen[b as usize] = true;
    }
    for v in 0..256 {
        assert!(seen[v], "missing value {}", v);
    }
}

fn identity() -> PearsonHashFunction {
    let table: Vec<u8> = (0..=255u8).collect();
    PearsonHashFunction::from_table(table).expect("identity is a permutation")
}

#[test]
fn new_and_shuffle_keep_a_permutation() {
    let mut rng = DotNetRandom::new(135960);
    let mut phf = PearsonHashFunction::new(&mut rng);
    assert_is_permutation(phf.aux_table());
    for _ in 0..10 {
        phf.shuffle(&mut rng);
        assert_is_permutation(phf.aux_table());
    }
}

#[test]
fn two_tables_from_one_generator_differ() {
    let mut rng = DotNetRandom::new(135960);
    let phf1 = PearsonHashFunction::new(&mut rng);
    let phf2 = PearsonHashFunction::new(&mut rng);
    // the second table continues the sequence, so the tables disagree
    assert_ne!(phf1.aux_table(), phf2.aux_table());
}

#[test]
fn tables_are_reproducible_for_a_seed() {
    let mut rng_a = DotNetRandom::new(4242);
    let a = PearsonHashFunction::new(&mut rng_a);
    let mut rng_b = DotNetRandom::new(4242);
    let b = PearsonHashFunction::new(&mut rng_b);
    assert_eq!(a.aux_table(), b.aux_table());
}

#[test]
fn identity_table_hash_traces_the_fold() {
    let phf = identity();
    // acc = 0; acc = t[0 ^ 0x41] = 0x41; acc = t[0x41 ^ 0x42] = 0x03
    assert_eq!(phf.hash(&[0x41, 0x42]), 0x03);
    assert_eq!(phf.hash(&[0x41]), 0x41);
    assert_eq!(phf.hash(&[]), 0);
}

#[test]
fn from_table_rejects_non_permutations() {
    assert!(PearsonHashFunction::from_table(vec![0u8; 256]).is_none());
    assert!(PearsonHashFunction::from_table(vec![1, 2, 3]).is_none());
    let mut almost: Vec<u8> = (0..=255u8).collect();
    almost[255] = 0;
    assert!(PearsonHashFunction::from_table(almost).is_none());
}

#[test]
fn uppercase_maps_ascii_letters_only() {
    assert_eq!(uppercase_bytes(b"dup!"), vec![b'D', b'U', b'P', b'!']);
    assert_eq!(uppercase_bytes(b"2DUP"), b"2DUP".to_vec());
    assert_eq!(uppercase_bytes(b""), Vec::<u8>::new());
    assert_eq!(uppercase_bytes(&[0x80, b'z']), vec![0x80, b'Z']);
}

#[test]
fn hash_name_combines_high_then_low() {
    let phf1 = identity();
    let phf2 = identity();
    // upper("ab") = [0x41, 0x42]; both folds give 0x03
    assert_eq!(hash_name(b"ab", &phf1, &phf2, 0x3FF), 0x303);
    assert_eq!(hash_name_swapped(b"ab", &phf1, &phf2, 0x3FF), 0x303);
    // masking confines the slot index
    assert_eq!(hash_name(b"ab", &phf1, &phf2, 0xFF), 0x03);
}

#[test]
fn swapped_roles_differ_for_distinct_tables() {
    let mut rng = DotNetRandom::new(135960);
    let phf1 = PearsonHashFunction::new(&mut rng);
    let phf2 = PearsonHashFunction::new(&mut rng);
    let fwd = hash_name(b"WORDS", &phf1, &phf2, 0xFFFF);
    let swp = hash_name_swapped(b"WORDS", &phf1, &phf2, 0xFFFF);
    // the two slot functions use the same byte hashes with roles exchanged
    assert_eq!(swp, ((fwd & 0xFF) << 8) | (fwd >> 8));
}
